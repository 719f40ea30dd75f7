//! Lexical analyzer for dice expressions.
//!
//! Dice expressions are broken into tokens according to the following rules:
//!
//! - Whitespace is discarded as it is encountered and is only significant
//!   when separating words or integers.
//! - Contiguous sequences of decimal digits are tokenized as integers; a run
//!   whose value does not fit in a 32-bit signed integer is a lexical error.
//! - Contiguous sequences of alphabetic characters are tokenized as words.
//!   The following words are recognized as valid: `d`, `k`, `kh`, `kl`, `dh`,
//!   `dl`, `adv`, `dis`, `da`, `ad`. Other words are lexical errors.
//! - The symbols `+`, `-`, `*`, `/`, `%`, `(`, `)`, `[`, `]` are single
//!   tokens; `×` and `÷` are equivalent to `*` and `/`. Any other character
//!   is a lexical error.
//!
//! The function [`toks`] gives the whole token sequence of an input as a
//! mathematical value; [`Lexer::next`] produces that sequence one item at a
//! time.

use vstd::prelude::*;
use vstd::string::StrSliceExecFns;

use crate::text::push_char;

verus! {

/// The recognized words of the notation.
#[derive(Debug, PartialEq, Eq, Clone, Copy, Structural)]
pub enum Word {
    /// `d`: the dice operator, or drop-lowest inside a selection chain.
    D,
    /// `k`: keep highest.
    K,
    /// `kh`: keep highest.
    Kh,
    /// `kl`: keep lowest.
    Kl,
    /// `dh`: drop highest.
    Dh,
    /// `dl`: drop lowest.
    Dl,
    /// `adv`: advantage.
    Adv,
    /// `dis`: disadvantage.
    Dis,
    /// `da`: disadvantage.
    Da,
    /// `ad`: advantage.
    Ad,
}

/// The types of tokens that can be produced by the lexer.
#[derive(Debug, PartialEq, Eq, Clone, Copy, Structural)]
pub enum Token {
    /// An integer literal.
    Integer(i32),
    /// A recognized word.
    Word(Word),
    /// The symbol `+`.
    Plus,
    /// The symbol `-`.
    Minus,
    /// The symbol `*` or `×`.
    Times,
    /// The symbol `/` or `÷`.
    Divide,
    /// The symbol `%`.
    Percent,
    /// The symbol `(` or `[`.
    Open(char),
    /// The symbol `)` or `]`.
    Close(char),
}

/// Lexical errors.
#[derive(Debug, PartialEq, Clone)]
pub enum Error {
    /// A character that can start no token.
    InvalidCharacter(char),
    /// An alphabetic run that is not one of the recognized words.
    InvalidWord(String),
    /// A digit run whose value does not fit in a 32-bit signed integer.
    IntegerOverflow,
}

/// The mathematical value of a lexical error: the word text is a sequence of
/// characters rather than a `String`.
pub ghost enum ErrorView {
    InvalidCharacter(char),
    InvalidWord(Seq<char>),
    IntegerOverflow,
}

impl View for Error {
    type V = ErrorView;

    open spec fn view(&self) -> ErrorView {
        match self {
            Error::InvalidCharacter(c) => ErrorView::InvalidCharacter(*c),
            Error::InvalidWord(w) => ErrorView::InvalidWord(w@),
            Error::IntegerOverflow => ErrorView::IntegerOverflow,
        }
    }
}

/// The mathematical value of one lexer item.
pub open spec fn item_view(item: Result<Token, Error>) -> Result<Token, ErrorView> {
    match item {
        Ok(t) => Ok(t),
        Err(e) => Err(e@),
    }
}

/// Whether `c` has the Unicode `Alphabetic` property; left uninterpreted
/// outside the Latin range handled concretely by [`alpha_char`].
pub uninterp spec fn unicode_alphabetic(c: char) -> bool;

/// Whether `c` has the Unicode `White_Space` property; left uninterpreted
/// outside the Latin range handled concretely by [`space_char`].
pub uninterp spec fn unicode_whitespace(c: char) -> bool;

/// The characters that form words: the `Alphabetic` characters. On ASCII
/// these are exactly the letters, and the two normalized arithmetic signs
/// `×` and `÷` are not alphabetic.
pub open spec fn alpha_char(c: char) -> bool {
    if (c as u32) < 128 {
        (0x41 <= c as u32 && c as u32 <= 0x5A) || (0x61 <= c as u32 && c as u32 <= 0x7A)
    } else if c as u32 == 0xD7 || c as u32 == 0xF7 {
        false
    } else {
        unicode_alphabetic(c)
    }
}

/// The characters skipped between tokens: the `White_Space` characters. On
/// ASCII these are the space and the five controls U+0009 through U+000D,
/// and the two normalized arithmetic signs `×` and `÷` are not whitespace.
pub open spec fn space_char(c: char) -> bool {
    if (c as u32) < 128 {
        c as u32 == 0x20 || (0x09 <= c as u32 && c as u32 <= 0x0D)
    } else if c as u32 == 0xD7 || c as u32 == 0xF7 {
        false
    } else {
        unicode_whitespace(c)
    }
}

/// The decimal digits.
pub open spec fn digit_char(c: char) -> bool {
    0x30 <= c as u32 && c as u32 <= 0x39
}

/// The numeric value of a decimal digit.
pub open spec fn digit_val(c: char) -> int {
    c as u32 - 0x30
}

/// Relies on `char::is_alphabetic`: true exactly for characters with the
/// Unicode `Alphabetic` property. Within ASCII those are the letters
/// `A`-`Z` and `a`-`z`; `×` (U+00D7) and `÷` (U+00F7) are mathematical
/// symbols, not alphabetic.
#[verifier::external_body]
fn char_is_alphabetic(c: char) -> (r: bool)
    ensures
        r == alpha_char(c),
        c as u32 >= 128 && c as u32 != 0xD7 && c as u32 != 0xF7 ==> r == unicode_alphabetic(c),
{
    c.is_alphabetic()
}

/// Relies on `char::is_whitespace`: true exactly for characters with the
/// Unicode `White_Space` property. Within ASCII those are the space U+0020
/// and the controls U+0009 through U+000D; `×` (U+00D7) and `÷` (U+00F7)
/// are not whitespace.
#[verifier::external_body]
fn char_is_whitespace(c: char) -> (r: bool)
    ensures
        r == space_char(c),
        c as u32 >= 128 && c as u32 != 0xD7 && c as u32 != 0xF7 ==> r == unicode_whitespace(c),
{
    c.is_whitespace()
}

/// Executable check for a decimal digit.
fn is_digit(c: char) -> (r: bool)
    ensures
        r == digit_char(c),
{
    let u = c as u32;
    48 <= u && u <= 57
}

/// The first position at or after `i` that does not hold whitespace.
pub open spec fn skip_ws(s: Seq<char>, i: int) -> int
    decreases s.len() - i,
{
    if 0 <= i && i < s.len() && space_char(s[i]) {
        skip_ws(s, i + 1)
    } else {
        i
    }
}

/// The end of the maximal digit run starting at `i`.
pub open spec fn digit_run_end(s: Seq<char>, i: int) -> int
    decreases s.len() - i,
{
    if 0 <= i && i < s.len() && digit_char(s[i]) {
        digit_run_end(s, i + 1)
    } else {
        i
    }
}

/// The end of the maximal alphabetic run starting at `i`.
pub open spec fn alpha_run_end(s: Seq<char>, i: int) -> int
    decreases s.len() - i,
{
    if 0 <= i && i < s.len() && alpha_char(s[i]) {
        alpha_run_end(s, i + 1)
    } else {
        i
    }
}

/// The value of a run of decimal digits.
pub open spec fn digits_val(s: Seq<char>) -> int
    decreases s.len(),
{
    if s.len() == 0 {
        0
    } else {
        digits_val(s.drop_last()) * 10 + digit_val(s.last())
    }
}

/// The word denoted by an alphabetic run, if it is one of the ten
/// recognized words.
pub open spec fn word_of(w: Seq<char>) -> Option<Word> {
    if w.len() == 1 {
        if w[0] == 'd' {
            Some(Word::D)
        } else if w[0] == 'k' {
            Some(Word::K)
        } else {
            None
        }
    } else if w.len() == 2 {
        if w[0] == 'k' && w[1] == 'h' {
            Some(Word::Kh)
        } else if w[0] == 'k' && w[1] == 'l' {
            Some(Word::Kl)
        } else if w[0] == 'd' && w[1] == 'h' {
            Some(Word::Dh)
        } else if w[0] == 'd' && w[1] == 'l' {
            Some(Word::Dl)
        } else if w[0] == 'd' && w[1] == 'a' {
            Some(Word::Da)
        } else if w[0] == 'a' && w[1] == 'd' {
            Some(Word::Ad)
        } else {
            None
        }
    } else if w.len() == 3 {
        if w[0] == 'a' && w[1] == 'd' && w[2] == 'v' {
            Some(Word::Adv)
        } else if w[0] == 'd' && w[1] == 'i' && w[2] == 's' {
            Some(Word::Dis)
        } else {
            None
        }
    } else {
        None
    }
}

/// The token denoted by a single symbol character, or the invalid-character
/// error.
pub open spec fn symbol_token(c: char) -> Result<Token, ErrorView> {
    if c == '+' {
        Ok(Token::Plus)
    } else if c == '-' {
        Ok(Token::Minus)
    } else if c == '*' || c as u32 == 0xD7 {
        Ok(Token::Times)
    } else if c == '/' || c as u32 == 0xF7 {
        Ok(Token::Divide)
    } else if c == '%' {
        Ok(Token::Percent)
    } else if c == '(' || c == '[' {
        Ok(Token::Open(c))
    } else if c == ')' || c == ']' {
        Ok(Token::Close(c))
    } else {
        Err(ErrorView::InvalidCharacter(c))
    }
}

/// The next item the scanner produces at or after position `i`, with the
/// position just past it; `None` when only whitespace remains.
pub open spec fn next_token(s: Seq<char>, i: int) -> Option<(Result<Token, ErrorView>, int)> {
    let j = skip_ws(s, i);
    if !(0 <= j && j < s.len()) {
        None
    } else {
        let c = s[j];
        if digit_char(c) {
            let k = digit_run_end(s, j);
            let v = digits_val(s.subrange(j, k));
            if v <= i32::MAX {
                Some((Ok(Token::Integer(v as i32)), k))
            } else {
                Some((Err(ErrorView::IntegerOverflow), k))
            }
        } else if alpha_char(c) {
            let k = alpha_run_end(s, j);
            match word_of(s.subrange(j, k)) {
                Some(word) => Some((Ok(Token::Word(word)), k)),
                None => Some((Err(ErrorView::InvalidWord(s.subrange(j, k))), k)),
            }
        } else {
            Some((symbol_token(c), j + 1))
        }
    }
}

/// The whole remaining token sequence from position `i`.
pub open spec fn toks(s: Seq<char>, i: int) -> Seq<Result<Token, ErrorView>>
    decreases s.len() - i,
{
    match next_token(s, i) {
        None => Seq::empty(),
        Some(p) => {
            if i < p.1 && p.1 <= s.len() {
                seq![p.0] + toks(s, p.1)
            } else {
                seq![p.0]
            }
        },
    }
}

/// The token sequence of a whole input text.
pub open spec fn lex_all(s: Seq<char>) -> Seq<Result<Token, ErrorView>> {
    toks(s, 0)
}

proof fn lemma_skip_ws(s: Seq<char>, i: int)
    requires
        0 <= i <= s.len(),
    ensures
        i <= skip_ws(s, i) <= s.len(),
    decreases s.len() - i,
{
    if i < s.len() && space_char(s[i]) {
        lemma_skip_ws(s, i + 1);
    }
}

proof fn lemma_digit_run(s: Seq<char>, i: int)
    requires
        0 <= i <= s.len(),
    ensures
        i <= digit_run_end(s, i) <= s.len(),
        forall|m: int| i <= m < digit_run_end(s, i) ==> digit_char(s[m]),
    decreases s.len() - i,
{
    if i < s.len() && digit_char(s[i]) {
        lemma_digit_run(s, i + 1);
    }
}

proof fn lemma_alpha_run(s: Seq<char>, i: int)
    requires
        0 <= i <= s.len(),
    ensures
        i <= alpha_run_end(s, i) <= s.len(),
        forall|m: int| i <= m < alpha_run_end(s, i) ==> alpha_char(s[m]),
    decreases s.len() - i,
{
    if i < s.len() && alpha_char(s[i]) {
        lemma_alpha_run(s, i + 1);
    }
}

/// A run of digits has a nonnegative value.
proof fn lemma_digits_val_nonneg(s: Seq<char>)
    requires
        forall|m: int| 0 <= m < s.len() ==> digit_char(s[m]),
    ensures
        digits_val(s) >= 0,
    decreases s.len(),
{
    if s.len() > 0 {
        lemma_digits_val_nonneg(s.drop_last());
    }
}

/// Extending a digit run never shrinks its value.
proof fn lemma_digits_val_grows(s: Seq<char>, m: int, k: int)
    requires
        0 <= m <= k <= s.len(),
        forall|q: int| 0 <= q < s.len() ==> digit_char(s[q]),
    ensures
        digits_val(s.subrange(0, m)) <= digits_val(s.subrange(0, k)),
    decreases k - m,
{
    if m < k {
        lemma_digits_val_grows(s, m, k - 1);
        let t = s.subrange(0, k);
        assert(t.drop_last() =~= s.subrange(0, k - 1));
        assert(forall|q: int| 0 <= q < t.len() ==> digit_char(t[q]));
        lemma_digits_val_nonneg(t.drop_last());
        assert(digit_val(t.last()) >= 0);
    }
}

/// Where the scanner yields an item, its end position lies strictly past
/// the start.
pub proof fn lemma_next_token_bounds(s: Seq<char>, i: int)
    requires
        0 <= i <= s.len(),
    ensures
        match next_token(s, i) {
            None => true,
            Some(p) => i < p.1 && p.1 <= s.len(),
        },
{
    lemma_skip_ws(s, i);
    let j = skip_ws(s, i);
    if 0 <= j && j < s.len() {
        if digit_char(s[j]) {
            lemma_digit_run(s, j);
            assert(digit_run_end(s, j) == digit_run_end(s, j + 1));
            lemma_digit_run(s, j + 1);
        } else if alpha_char(s[j]) {
            lemma_alpha_run(s, j);
            assert(alpha_run_end(s, j) == alpha_run_end(s, j + 1));
            lemma_alpha_run(s, j + 1);
        }
    }
}

/// One scanner step taken off the front of the token sequence.
pub proof fn lemma_toks_unfold(s: Seq<char>, i: int)
    requires
        0 <= i <= s.len(),
    ensures
        match next_token(s, i) {
            None => toks(s, i) == Seq::<Result<Token, ErrorView>>::empty(),
            Some(p) => toks(s, i).len() > 0 && toks(s, i)[0] == p.0 && toks(s, i).skip(1)
                == toks(s, p.1),
        },
{
    lemma_next_token_bounds(s, i);
    match next_token(s, i) {
        None => {},
        Some(p) => {
            assert(toks(s, i) == seq![p.0] + toks(s, p.1));
            assert(toks(s, i).skip(1) =~= toks(s, p.1));
        },
    }
}

/// A lexical analyzer for dice expressions: an input text and a cursor, from
/// which [`Lexer::next`] takes one token at a time.
pub struct Lexer {
    chars: Vec<char>,
    pos: usize,
}

impl Lexer {
    /// The input text being scanned.
    pub closed spec fn text(&self) -> Seq<char> {
        self.chars@
    }

    /// The cursor: the position scanning has reached.
    pub closed spec fn position(&self) -> int {
        self.pos as int
    }

    /// The cursor never passes the end of the text.
    pub open spec fn wf(&self) -> bool {
        0 <= self.position() <= self.text().len()
    }

    /// The items the scanner has yet to produce.
    pub open spec fn remaining(&self) -> Seq<Result<Token, ErrorView>> {
        toks(self.text(), self.position())
    }

    /// Build a lexer over the given input text.
    pub fn new(input: &str) -> (lexer: Lexer)
        ensures
            lexer.wf(),
            lexer.text() == input@,
            lexer.remaining() == lex_all(input@),
    {
        let n = input.unicode_len();
        let mut chars: Vec<char> = Vec::new();
        let mut i: usize = 0;
        while i < n
            invariant
                i <= n,
                n == input@.len(),
                chars@ =~= input@.subrange(0, i as int),
            decreases n - i,
        {
            chars.push(input.get_char(i));
            i += 1;
        }
        proof {
            assert(chars@ =~= input@);
        }
        Lexer { chars, pos: 0 }
    }

    /// Produce the next token or lexical error, or `None` at the end of the
    /// input. Characters already consumed are never re-emitted.
    pub fn next(&mut self) -> (r: Option<Result<Token, Error>>)
        requires
            old(self).wf(),
        ensures
            final(self).wf(),
            final(self).text() == old(self).text(),
            match r {
                Some(item) => old(self).remaining().len() > 0 && item_view(item) == old(
                    self,
                ).remaining()[0] && final(self).remaining() == old(self).remaining().skip(1),
                None => old(self).remaining().len() == 0 && final(self).remaining() == old(
                    self,
                ).remaining(),
            },
    {
        let ghost s = self.text();
        let ghost i0 = self.position();
        proof {
            lemma_toks_unfold(s, i0);
            lemma_next_token_bounds(s, i0);
        }
        let len = self.chars.len();

        // Skip whitespace.
        while self.pos < len && char_is_whitespace(self.chars[self.pos])
            invariant
                self.wf(),
                len == self.text().len(),
                self.text() == s,
                i0 <= self.position(),
                skip_ws(s, i0) == skip_ws(s, self.position()),
            decreases len - self.pos,
        {
            proof {
                assert(skip_ws(s, self.position()) == skip_ws(s, self.position() + 1));
            }
            self.pos = self.pos + 1;
        }
        proof {
            assert(skip_ws(s, self.position()) == self.position());
        }

        if self.pos >= len {
            return None;
        }

        let c = self.chars[self.pos];
        let ghost j = self.position();

        if is_digit(c) {
            // Consume an integer: take all contiguous digits, then fold
            // their value with overflow checking.
            let start = self.pos;
            while self.pos < len && is_digit(self.chars[self.pos])
                invariant
                    self.wf(),
                    len == self.text().len(),
                    self.text() == s,
                    j <= self.position(),
                    digit_run_end(s, j) == digit_run_end(s, self.position()),
                    forall|m: int| j <= m < self.position() ==> digit_char(s[m]),
                decreases len - self.pos,
            {
                proof {
                    assert(digit_run_end(s, self.position()) == digit_run_end(
                        s,
                        self.position() + 1,
                    ));
                }
                self.pos = self.pos + 1;
            }
            proof {
                assert(digit_run_end(s, self.position()) == self.position());
            }
            let k = self.pos;
            let ghost run = s.subrange(j, k as int);
            proof {
                assert(forall|q: int| 0 <= q < run.len() ==> digit_char(run[q]));
            }

            let mut acc: i32 = 0;
            let mut overflow: bool = false;
            let mut m: usize = start;
            while m < k
                invariant
                    start <= m <= k <= self.chars@.len(),
                    self.text() == s,
                    j == start as int,
                    run == s.subrange(j, k as int),
                    forall|q: int| 0 <= q < run.len() ==> digit_char(run[q]),
                    !overflow ==> 0 <= acc && acc == digits_val(run.subrange(0, m - start)),
                    overflow ==> digits_val(run.subrange(0, m - start)) > i32::MAX,
                decreases k - m,
            {
                let ghost pre = run.subrange(0, m - start);
                let ghost post = run.subrange(0, m + 1 - start);
                proof {
                    assert(post.drop_last() =~= pre);
                    assert(post.last() == s[m as int]);
                }
                let d = (self.chars[m] as u32 - 48) as i32;
                if !overflow {
                    let shifted = acc.checked_mul(10);
                    match shifted {
                        Some(a10) => {
                            let summed = a10.checked_add(d);
                            match summed {
                                Some(v) => {
                                    acc = v;
                                },
                                None => {
                                    overflow = true;
                                },
                            }
                        },
                        None => {
                            proof {
                                lemma_digits_val_nonneg(pre);
                            }
                            overflow = true;
                        },
                    }
                } else {
                    proof {
                        lemma_digits_val_nonneg(pre);
                    }
                }
                m = m + 1;
            }
            proof {
                assert(run.subrange(0, k - start) =~= run);
            }

            if overflow {
                return Some(Err(Error::IntegerOverflow));
            }
            return Some(Ok(Token::Integer(acc)));
        }

        if char_is_alphabetic(c) {
            // Consume a word: take all contiguous alphabetic characters.
            let start = self.pos;
            while self.pos < len && char_is_alphabetic(self.chars[self.pos])
                invariant
                    self.wf(),
                    len == self.text().len(),
                    self.text() == s,
                    j <= self.position(),
                    alpha_run_end(s, j) == alpha_run_end(s, self.position()),
                decreases len - self.pos,
            {
                proof {
                    assert(alpha_run_end(s, self.position()) == alpha_run_end(
                        s,
                        self.position() + 1,
                    ));
                }
                self.pos = self.pos + 1;
            }
            proof {
                assert(alpha_run_end(s, self.position()) == self.position());
            }
            let k = self.pos;

            match lookup_word(&self.chars, start, k) {
                Some(word) => {
                    return Some(Ok(Token::Word(word)));
                },
                None => {
                    let mut text = String::new();
                    let mut m: usize = start;
                    while m < k
                        invariant
                            start <= m <= k <= self.chars@.len(),
                            self.text() == s,
                            text@ =~= s.subrange(start as int, m as int),
                        decreases k - m,
                    {
                        push_char(&mut text, self.chars[m]);
                        proof {
                            assert(text@ =~= s.subrange(start as int, m + 1));
                        }
                        m = m + 1;
                    }
                    proof {
                        assert(text@ =~= s.subrange(start as int, k as int));
                    }
                    return Some(Err(Error::InvalidWord(text)));
                },
            }
        }

        // Otherwise, consume a single-character symbol.
        self.pos = self.pos + 1;
        let item = if c == '+' {
            Ok(Token::Plus)
        } else if c == '-' {
            Ok(Token::Minus)
        } else if c == '*' || c as u32 == 0xD7 {
            Ok(Token::Times)
        } else if c == '/' || c as u32 == 0xF7 {
            Ok(Token::Divide)
        } else if c == '%' {
            Ok(Token::Percent)
        } else if c == '(' || c == '[' {
            Ok(Token::Open(c))
        } else if c == ')' || c == ']' {
            Ok(Token::Close(c))
        } else {
            Err(Error::InvalidCharacter(c))
        };
        Some(item)
    }
}

/// Look up the characters `chars[j..k]` among the recognized words.
fn lookup_word(chars: &Vec<char>, j: usize, k: usize) -> (r: Option<Word>)
    requires
        j <= k <= chars@.len(),
    ensures
        r == word_of(chars@.subrange(j as int, k as int)),
{
    let ghost w = chars@.subrange(j as int, k as int);
    let n = k - j;
    if n == 1 {
        let c0 = chars[j];
        proof {
            assert(w.len() == 1 && w[0] == c0);
        }
        if c0 == 'd' {
            Some(Word::D)
        } else if c0 == 'k' {
            Some(Word::K)
        } else {
            None
        }
    } else if n == 2 {
        let c0 = chars[j];
        let c1 = chars[j + 1];
        proof {
            assert(w.len() == 2 && w[0] == c0 && w[1] == c1);
        }
        if c0 == 'k' && c1 == 'h' {
            Some(Word::Kh)
        } else if c0 == 'k' && c1 == 'l' {
            Some(Word::Kl)
        } else if c0 == 'd' && c1 == 'h' {
            Some(Word::Dh)
        } else if c0 == 'd' && c1 == 'l' {
            Some(Word::Dl)
        } else if c0 == 'd' && c1 == 'a' {
            Some(Word::Da)
        } else if c0 == 'a' && c1 == 'd' {
            Some(Word::Ad)
        } else {
            None
        }
    } else if n == 3 {
        let c0 = chars[j];
        let c1 = chars[j + 1];
        let c2 = chars[j + 2];
        proof {
            assert(w.len() == 3 && w[0] == c0 && w[1] == c1 && w[2] == c2);
        }
        if c0 == 'a' && c1 == 'd' && c2 == 'v' {
            Some(Word::Adv)
        } else if c0 == 'd' && c1 == 'i' && c2 == 's' {
            Some(Word::Dis)
        } else {
            None
        }
    } else {
        None
    }
}

} // verus!
