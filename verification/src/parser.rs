//! A recursive descent parser for dice expressions.
//!
//! The grammar, with one token of lookahead at every decision point:
//!
//! ```text
//! root       = sum ;
//! sum        = term, { ("+" | "-"), term } ;
//! term       = factor, { ("*" | "/"), factor } ;
//! factor     = "(", sum, ")" | "[", sum, "]" | "-", factor | roll-or-int ;
//! roll-or-int= integer, ["d", roll-tail] | "d", roll-tail ;
//! roll-tail  = (integer-sides | "%")?, selection? ;
//! selection  = ( ("k"|"kh"|"kl"|"d"|"dh"|"dl"), integer?
//!              | "adv" | "ad" | "dis" | "da" ), selection? ;
//! ```
//!
//! An integer immediately followed by the word `d` starts a roll with that
//! integer as its count; a bare `d` starts a roll whose count defaults to 1.
//! An explicit sides integer must be one of 4, 6, 8, 10, 12, 20 or 100; `%`
//! means 100; absent sides default to 6. Inside a selection chain the word
//! `d` means drop-lowest. Keep/drop counts default to 1 at evaluation when
//! absent. The parse fails if any token remains after the root production.
//!
//! The mathematical parser is the family of `spec_*` functions over the
//! token sequence; [`parse`] is proved to return exactly
//! [`spec_parse`]`(input)`.

use vstd::prelude::*;

use crate::ast::{Add, Div, Expr, Lit, Mul, Neg, Roll, Select, Selection, Sub};
use crate::lexer;
use crate::lexer::{item_view, lex_all, Lexer, Token, Word};
use crate::lookahead::Lookahead;

verus! {

/// A token sequence as the parser sees it: each item is a token or a
/// lexical error.
pub type Items = Seq<Result<Token, lexer::ErrorView>>;

/// Parsing errors.
#[derive(Debug, PartialEq, Clone)]
pub enum Error {
    /// A token was encountered at a position where it cannot start or
    /// continue a production.
    UnexpectedToken(Token),
    /// The end of the input was reached where a production required more;
    /// the payload is the closing bracket that was awaited, if any.
    UnexpectedEnd(Option<char>),
    /// A die with an invalid number of sides was encountered.
    InvalidDie(i32),
    /// A closing bracket that does not match the opening bracket.
    MismatchedParentheses(char, char),
    /// An error occurred in the lexer.
    LexError(lexer::Error),
}

/// The mathematical value of a parsing error.
pub ghost enum ErrorView {
    UnexpectedToken(Token),
    UnexpectedEnd(Option<char>),
    InvalidDie(i32),
    MismatchedParentheses(char, char),
    LexError(lexer::ErrorView),
}

impl View for Error {
    type V = ErrorView;

    open spec fn view(&self) -> ErrorView {
        match self {
            Error::UnexpectedToken(t) => ErrorView::UnexpectedToken(*t),
            Error::UnexpectedEnd(c) => ErrorView::UnexpectedEnd(*c),
            Error::InvalidDie(s) => ErrorView::InvalidDie(*s),
            Error::MismatchedParentheses(o, c) => ErrorView::MismatchedParentheses(*o, *c),
            Error::LexError(e) => ErrorView::LexError(e@),
        }
    }
}

/// The closing bracket that matches an opening bracket.
pub open spec fn close_of(open: char) -> char {
    if open == '(' {
        ')'
    } else {
        ']'
    }
}

/// Whether an opening and a closing bracket belong to the same family.
pub open spec fn brackets_match(open: char, close: char) -> bool {
    (open == '(' && close == ')') || (open == '[' && close == ']')
}

/// The selection kind named by a keep/drop word; `d` means drop-lowest in
/// selection position.
pub open spec fn keep_drop_kind(w: Word) -> Option<Selection> {
    match w {
        Word::K => Some(Selection::KeepHighest),
        Word::Kh => Some(Selection::KeepHighest),
        Word::Kl => Some(Selection::KeepLowest),
        Word::D => Some(Selection::DropLowest),
        Word::Dh => Some(Selection::DropHighest),
        Word::Dl => Some(Selection::DropLowest),
        _ => None,
    }
}

/// The mathematical `selection` production: an optional chain of selection
/// nodes, together with the unconsumed items.
pub open spec fn spec_selection(ts: Items) -> Result<(Option<Expr>, Items), ErrorView>
    decreases ts.len(), 0int,
{
    if ts.len() == 0 {
        Ok((None, ts))
    } else {
        match ts[0] {
            Err(le) => Err(ErrorView::LexError(le)),
            Ok(Token::Word(w)) => {
                if keep_drop_kind(w) is Some {
                    let kind = keep_drop_kind(w)->Some_0;
                    let rest1 = ts.skip(1);
                    if rest1.len() > 0 && rest1[0] is Err {
                        Err(ErrorView::LexError(rest1[0]->Err_0))
                    } else {
                        let counted = rest1.len() > 0 && rest1[0] matches Ok(Token::Integer(_));
                        let count = if counted {
                            Some(Expr::Lit(Lit { value: rest1[0]->Ok_0->Integer_0 }))
                        } else {
                            None
                        };
                        let rest2 = if counted {
                            rest1.skip(1)
                        } else {
                            rest1
                        };
                        match spec_selection(rest2) {
                            Ok(p) => Ok(
                                (
                                    Some(
                                        Expr::Select(
                                            Select {
                                                selection: kind,
                                                count: match count {
                                                    Some(c) => Some(Box::new(c)),
                                                    None => None,
                                                },
                                                next: match p.0 {
                                                    Some(n) => Some(Box::new(n)),
                                                    None => None,
                                                },
                                            },
                                        ),
                                    ),
                                    p.1,
                                ),
                            ),
                            Err(e) => Err(e),
                        }
                    }
                } else if w == Word::Adv || w == Word::Ad || w == Word::Dis || w == Word::Da {
                    let kind = if w == Word::Adv || w == Word::Ad {
                        Selection::Advantage
                    } else {
                        Selection::Disadvantage
                    };
                    match spec_selection(ts.skip(1)) {
                        Ok(p) => Ok(
                            (
                                Some(
                                    Expr::Select(
                                        Select {
                                            selection: kind,
                                            count: None,
                                            next: match p.0 {
                                                Some(n) => Some(Box::new(n)),
                                                None => None,
                                            },
                                        },
                                    ),
                                ),
                                p.1,
                            ),
                        ),
                        Err(e) => Err(e),
                    }
                } else {
                    Ok((None, ts))
                }
            },
            Ok(_) => Ok((None, ts)),
        }
    }
}

/// The mathematical `roll-or-int` production after its count is known:
/// `ts` starts at the word `d`, and `count` is the leading integer, or 1
/// for a bare `d`.
pub open spec fn spec_roll(ts: Items, count: i32) -> Result<(Expr, Items), ErrorView>
    decreases ts.len(), 1int,
{
    if ts.len() == 0 {
        Err(ErrorView::UnexpectedEnd(None))
    } else {
        match ts[0] {
            Err(le) => Err(ErrorView::LexError(le)),
            Ok(Token::Word(Word::D)) => {
                let rest1 = ts.skip(1);
                let with_sides: Result<(i32, Items), ErrorView> = if rest1.len() == 0 {
                    Ok((6, rest1))
                } else {
                    match rest1[0] {
                        Err(le) => Err(ErrorView::LexError(le)),
                        Ok(Token::Integer(sides)) => {
                            if crate::valid_sides(sides) {
                                Ok((sides, rest1.skip(1)))
                            } else {
                                Err(ErrorView::InvalidDie(sides))
                            }
                        },
                        Ok(Token::Percent) => Ok((100, rest1.skip(1))),
                        Ok(_) => Ok((6, rest1)),
                    }
                };
                match with_sides {
                    Err(e) => Err(e),
                    Ok((sides, rest2)) => match spec_selection(rest2) {
                        Err(e) => Err(e),
                        Ok(p) => Ok(
                            (
                                Expr::Roll(
                                    Roll {
                                        count: Box::new(Expr::Lit(Lit { value: count })),
                                        sides: Box::new(Expr::Lit(Lit { value: sides })),
                                        select: match p.0 {
                                            Some(n) => Some(Box::new(n)),
                                            None => None,
                                        },
                                    },
                                ),
                                p.1,
                            ),
                        ),
                    },
                }
            },
            Ok(other) => Err(ErrorView::UnexpectedToken(other)),
        }
    }
}

/// The mathematical `factor` production.
pub open spec fn spec_factor(ts: Items) -> Result<(Expr, Items), ErrorView>
    decreases ts.len(), 2int,
{
    if ts.len() == 0 {
        Err(ErrorView::UnexpectedEnd(None))
    } else {
        match ts[0] {
            Err(le) => Err(ErrorView::LexError(le)),
            Ok(Token::Open(oc)) => {
                match spec_sum(ts.skip(1)) {
                    Err(e) => Err(e),
                    Ok((inner, rest)) => {
                        if rest.len() == 0 {
                            Err(ErrorView::UnexpectedEnd(Some(close_of(oc))))
                        } else {
                            match rest[0] {
                                Err(le) => Err(ErrorView::LexError(le)),
                                Ok(Token::Close(cc)) => {
                                    if brackets_match(oc, cc) {
                                        Ok((inner, rest.skip(1)))
                                    } else {
                                        Err(ErrorView::MismatchedParentheses(oc, cc))
                                    }
                                },
                                Ok(other) => Err(ErrorView::UnexpectedToken(other)),
                            }
                        }
                    },
                }
            },
            Ok(Token::Integer(n)) => {
                if ts.len() >= 2 && ts[1] == Ok::<Token, lexer::ErrorView>(Token::Word(Word::D)) {
                    spec_roll(ts.skip(1), n)
                } else {
                    Ok((Expr::Lit(Lit { value: n }), ts.skip(1)))
                }
            },
            Ok(Token::Word(Word::D)) => spec_roll(ts, 1),
            Ok(Token::Minus) => {
                match spec_factor(ts.skip(1)) {
                    Err(e) => Err(e),
                    Ok((inner, rest)) => Ok((Expr::Neg(Neg { right: Box::new(inner) }), rest)),
                }
            },
            Ok(other) => Err(ErrorView::UnexpectedToken(other)),
        }
    }
}

/// The iterated part of the `term` production: zero or more `*`/`/` steps
/// folded left onto `left`.
pub open spec fn spec_term_rest(left: Expr, ts: Items) -> Result<(Expr, Items), ErrorView>
    decreases ts.len(), 3int,
{
    if ts.len() == 0 {
        Ok((left, ts))
    } else {
        match ts[0] {
            Err(le) => Err(ErrorView::LexError(le)),
            Ok(Token::Times) => {
                match spec_factor(ts.skip(1)) {
                    Err(e) => Err(e),
                    Ok((right, rest)) => {
                        let folded = Expr::Mul(
                            Mul { left: Box::new(left), right: Box::new(right) },
                        );
                        if rest.len() < ts.len() {
                            spec_term_rest(folded, rest)
                        } else {
                            Ok((folded, rest))
                        }
                    },
                }
            },
            Ok(Token::Divide) => {
                match spec_factor(ts.skip(1)) {
                    Err(e) => Err(e),
                    Ok((right, rest)) => {
                        let folded = Expr::Div(
                            Div { left: Box::new(left), right: Box::new(right) },
                        );
                        if rest.len() < ts.len() {
                            spec_term_rest(folded, rest)
                        } else {
                            Ok((folded, rest))
                        }
                    },
                }
            },
            Ok(_) => Ok((left, ts)),
        }
    }
}

/// The mathematical `term` production.
pub open spec fn spec_term(ts: Items) -> Result<(Expr, Items), ErrorView>
    decreases ts.len(), 4int,
{
    match spec_factor(ts) {
        Err(e) => Err(e),
        Ok((left, rest)) => {
            if rest.len() <= ts.len() {
                spec_term_rest(left, rest)
            } else {
                Ok((left, rest))
            }
        },
    }
}

/// The iterated part of the `sum` production: zero or more `+`/`-` steps
/// folded left onto `left`.
pub open spec fn spec_sum_rest(left: Expr, ts: Items) -> Result<(Expr, Items), ErrorView>
    decreases ts.len(), 5int,
{
    if ts.len() == 0 {
        Ok((left, ts))
    } else {
        match ts[0] {
            Err(le) => Err(ErrorView::LexError(le)),
            Ok(Token::Plus) => {
                match spec_term(ts.skip(1)) {
                    Err(e) => Err(e),
                    Ok((right, rest)) => {
                        let folded = Expr::Add(
                            Add { left: Box::new(left), right: Box::new(right) },
                        );
                        if rest.len() < ts.len() {
                            spec_sum_rest(folded, rest)
                        } else {
                            Ok((folded, rest))
                        }
                    },
                }
            },
            Ok(Token::Minus) => {
                match spec_term(ts.skip(1)) {
                    Err(e) => Err(e),
                    Ok((right, rest)) => {
                        let folded = Expr::Sub(
                            Sub { left: Box::new(left), right: Box::new(right) },
                        );
                        if rest.len() < ts.len() {
                            spec_sum_rest(folded, rest)
                        } else {
                            Ok((folded, rest))
                        }
                    },
                }
            },
            Ok(_) => Ok((left, ts)),
        }
    }
}

/// The mathematical `sum` production, which is also the root production.
pub open spec fn spec_sum(ts: Items) -> Result<(Expr, Items), ErrorView>
    decreases ts.len(), 6int,
{
    match spec_term(ts) {
        Err(e) => Err(e),
        Ok((left, rest)) => {
            if rest.len() <= ts.len() {
                spec_sum_rest(left, rest)
            } else {
                Ok((left, rest))
            }
        },
    }
}

/// The mathematical value of parsing a whole input text: the root
/// production over the scanner's token sequence, with any leftover item an
/// error.
pub open spec fn spec_parse(s: Seq<char>) -> Result<Expr, ErrorView> {
    match spec_sum(lex_all(s)) {
        Err(e) => Err(e),
        Ok((root, rest)) => {
            if rest.len() == 0 {
                Ok(root)
            } else {
                match rest[0] {
                    Ok(tok) => Err(ErrorView::UnexpectedToken(tok)),
                    Err(le) => Err(ErrorView::LexError(le)),
                }
            }
        },
    }
}

/// Take a peeked lexical error out of the lookahead, wrapped as a parse
/// error.
fn take_lex_error(la: &mut Lookahead) -> (r: Error)
    requires
        old(la).wf(),
        old(la).items().len() > 0,
        old(la).items()[0] is Err,
    ensures
        final(la).wf(),
        r@ == ErrorView::LexError(old(la).items()[0]->Err_0),
{
    match la.next() {
        Some(Err(e)) => Error::LexError(e),
        _ => vstd::pervasive::unreached(),
    }
}

/// Executable form of [`keep_drop_kind`].
fn kd_kind(w: Word) -> (r: Option<Selection>)
    ensures
        r == keep_drop_kind(w),
{
    match w {
        Word::K => Some(Selection::KeepHighest),
        Word::Kh => Some(Selection::KeepHighest),
        Word::Kl => Some(Selection::KeepLowest),
        Word::D => Some(Selection::DropLowest),
        Word::Dh => Some(Selection::DropHighest),
        Word::Dl => Some(Selection::DropLowest),
        _ => None,
    }
}

/// Parse a dice expression into an abstract syntax tree: the whole input
/// must form one `root` production.
pub fn parse(input: &str) -> (r: Result<Expr, Error>)
    ensures
        match spec_parse(input@) {
            Ok(e) => r matches Ok(x) && x == e,
            Err(ev) => r matches Err(pe) && pe@ == ev,
        },
{
    let lexer = Lexer::new(input);
    let mut la = Lookahead::new(lexer);
    let root = match parse_root(&mut la) {
        Ok(b) => b,
        Err(e) => {
            return Err(e);
        },
    };
    match la.peek() {
        Some(Ok(t)) => Err(Error::UnexpectedToken(*t)),
        Some(Err(_)) => Err(take_lex_error(&mut la)),
        None => Ok(*root),
    }
}

/// Parse the `root` production.
fn parse_root(la: &mut Lookahead) -> (r: Result<Box<Expr>, Error>)
    requires
        old(la).wf(),
    ensures
        final(la).wf(),
        match spec_sum(old(la).items()) {
            Ok(p) => r matches Ok(e) && *e == p.0 && final(la).items() == p.1,
            Err(ev) => r matches Err(pe) && pe@ == ev,
        },
{
    parse_sum(la)
}

/// Parse the `sum` production.
#[verifier::loop_isolation(false)]
fn parse_sum(la: &mut Lookahead) -> (r: Result<Box<Expr>, Error>)
    requires
        old(la).wf(),
    ensures
        final(la).wf(),
        match spec_sum(old(la).items()) {
            Ok(p) => r matches Ok(e) && *e == p.0 && final(la).items() == p.1,
            Err(ev) => r matches Err(pe) && pe@ == ev,
        },
    decreases old(la).items().len(), 7int,
{
    let ghost ts0 = la.items();
    proof {
        lemma_spec_term_len(ts0);
    }
    let mut left = match parse_term(la) {
        Ok(e) => e,
        Err(e) => {
            return Err(e);
        },
    };

    let mut done = false;
    while !done
        invariant
            la.wf(),
            la.items().len() <= ts0.len(),
            !done ==> spec_sum(ts0) == spec_sum_rest(*left, la.items()),
            done ==> spec_sum(ts0) == Ok::<(Expr, Items), ErrorView>((*left, la.items())),
        decreases la.items().len() + (if done { 0int } else { 1int }),
    {
        match la.peek() {
            Some(Ok(Token::Plus)) => {
                la.next();
                proof {
                    lemma_spec_term_len(la.items());
                }
                let right = match parse_term(la) {
                    Ok(e) => e,
                    Err(e) => {
                        return Err(e);
                    },
                };
                left = Box::new(Expr::Add(Add { left, right }));
            },
            Some(Ok(Token::Minus)) => {
                la.next();
                proof {
                    lemma_spec_term_len(la.items());
                }
                let right = match parse_term(la) {
                    Ok(e) => e,
                    Err(e) => {
                        return Err(e);
                    },
                };
                left = Box::new(Expr::Sub(Sub { left, right }));
            },
            Some(Err(_)) => {
                return Err(take_lex_error(la));
            },
            _ => {
                done = true;
            },
        }
    }

    Ok(left)
}

/// Parse the `term` production.
#[verifier::loop_isolation(false)]
fn parse_term(la: &mut Lookahead) -> (r: Result<Box<Expr>, Error>)
    requires
        old(la).wf(),
    ensures
        final(la).wf(),
        match spec_term(old(la).items()) {
            Ok(p) => r matches Ok(e) && *e == p.0 && final(la).items() == p.1,
            Err(ev) => r matches Err(pe) && pe@ == ev,
        },
    decreases old(la).items().len(), 5int,
{
    let ghost ts0 = la.items();
    proof {
        lemma_spec_factor_len(ts0);
    }
    let mut left = match parse_factor(la) {
        Ok(e) => e,
        Err(e) => {
            return Err(e);
        },
    };

    let mut done = false;
    while !done
        invariant
            la.wf(),
            la.items().len() <= ts0.len(),
            !done ==> spec_term(ts0) == spec_term_rest(*left, la.items()),
            done ==> spec_term(ts0) == Ok::<(Expr, Items), ErrorView>((*left, la.items())),
        decreases la.items().len() + (if done { 0int } else { 1int }),
    {
        match la.peek() {
            Some(Ok(Token::Times)) => {
                la.next();
                proof {
                    lemma_spec_factor_len(la.items());
                }
                let right = match parse_factor(la) {
                    Ok(e) => e,
                    Err(e) => {
                        return Err(e);
                    },
                };
                left = Box::new(Expr::Mul(Mul { left, right }));
            },
            Some(Ok(Token::Divide)) => {
                la.next();
                proof {
                    lemma_spec_factor_len(la.items());
                }
                let right = match parse_factor(la) {
                    Ok(e) => e,
                    Err(e) => {
                        return Err(e);
                    },
                };
                left = Box::new(Expr::Div(Div { left, right }));
            },
            Some(Err(_)) => {
                return Err(take_lex_error(la));
            },
            _ => {
                done = true;
            },
        }
    }

    Ok(left)
}

/// Parse the `factor` production.
fn parse_factor(la: &mut Lookahead) -> (r: Result<Box<Expr>, Error>)
    requires
        old(la).wf(),
    ensures
        final(la).wf(),
        match spec_factor(old(la).items()) {
            Ok(p) => r matches Ok(e) && *e == p.0 && final(la).items() == p.1,
            Err(ev) => r matches Err(pe) && pe@ == ev,
        },
    decreases old(la).items().len(), 3int,
{
    match la.peek() {
        None => Err(Error::UnexpectedEnd(None)),
        Some(Err(_)) => Err(take_lex_error(la)),
        Some(Ok(Token::Open(oc))) => {
            let oc = *oc;
            la.next();
            let inner = match parse_sum(la) {
                Ok(e) => e,
                Err(e) => {
                    return Err(e);
                },
            };
            match la.peek() {
                None => Err(
                    Error::UnexpectedEnd(
                        Some(
                            if oc == '(' {
                                ')'
                            } else {
                                ']'
                            },
                        ),
                    ),
                ),
                Some(Err(_)) => Err(take_lex_error(la)),
                Some(Ok(Token::Close(cc))) => {
                    let cc = *cc;
                    la.next();
                    if (oc == '(' && cc == ')') || (oc == '[' && cc == ']') {
                        Ok(inner)
                    } else {
                        Err(Error::MismatchedParentheses(oc, cc))
                    }
                },
                Some(Ok(other)) => Err(Error::UnexpectedToken(*other)),
            }
        },
        Some(Ok(Token::Integer(n))) => {
            let n = *n;
            la.next();
            let starts_roll = match la.peek() {
                Some(Ok(Token::Word(Word::D))) => true,
                _ => false,
            };
            if starts_roll {
                parse_roll(la, n)
            } else {
                Ok(Box::new(Expr::Lit(Lit { value: n })))
            }
        },
        Some(Ok(Token::Word(Word::D))) => parse_roll(la, 1),
        Some(Ok(Token::Minus)) => {
            la.next();
            match parse_factor(la) {
                Ok(inner) => Ok(Box::new(Expr::Neg(Neg { right: inner }))),
                Err(e) => Err(e),
            }
        },
        Some(Ok(other)) => Err(Error::UnexpectedToken(*other)),
    }
}

/// Parse the dice and sides of a roll, `la` standing at the word `d`;
/// `count` is the leading integer, or 1 for a bare `d`.
fn parse_roll(la: &mut Lookahead, count: i32) -> (r: Result<Box<Expr>, Error>)
    requires
        old(la).wf(),
    ensures
        final(la).wf(),
        match spec_roll(old(la).items(), count) {
            Ok(p) => r matches Ok(e) && *e == p.0 && final(la).items() == p.1,
            Err(ev) => r matches Err(pe) && pe@ == ev,
        },
    decreases old(la).items().len(), 2int,
{
    match la.peek() {
        None => Err(Error::UnexpectedEnd(None)),
        Some(Err(_)) => Err(take_lex_error(la)),
        Some(Ok(Token::Word(Word::D))) => {
            la.next();
            let sides: i32 = match la.peek() {
                Some(Ok(Token::Integer(s))) => {
                    let s = *s;
                    if crate::is_valid_sides(s) {
                        la.next();
                        s
                    } else {
                        return Err(Error::InvalidDie(s));
                    }
                },
                Some(Ok(Token::Percent)) => {
                    la.next();
                    100
                },
                Some(Err(_)) => {
                    return Err(take_lex_error(la));
                },
                _ => 6,
            };
            let select = match parse_selection(la) {
                Ok(s) => s,
                Err(e) => {
                    return Err(e);
                },
            };
            Ok(
                Box::new(
                    Expr::Roll(
                        Roll {
                            count: Box::new(Expr::Lit(Lit { value: count })),
                            sides: Box::new(Expr::Lit(Lit { value: sides })),
                            select,
                        },
                    ),
                ),
            )
        },
        Some(Ok(other)) => Err(Error::UnexpectedToken(*other)),
    }
}

/// Parse a chain of selection operations, if any stands at the cursor.
fn parse_selection(la: &mut Lookahead) -> (r: Result<Option<Box<Expr>>, Error>)
    requires
        old(la).wf(),
    ensures
        final(la).wf(),
        match spec_selection(old(la).items()) {
            Ok(p) => r matches Ok(s) && opt_box_view(s) == p.0 && final(la).items() == p.1,
            Err(ev) => r matches Err(pe) && pe@ == ev,
        },
    decreases old(la).items().len(), 0int,
{
    let word = match la.peek() {
        None => {
            return Ok(None);
        },
        Some(Err(_)) => {
            return Err(take_lex_error(la));
        },
        Some(Ok(Token::Word(w))) => *w,
        Some(Ok(_)) => {
            return Ok(None);
        },
    };
    match kd_kind(word) {
        Some(kind) => {
            la.next();
            let count: Option<Box<Expr>> = match la.peek() {
                Some(Ok(Token::Integer(n))) => {
                    let n = *n;
                    la.next();
                    Some(Box::new(Expr::Lit(Lit { value: n })))
                },
                Some(Err(_)) => {
                    return Err(take_lex_error(la));
                },
                _ => None,
            };
            let next = match parse_selection(la) {
                Ok(s) => s,
                Err(e) => {
                    return Err(e);
                },
            };
            Ok(Some(Box::new(Expr::Select(Select { selection: kind, count, next }))))
        },
        None => {
            if word == Word::Adv || word == Word::Ad || word == Word::Dis || word == Word::Da {
                let kind = if word == Word::Adv || word == Word::Ad {
                    Selection::Advantage
                } else {
                    Selection::Disadvantage
                };
                la.next();
                let next = match parse_selection(la) {
                    Ok(s) => s,
                    Err(e) => {
                        return Err(e);
                    },
                };
                Ok(Some(Box::new(Expr::Select(Select { selection: kind, count: None, next }))))
            } else {
                Ok(None)
            }
        },
    }
}

/// The tree held by an optional boxed node.
pub open spec fn opt_box_view(s: Option<Box<Expr>>) -> Option<Expr> {
    match s {
        Some(b) => Some(*b),
        None => None,
    }
}

/// A successful `selection` production consumes no more than its input.
pub proof fn lemma_spec_selection_len(ts: Items)
    ensures
        match spec_selection(ts) {
            Ok(p) => p.1.len() <= ts.len(),
            Err(_) => true,
        },
    decreases ts.len(), 0int,
{
    if ts.len() > 0 {
        match ts[0] {
            Ok(Token::Word(w)) => {
                if keep_drop_kind(w) is Some {
                    let rest1 = ts.skip(1);
                    if !(rest1.len() > 0 && rest1[0] is Err) {
                        let counted = rest1.len() > 0 && rest1[0] matches Ok(Token::Integer(_));
                        let rest2 = if counted {
                            rest1.skip(1)
                        } else {
                            rest1
                        };
                        lemma_spec_selection_len(rest2);
                    }
                } else if w == Word::Adv || w == Word::Ad || w == Word::Dis || w == Word::Da {
                    lemma_spec_selection_len(ts.skip(1));
                }
            },
            _ => {},
        }
    }
}

/// A successful roll consumes at least the word `d`.
pub proof fn lemma_spec_roll_len(ts: Items, count: i32)
    ensures
        match spec_roll(ts, count) {
            Ok(p) => p.1.len() < ts.len(),
            Err(_) => true,
        },
    decreases ts.len(), 1int,
{
    if ts.len() > 0 {
        match ts[0] {
            Ok(Token::Word(Word::D)) => {
                let rest1 = ts.skip(1);
                if rest1.len() > 0 {
                    match rest1[0] {
                        Ok(Token::Integer(sides)) => {
                            lemma_spec_selection_len(rest1.skip(1));
                        },
                        Ok(Token::Percent) => {
                            lemma_spec_selection_len(rest1.skip(1));
                        },
                        _ => {
                            lemma_spec_selection_len(rest1);
                        },
                    }
                } else {
                    lemma_spec_selection_len(rest1);
                }
            },
            _ => {},
        }
    }
}

/// A successful factor consumes at least one token.
pub proof fn lemma_spec_factor_len(ts: Items)
    ensures
        match spec_factor(ts) {
            Ok(p) => p.1.len() < ts.len(),
            Err(_) => true,
        },
    decreases ts.len(), 2int,
{
    if ts.len() > 0 {
        match ts[0] {
            Ok(Token::Open(oc)) => {
                lemma_spec_sum_len(ts.skip(1));
            },
            Ok(Token::Integer(n)) => {
                if ts.len() >= 2 && ts[1] == Ok::<Token, lexer::ErrorView>(Token::Word(Word::D)) {
                    lemma_spec_roll_len(ts.skip(1), n);
                }
            },
            Ok(Token::Word(Word::D)) => {
                lemma_spec_roll_len(ts, 1);
            },
            Ok(Token::Minus) => {
                lemma_spec_factor_len(ts.skip(1));
            },
            _ => {},
        }
    }
}

/// The iterated part of a term consumes no more than its input.
pub proof fn lemma_spec_term_rest_len(left: Expr, ts: Items)
    ensures
        match spec_term_rest(left, ts) {
            Ok(p) => p.1.len() <= ts.len(),
            Err(_) => true,
        },
    decreases ts.len(), 3int,
{
    if ts.len() > 0 {
        match ts[0] {
            Ok(Token::Times) => {
                lemma_spec_factor_len(ts.skip(1));
                match spec_factor(ts.skip(1)) {
                    Ok((right, rest)) => {
                        let folded = Expr::Mul(
                            Mul { left: Box::new(left), right: Box::new(right) },
                        );
                        lemma_spec_term_rest_len(folded, rest);
                    },
                    Err(_) => {},
                }
            },
            Ok(Token::Divide) => {
                lemma_spec_factor_len(ts.skip(1));
                match spec_factor(ts.skip(1)) {
                    Ok((right, rest)) => {
                        let folded = Expr::Div(
                            Div { left: Box::new(left), right: Box::new(right) },
                        );
                        lemma_spec_term_rest_len(folded, rest);
                    },
                    Err(_) => {},
                }
            },
            _ => {},
        }
    }
}

/// A successful term consumes at least one token.
pub proof fn lemma_spec_term_len(ts: Items)
    ensures
        match spec_term(ts) {
            Ok(p) => p.1.len() < ts.len(),
            Err(_) => true,
        },
    decreases ts.len(), 4int,
{
    lemma_spec_factor_len(ts);
    match spec_factor(ts) {
        Ok((left, rest)) => {
            lemma_spec_term_rest_len(left, rest);
        },
        Err(_) => {},
    }
}

/// The iterated part of a sum consumes no more than its input.
pub proof fn lemma_spec_sum_rest_len(left: Expr, ts: Items)
    ensures
        match spec_sum_rest(left, ts) {
            Ok(p) => p.1.len() <= ts.len(),
            Err(_) => true,
        },
    decreases ts.len(), 5int,
{
    if ts.len() > 0 {
        match ts[0] {
            Ok(Token::Plus) => {
                lemma_spec_term_len(ts.skip(1));
                match spec_term(ts.skip(1)) {
                    Ok((right, rest)) => {
                        let folded = Expr::Add(
                            Add { left: Box::new(left), right: Box::new(right) },
                        );
                        lemma_spec_sum_rest_len(folded, rest);
                    },
                    Err(_) => {},
                }
            },
            Ok(Token::Minus) => {
                lemma_spec_term_len(ts.skip(1));
                match spec_term(ts.skip(1)) {
                    Ok((right, rest)) => {
                        let folded = Expr::Sub(
                            Sub { left: Box::new(left), right: Box::new(right) },
                        );
                        lemma_spec_sum_rest_len(folded, rest);
                    },
                    Err(_) => {},
                }
            },
            _ => {},
        }
    }
}

/// A successful sum consumes at least one token.
pub proof fn lemma_spec_sum_len(ts: Items)
    ensures
        match spec_sum(ts) {
            Ok(p) => p.1.len() < ts.len(),
            Err(_) => true,
        },
    decreases ts.len(), 6int,
{
    lemma_spec_term_len(ts);
    match spec_term(ts) {
        Ok((left, rest)) => {
            lemma_spec_sum_rest_len(left, rest);
        },
        Err(_) => {},
    }
}

} // verus!
