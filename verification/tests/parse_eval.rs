use dicelang::ast::{Expr, Select, Selection};
use dicelang::eval::{Error as EvalError, Evaluation, Evaluator};
use dicelang::lexer::Error as LexError;
use dicelang::parser::{parse, Error as ParseError};

fn eval_with(input: &str, strategy: Evaluation) -> Result<i32, EvalError> {
    let root = parse(input).expect("parse failed");
    let mut evaluator = Evaluator::new(strategy);
    evaluator.eval(&root)
}

fn eval_min(input: &str) -> i32 {
    eval_with(input, Evaluation::Min).expect("eval failed")
}

fn eval_mid(input: &str) -> i32 {
    eval_with(input, Evaluation::Mid).expect("eval failed")
}

fn eval_max(input: &str) -> i32 {
    eval_with(input, Evaluation::Max).expect("eval failed")
}

#[test]
fn literal_round_trips_to_its_value() {
    assert_eq!(eval_min("0"), 0);
    assert_eq!(eval_min("42"), 42);
    assert_eq!(eval_max("42"), 42);
    assert_eq!(eval_min("-7"), -7);
    assert_eq!(eval_min("2147483647"), 2147483647);
    assert_eq!(eval_min("-2147483647"), -2147483647);
}

#[test]
fn plain_rolls_under_each_strategy() {
    assert_eq!(eval_min("4d6"), 4);
    assert_eq!(eval_max("4d6"), 24);
    assert_eq!(eval_mid("4d6"), 12);
    assert_eq!(eval_min("3d100"), 3);
    assert_eq!(eval_max("3d100"), 300);
    assert_eq!(eval_mid("3d100"), 150);
    assert_eq!(eval_mid("1d10"), 5);
    assert_eq!(eval_mid("1d4"), 2);
    assert_eq!(eval_min("0d6"), 0);
    assert_eq!(eval_max("0d6"), 0);
}

#[test]
fn random_rolls_stay_in_range() {
    let root = parse("10d6").expect("parse failed");
    let mut evaluator = Evaluator::new(Evaluation::Rand(rand::thread_rng()));
    let total = evaluator.eval(&root).expect("eval failed");
    assert!((10..=60).contains(&total));
    assert_eq!(evaluator.rolls.len(), 10);
    for roll in &evaluator.rolls {
        assert_eq!(roll.sides, 6);
        assert!((1..=6).contains(&roll.result));
        assert!(roll.keep);
    }
}

#[test]
fn defaults_for_count_and_sides() {
    assert_eq!(eval_max("d6"), 6);
    assert_eq!(eval_max("2d"), 12);
    assert_eq!(eval_max("d"), 6);
    assert_eq!(eval_max("d%"), 100);
    assert_eq!(eval_max("2d%"), 200);
}

#[test]
fn keep_highest_keeps_exactly_that_many() {
    let root = parse("4d6kh3").expect("parse failed");
    let mut evaluator = Evaluator::new(Evaluation::Min);
    let total = evaluator.eval(&root).expect("eval failed");
    assert_eq!(total, 3);
    assert_eq!(evaluator.rolls.len(), 4);
    let kept = evaluator.rolls.iter().filter(|r| r.keep).count();
    assert_eq!(kept, 3);
}

#[test]
fn keep_and_drop_variants() {
    assert_eq!(eval_min("4d6k3"), 3);
    assert_eq!(eval_min("4d6kl2"), 2);
    assert_eq!(eval_min("5d10dl2"), 3);
    assert_eq!(eval_min("5d10dh2"), 3);
    assert_eq!(eval_min("5d10d2"), 3);
    assert_eq!(eval_max("4d6kh"), 6);
    assert_eq!(eval_min("6d8kh4kl2"), 2);
}

#[test]
fn selection_count_beyond_pool_fails() {
    let err = eval_with("3d6kh5", Evaluation::Min).unwrap_err();
    assert_eq!(err, EvalError::InvalidSelection { selection_size: 5, pool_size: 3 });
    let err = eval_with("1d6kh5", Evaluation::Max).unwrap_err();
    assert_eq!(err, EvalError::InvalidSelection { selection_size: 5, pool_size: 1 });
}

#[test]
fn advantage_tie_keeps_the_original_pool() {
    let root = parse("d20adv").expect("parse failed");
    let mut evaluator = Evaluator::new(Evaluation::Max);
    let total = evaluator.eval(&root).expect("eval failed");
    assert_eq!(total, 20);
    assert_eq!(evaluator.rolls.len(), 2);
    assert!(evaluator.rolls[0].keep);
    assert!(!evaluator.rolls[1].keep);

    let mut evaluator = Evaluator::new(Evaluation::Min);
    let total = evaluator.eval(&root).expect("eval failed");
    assert_eq!(total, 1);
    assert!(evaluator.rolls[0].keep);
    assert!(!evaluator.rolls[1].keep);
}

#[test]
fn disadvantage_tie_keeps_the_rerolled_pool() {
    let root = parse("d20dis").expect("parse failed");
    let mut evaluator = Evaluator::new(Evaluation::Max);
    let total = evaluator.eval(&root).expect("eval failed");
    assert_eq!(total, 20);
    assert_eq!(evaluator.rolls.len(), 2);
    assert!(!evaluator.rolls[0].keep);
    assert!(evaluator.rolls[1].keep);
}

#[test]
fn advantage_words_are_synonyms() {
    assert_eq!(eval_max("d20adv"), eval_max("d20ad"));
    assert_eq!(eval_max("d20dis"), eval_max("d20da"));
}

#[test]
fn arithmetic_and_precedence() {
    assert_eq!(eval_min("1+2*3"), 7);
    assert_eq!(eval_min("(1+2)*3"), 9);
    assert_eq!(eval_min("[1+2]*3"), 9);
    assert_eq!(eval_min("1-2+3"), 2);
    assert_eq!(eval_min("-(1+2)"), -3);
    assert_eq!(eval_min("--5"), 5);
    assert_eq!(eval_min("7/2"), 3);
    assert_eq!(eval_min("-7/2"), -3);
    assert_eq!(eval_min("4\u{d7}2"), 8);
    assert_eq!(eval_min("6\u{f7}2"), 3);
    assert_eq!(eval_min("1d4+1"), 2);
    assert_eq!(eval_max("(1d4+1)*3"), 15);
}

#[test]
fn division_by_zero_fails() {
    let err = eval_with("5/0", Evaluation::Min).unwrap_err();
    assert_eq!(err, EvalError::DivideByZero);
}

#[test]
fn mismatched_brackets_fail() {
    let err = parse("(1+2]").unwrap_err();
    assert_eq!(err, ParseError::MismatchedParentheses('(', ']'));
    let err = parse("[1+2)").unwrap_err();
    assert_eq!(err, ParseError::MismatchedParentheses('[', ')'));
}

#[test]
fn invalid_word_fails_lexically() {
    let err = parse("1d6xyz").unwrap_err();
    assert_eq!(err, ParseError::LexError(LexError::InvalidWord(String::from("xyz"))));
}

#[test]
fn invalid_die_fails() {
    let err = parse("1d7").unwrap_err();
    assert_eq!(err, ParseError::InvalidDie(7));
    let err = parse("1d0").unwrap_err();
    assert_eq!(err, ParseError::InvalidDie(0));
    assert!(parse("1d12").is_ok());
}

#[test]
fn invalid_character_fails_lexically() {
    let err = parse("1 @ 2").unwrap_err();
    assert_eq!(err, ParseError::LexError(LexError::InvalidCharacter('@')));
}

#[test]
fn integer_overflow_fails_lexically() {
    let err = parse("2147483648").unwrap_err();
    assert_eq!(err, ParseError::LexError(LexError::IntegerOverflow));
    let err = parse("99999999999999999999").unwrap_err();
    assert_eq!(err, ParseError::LexError(LexError::IntegerOverflow));
    assert!(parse("2147483647").is_ok());
}

#[test]
fn unexpected_end_and_leftovers_fail() {
    let err = parse("2+").unwrap_err();
    assert_eq!(err, ParseError::UnexpectedEnd(None));
    let err = parse("(1+2").unwrap_err();
    assert_eq!(err, ParseError::UnexpectedEnd(Some(')')));
    assert!(matches!(parse(")"), Err(ParseError::UnexpectedToken(_))));
    assert!(matches!(parse("1 2"), Err(ParseError::UnexpectedToken(_))));
}

#[test]
fn two_rolls_add_independently() {
    assert_eq!(eval_min("1d6+1d6"), 2);
    assert_eq!(eval_max("1d6+1d6"), 12);
    assert_eq!(eval_max("2d6 - 1d4"), 8);
}

#[test]
fn evaluator_clears_history_between_calls() {
    let root = parse("2d6").expect("parse failed");
    let mut evaluator = Evaluator::new(Evaluation::Max);
    evaluator.eval(&root).expect("eval failed");
    evaluator.eval(&root).expect("eval failed");
    assert_eq!(evaluator.rolls.len(), 2);
}

#[test]
fn whitespace_only_separates() {
    assert_eq!(eval_min("  1 + 2  "), 3);
    assert_eq!(eval_min("4 d 6"), 4);
}

#[test]
fn structural_equality_of_trees() {
    let a: Expr = parse("4d6kh3+2").unwrap();
    let b: Expr = parse("4 d 6 kh 3 + 2").unwrap();
    let c: Expr = parse("4d6kh3+3").unwrap();
    assert!(a.same_as(&b));
    assert!(!a.same_as(&c));
}

#[test]
fn bare_selection_underflows_the_pool_stack() {
    // A selection node with no enclosing roll has no active pool; this
    // cannot come out of the parser, so build the tree by hand.
    let orphan = Expr::Select(Select { selection: Selection::KeepHighest, count: None, next: None });
    let mut evaluator = Evaluator::new(Evaluation::Min);
    assert_eq!(evaluator.eval(&orphan), Err(EvalError::StackUnderflow));
}
