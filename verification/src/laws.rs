//! The laws of the library: what holds of parsing and evaluating whole
//! classes of expressions, stated over the mathematical parser and dice
//! machine and proved once and for all.

use vstd::prelude::*;

use crate::ast::{Div, Expr, Lit, Roll, Select, Selection};
use crate::eval::{
    det_die, eval_spec, insert_one, mark_dropped, mark_selection, reroll_dice, roll_dice,
    selection_size, sort_by, sort_range, sum_kept, sum_results, wadd, DieRoll, Error, EvalState,
    Mode, Outcome, visit_keep_drop, visit_reroll, visit_roll_dice, visit_spec,
};
use crate::lexer::{
    alpha_char, digit_char, digit_run_end, digit_val, digits_val, lex_all, next_token, skip_ws,
    space_char, symbol_token, toks, Token,
};
use crate::parser::{spec_factor, spec_parse, spec_sum, spec_sum_rest, spec_term, spec_term_rest};
use crate::pp::pp_root;
use crate::text::{dec_digits, dec_str_i32, digit_char_of};

verus! {

/// The tree of `c d s` with no selection: a roll of `c` dice of `s` sides.
pub open spec fn simple_roll(count: i32, sides: i32) -> Expr {
    Expr::Roll(
        Roll {
            count: Box::new(Expr::Lit(Lit { value: count })),
            sides: Box::new(Expr::Lit(Lit { value: sides })),
            select: None,
        },
    )
}

/// The tree of `n d s kh k`: a roll of `n` dice keeping the `k` highest.
pub open spec fn keep_highest_roll(count: i32, sides: i32, k: i32) -> Expr {
    Expr::Roll(
        Roll {
            count: Box::new(Expr::Lit(Lit { value: count })),
            sides: Box::new(Expr::Lit(Lit { value: sides })),
            select: Some(
                Box::new(
                    Expr::Select(
                        Select {
                            selection: Selection::KeepHighest,
                            count: Some(Box::new(Expr::Lit(Lit { value: k }))),
                            next: None,
                        },
                    ),
                ),
            ),
        },
    )
}

/// Under a deterministic strategy, rolling dice appends exactly the same
/// record once per die.
proof fn lemma_roll_dice_det(mode: Mode, sides: i32, k: nat, dice: Seq<DieRoll>, draws: Seq<i32>)
    requires
        mode != Mode::Random,
    ensures
        roll_dice(mode, sides, k, dice, draws) == Some(
            (dice + Seq::new(k, |i: int| DieRoll { sides, result: det_die(mode, sides), keep: true }), draws),
        ),
    decreases k,
{
    let die = DieRoll { sides, result: det_die(mode, sides), keep: true };
    if k == 0 {
        assert(dice + Seq::new(0, |i: int| die) =~= dice);
    } else {
        lemma_roll_dice_det(mode, sides, (k - 1) as nat, dice, draws);
        assert((dice + Seq::new((k - 1) as nat, |i: int| die)).push(die) =~= dice + Seq::new(
            k,
            |i: int| die,
        ));
    }
}

/// A pool already ordered by result is its own sorted form.
proof fn lemma_insert_one_sorted_last(s: Seq<DieRoll>, x: DieRoll, asc: bool)
    requires
        s.len() > 0 ==> crate::eval::ordered(s.last(), x, asc),
    ensures
        insert_one(s, x, asc) == s.push(x),
{
    if s.len() == 0 {
        assert(insert_one(s, x, asc) =~= s.push(x));
    }
}

/// Whether a pool is ordered by result.
pub open spec fn sorted_pool(s: Seq<DieRoll>, asc: bool) -> bool {
    forall|i: int, j: int| 0 <= i < j < s.len() ==> crate::eval::ordered(#[trigger] s[i], #[trigger] s[j], asc)
}

/// Sorting a pool that is already ordered leaves it unchanged.
proof fn lemma_sort_by_of_sorted(s: Seq<DieRoll>, asc: bool)
    requires
        sorted_pool(s, asc),
    ensures
        sort_by(s, asc) == s,
    decreases s.len(),
{
    if s.len() > 0 {
        let shorter = s.drop_last();
        assert(sorted_pool(shorter, asc));
        lemma_sort_by_of_sorted(shorter, asc);
        if shorter.len() > 0 {
            assert(crate::eval::ordered(shorter.last(), s.last(), asc));
        }
        lemma_insert_one_sorted_last(shorter, s.last(), asc);
        assert(shorter.push(s.last()) =~= s);
    }
}

/// The wrapped sum of identical kept dice is the exact product.
proof fn lemma_sum_kept_const(s: Seq<DieRoll>, v: i32, to: int)
    requires
        0 <= to <= s.len(),
        0 <= v,
        forall|i: int| 0 <= i < s.len() ==> #[trigger] s[i].result == v && s[i].keep,
        to * v <= i32::MAX,
    ensures
        sum_kept(s, 0, to) == to * v,
    decreases to,
{
    if to > 0 {
        assert((to - 1) * v == to * v - v) by (nonlinear_arith);
        assert((to - 1) * v >= 0) by (nonlinear_arith)
            requires
                to >= 1 && v >= 0,
        ;
        lemma_sum_kept_const(s, v, to - 1);
        assert(s[to - 1].result == v && s[to - 1].keep);
        assert(sum_kept(s, 0, to) == wadd(sum_kept(s, 0, to - 1), v));
    } else {
        assert(to * v == 0) by (nonlinear_arith)
            requires
                to == 0,
        ;
    }
}

/// Evaluating `c d s` under a deterministic strategy: under Min every die
/// shows 1 and the total is `c`; under Mid every die shows `s / 2` and the
/// total is `c * (s / 2)`; under Max every die shows `s` and the total is
/// `c * s`. Exactly `c` dice are rolled, all kept. The product must fit in
/// the 32-bit result; a count so large that `c * s` overflows wraps
/// instead and is left out here.
pub proof fn law_roll_deterministic(count: i32, sides: i32, mode: Mode)
    requires
        0 <= count,
        crate::valid_sides(sides),
        mode != Mode::Random,
        count * (det_die(mode, sides) as int) <= i32::MAX,
    ensures
        ({
            let die = det_die(mode, sides);
            match eval_spec(simple_roll(count, sides), mode, Seq::empty()) {
                Some(p) => p.0 == Ok::<i32, Error>(((count * die) as i32)) && p.1.len() == count
                    && (forall|i: int|
                    0 <= i < count ==> #[trigger] p.1[i] == DieRoll {
                        sides,
                        result: die,
                        keep: true,
                    }),
                None => false,
            }
        }),
{
    let die_v = det_die(mode, sides);
    let die = DieRoll { sides, result: die_v, keep: true };
    let e = simple_roll(count, sides);
    let start = EvalState {
        rolls: Seq::empty(),
        results: Seq::empty(),
        pools: Seq::empty(),
        draws: Seq::empty(),
    };
    let st1 = EvalState { results: start.results.push(count), ..start };
    let st2 = EvalState { results: st1.results.drop_last(), ..st1 };
    let st3 = EvalState { results: st2.results.push(sides), ..st2 };
    let st4 = EvalState { results: st3.results.drop_last(), ..st3 };
    assert(st4.results =~= Seq::<i32>::empty());
    assert(st4.rolls =~= Seq::<DieRoll>::empty());
    lemma_roll_dice_det(mode, sides, count as nat, st4.rolls, st4.draws);
    let dice = Seq::new(count as nat, |i: int| die);
    assert(st4.rolls + dice =~= dice);
    let ro = Roll {
        count: Box::new(Expr::Lit(Lit { value: count })),
        sides: Box::new(Expr::Lit(Lit { value: sides })),
        select: None,
    };
    assert(visit_spec(Expr::Lit(Lit { value: count }), mode, start) == Outcome::Done(st1));
    assert(visit_spec(Expr::Lit(Lit { value: sides }), mode, st2) == Outcome::Done(st3));
    assert(e == Expr::Roll(ro));
    assert(visit_spec(e, mode, start) == visit_roll_dice(ro, mode, st4, count, sides));
    assert(1 <= die_v <= sides);
    assert(sorted_pool(dice, false));
    lemma_sort_by_of_sorted(dice.subrange(0, count as int), false);
    assert(dice.subrange(0, count as int) =~= dice);
    let sorted = sort_range(dice, 0, count as int, false);
    assert(sorted =~= dice);
    lemma_sum_kept_const(dice, die_v, count as int);
    let total = sum_kept(dice, 0, count as int);
    assert(total == count * die_v);
    assert(st4.results.push(total).len() == 1);
}

/// Rolling dice appends records that all carry the requested sides, are
/// kept, and show a value on the die.
proof fn lemma_roll_dice_fields(mode: Mode, sides: i32, k: nat, dice: Seq<DieRoll>, draws: Seq<i32>)
    requires
        crate::valid_sides(sides),
    ensures
        match roll_dice(mode, sides, k, dice, draws) {
            Some(p) => p.0.len() == dice.len() + k && p.0.subrange(0, dice.len() as int) == dice
                && (forall|i: int|
                dice.len() <= i < p.0.len() ==> (#[trigger] p.0[i]).sides == sides && p.0[i].keep
                    && 1 <= p.0[i].result <= sides),
            None => true,
        },
    decreases k,
{
    if k > 0 {
        lemma_roll_dice_fields(mode, sides, (k - 1) as nat, dice, draws);
        match roll_dice(mode, sides, (k - 1) as nat, dice, draws) {
            Some(p1) => {
                match roll_dice(mode, sides, k, dice, draws) {
                    Some(p) => {
                        assert(p.0.subrange(0, dice.len() as int) =~= dice);
                        if mode != Mode::Random {
                            assert(crate::valid_sides(sides) ==> 1 <= det_die(mode, sides)
                                <= sides);
                        }
                    },
                    None => {},
                }
            },
            None => {},
        }
    } else {
        assert(dice.subrange(0, dice.len() as int) =~= dice);
    }
}

/// Inserting a die that satisfies a property into a pool of such dice
/// yields a pool of such dice.
proof fn lemma_insert_one_all(s: Seq<DieRoll>, x: DieRoll, asc: bool, p: spec_fn(DieRoll) -> bool)
    requires
        forall|i: int| 0 <= i < s.len() ==> p(#[trigger] s[i]),
        p(x),
    ensures
        insert_one(s, x, asc).len() == s.len() + 1,
        forall|i: int| 0 <= i < s.len() + 1 ==> p(#[trigger] insert_one(s, x, asc)[i]),
    decreases s.len(),
{
    if s.len() == 0 {
    } else if crate::eval::ordered(s.last(), x, asc) {
    } else {
        assert(forall|i: int| 0 <= i < s.drop_last().len() ==> p(#[trigger] s.drop_last()[i]));
        lemma_insert_one_all(s.drop_last(), x, asc, p);
    }
}

/// Sorting a pool of dice that satisfy a property yields a pool of such
/// dice, of the same size.
proof fn lemma_sort_by_all(s: Seq<DieRoll>, asc: bool, p: spec_fn(DieRoll) -> bool)
    requires
        forall|i: int| 0 <= i < s.len() ==> p(#[trigger] s[i]),
    ensures
        sort_by(s, asc).len() == s.len(),
        forall|i: int| 0 <= i < s.len() ==> p(#[trigger] sort_by(s, asc)[i]),
    decreases s.len(),
{
    if s.len() > 0 {
        assert(forall|i: int| 0 <= i < s.drop_last().len() ==> p(#[trigger] s.drop_last()[i]));
        lemma_sort_by_all(s.drop_last(), asc, p);
        lemma_insert_one_all(sort_by(s.drop_last(), asc), s.last(), asc, p);
    }
}

/// The wrapped sum of kept dice whose results lie between two bounds lies
/// between the same bounds taken that many times.
proof fn lemma_sum_kept_bounds(s: Seq<DieRoll>, to: int, lo: i32, hi: i32)
    requires
        0 <= to <= s.len(),
        0 <= lo <= hi,
        forall|i: int| 0 <= i < s.len() ==> (#[trigger] s[i]).keep && lo <= s[i].result <= hi,
        to * (hi as int) <= i32::MAX,
    ensures
        to * (lo as int) <= sum_kept(s, 0, to) <= to * (hi as int),
    decreases to,
{
    if to > 0 {
        assert((to - 1) * (lo as int) == to * (lo as int) - lo && (to - 1) * (hi as int) == to
            * (hi as int) - hi && 0 <= (to - 1) * (lo as int) && (to - 1) * (hi as int) <= to * (
        hi as int)) by (nonlinear_arith)
            requires
                to >= 1 && 0 <= lo <= hi,
        ;
        lemma_sum_kept_bounds(s, to - 1, lo, hi);
        assert(s[to - 1].keep && lo <= s[to - 1].result <= hi);
        assert(sum_kept(s, 0, to) == wadd(sum_kept(s, 0, to - 1), s[to - 1].result));
    } else {
        assert(to * (lo as int) == 0 && to * (hi as int) == 0) by (nonlinear_arith)
            requires
                to == 0,
        ;
    }
}

/// Evaluating `c d s` under the random strategy, whatever values the dice
/// show, never fails and totals between `c` (every die a 1) and `c * s`
/// (every die its highest); exactly `c` dice are rolled, all kept, each
/// showing a value on the die.
pub proof fn law_roll_random(count: i32, sides: i32, draws: Seq<i32>)
    requires
        0 <= count,
        crate::valid_sides(sides),
        count * (sides as int) <= i32::MAX,
    ensures
        match eval_spec(simple_roll(count, sides), Mode::Random, draws) {
            Some(p) => (match p.0 {
                Ok(v) => count <= v <= count * (sides as int),
                Err(_) => false,
            }) && p.1.len() == count && (forall|i: int|
                0 <= i < count ==> (#[trigger] p.1[i]).sides == sides && p.1[i].keep && 1
                    <= p.1[i].result <= sides),
            None => true,
        },
{
    let mode = Mode::Random;
    let e = simple_roll(count, sides);
    let start = EvalState {
        rolls: Seq::empty(),
        results: Seq::empty(),
        pools: Seq::empty(),
        draws,
    };
    let st1 = EvalState { results: start.results.push(count), ..start };
    let st2 = EvalState { results: st1.results.drop_last(), ..st1 };
    let st3 = EvalState { results: st2.results.push(sides), ..st2 };
    let st4 = EvalState { results: st3.results.drop_last(), ..st3 };
    assert(st4.results =~= Seq::<i32>::empty());
    assert(st4.rolls =~= Seq::<DieRoll>::empty());
    let ro = Roll {
        count: Box::new(Expr::Lit(Lit { value: count })),
        sides: Box::new(Expr::Lit(Lit { value: sides })),
        select: None,
    };
    assert(visit_spec(Expr::Lit(Lit { value: count }), mode, start) == Outcome::Done(st1));
    assert(visit_spec(Expr::Lit(Lit { value: sides }), mode, st2) == Outcome::Done(st3));
    assert(e == Expr::Roll(ro));
    assert(visit_spec(e, mode, start) == visit_roll_dice(ro, mode, st4, count, sides));
    lemma_roll_dice_fields(mode, sides, count as nat, st4.rolls, st4.draws);
    match roll_dice(mode, sides, count as nat, st4.rolls, st4.draws) {
        None => {},
        Some(rolled) => {
            let dice = rolled.0;
            let on_die = |d: DieRoll| d.sides == sides && d.keep && 1 <= d.result <= sides;
            assert(forall|i: int| 0 <= i < dice.len() ==> on_die(#[trigger] dice[i]));
            lemma_sort_by_all(dice.subrange(0, count as int), false, on_die);
            assert(dice.subrange(0, count as int) =~= dice);
            let sorted = sort_range(dice, 0, count as int, false);
            assert(sorted.len() == count);
            assert(forall|i: int| 0 <= i < count ==> on_die(#[trigger] sorted[i]));
            assert(forall|i: int|
                0 <= i < sorted.len() ==> (#[trigger] sorted[i]).keep && 1 <= sorted[i].result
                    <= sides);
            lemma_sum_kept_bounds(sorted, count as int, 1, sides);
            let total = sum_kept(sorted, 0, count as int);
            assert(count * 1int == count) by (nonlinear_arith);
            assert(st4.results.push(total).len() == 1);
        },
    }
}

/// Inserting into an ordered pool yields an ordered pool.
proof fn lemma_insert_one_sorted(s: Seq<DieRoll>, x: DieRoll, asc: bool)
    requires
        sorted_pool(s, asc),
    ensures
        insert_one(s, x, asc).len() == s.len() + 1,
        sorted_pool(insert_one(s, x, asc), asc),
    decreases s.len(),
{
    if s.len() == 0 {
    } else if crate::eval::ordered(s.last(), x, asc) {
        let t = s.push(x);
        assert forall|i: int, j: int|
            0 <= i < j < t.len() implies crate::eval::ordered(#[trigger] t[i], #[trigger] t[j], asc) by {
            if j == t.len() - 1 {
                if i < s.len() - 1 {
                    assert(crate::eval::ordered(s[i], s.last(), asc));
                }
            }
        }
    } else {
        let shorter = s.drop_last();
        assert(sorted_pool(shorter, asc));
        lemma_insert_one_sorted(shorter, x, asc);
        let fits = |d: DieRoll| crate::eval::ordered(d, s.last(), asc);
        assert(forall|i: int| 0 <= i < shorter.len() ==> fits(#[trigger] shorter[i]));
        assert(fits(x));
        lemma_insert_one_all(shorter, x, asc, fits);
        let t = insert_one(shorter, x, asc);
        let whole = t.push(s.last());
        assert forall|i: int, j: int|
            0 <= i < j < whole.len() implies crate::eval::ordered(
            #[trigger] whole[i],
            #[trigger] whole[j],
            asc,
        ) by {
            if j == whole.len() - 1 {
                assert(fits(t[i]));
            }
        }
    }
}

/// Sorting orders a pool by result.
proof fn lemma_sort_by_sorts(s: Seq<DieRoll>, asc: bool)
    ensures
        sort_by(s, asc).len() == s.len(),
        sorted_pool(sort_by(s, asc), asc),
    decreases s.len(),
{
    if s.len() > 0 {
        lemma_sort_by_sorts(s.drop_last(), asc);
        lemma_insert_one_sorted(sort_by(s.drop_last(), asc), s.last(), asc);
    }
}

/// Evaluating `n d s kh k` with `k` no larger than `n`, under any strategy
/// and whatever values the dice show: the evaluation never fails, exactly
/// `n` dice are rolled, exactly the first `k` of the pool are kept, every
/// kept die shows at least as much as every dropped die, and the total is
/// the sum of the kept dice alone — the dropped dice's values are excluded.
pub proof fn law_keep_highest(count: i32, sides: i32, k: i32, mode: Mode, draws: Seq<i32>)
    requires
        0 <= k <= count,
        crate::valid_sides(sides),
    ensures
        match eval_spec(keep_highest_roll(count, sides, k), mode, draws) {
            Some(p) => (p.0 matches Ok(v) && v == sum_kept(p.1, 0, count as int)) && p.1.len()
                == count && (forall|i: int| 0 <= i < k ==> (#[trigger] p.1[i]).keep) && (forall|
                i: int,
            |
                k <= i < count ==> !(#[trigger] p.1[i]).keep) && (forall|i: int, j: int|
                0 <= i < k <= j < count ==> (#[trigger] p.1[i]).result >= (
                #[trigger] p.1[j]).result),
            None => mode == Mode::Random,
        },
{
    let e = keep_highest_roll(count, sides, k);
    let start = EvalState {
        rolls: Seq::empty(),
        results: Seq::empty(),
        pools: Seq::empty(),
        draws,
    };
    let st1 = EvalState { results: start.results.push(count), ..start };
    let st2 = EvalState { results: st1.results.drop_last(), ..st1 };
    let st3 = EvalState { results: st2.results.push(sides), ..st2 };
    let st4 = EvalState { results: st3.results.drop_last(), ..st3 };
    assert(st4.results =~= Seq::<i32>::empty());
    assert(st4.rolls =~= Seq::<DieRoll>::empty());
    let sel = Select {
        selection: Selection::KeepHighest,
        count: Some(Box::new(Expr::Lit(Lit { value: k }))),
        next: None,
    };
    let ro = Roll {
        count: Box::new(Expr::Lit(Lit { value: count })),
        sides: Box::new(Expr::Lit(Lit { value: sides })),
        select: Some(Box::new(Expr::Select(sel))),
    };
    assert(visit_spec(Expr::Lit(Lit { value: count }), mode, start) == Outcome::Done(st1));
    assert(visit_spec(Expr::Lit(Lit { value: sides }), mode, st2) == Outcome::Done(st3));
    assert(e == Expr::Roll(ro));
    assert(visit_spec(e, mode, start) == visit_roll_dice(ro, mode, st4, count, sides));
    lemma_roll_dice_fields(mode, sides, count as nat, st4.rolls, st4.draws);
    match roll_dice(mode, sides, count as nat, st4.rolls, st4.draws) {
        None => {
            if mode != Mode::Random {
                lemma_roll_dice_det(mode, sides, count as nat, st4.rolls, st4.draws);
            }
        },
        Some(rolled) => {
            let dice = rolled.0;
            let rem = rolled.1;
            let on_die = |d: DieRoll| d.sides == sides && d.keep && 1 <= d.result <= sides;
            assert(forall|i: int| 0 <= i < dice.len() ==> on_die(#[trigger] dice[i]));
            let pushed = EvalState {
                rolls: dice,
                results: st4.results,
                pools: st4.pools.push((0int, count as int)),
                draws: rem,
            };
            assert(pushed.pools.last() == (0int, count as int));
            assert(pushed.pools.len() == 1);
            // The selection: evaluate the count, sort, and mark.
            let stk = EvalState { results: pushed.results.push(k), ..pushed };
            assert(visit_spec(Expr::Lit(Lit { value: k }), mode, pushed) == Outcome::Done(stk));
            let stk2 = EvalState { results: stk.results.drop_last(), ..stk };
            assert(stk2.results =~= pushed.results);
            vstd::arithmetic::div_mod::lemma_small_mod(k as nat, (usize::MAX as nat) + 1);
            assert(selection_size(k) == k);
            lemma_sort_by_sorts(dice.subrange(0, count as int), false);
            lemma_sort_by_all(dice.subrange(0, count as int), false, on_die);
            assert(dice.subrange(0, count as int) =~= dice);
            let sorted = sort_range(dice, 0, count as int, false);
            assert(sorted =~= sort_by(dice, false));
            assert(sorted.len() == count);
            assert(sorted_pool(sorted, false));
            let marked = mark_selection(sorted, 0, k as int, count as int, true);
            assert(visit_keep_drop(sel, mode, stk2, (0int, count as int)) == Outcome::Done(
                EvalState { rolls: marked, ..stk2 },
            ));
            assert(visit_spec(Expr::Select(sel), mode, pushed) == Outcome::Done(
                EvalState { rolls: marked, ..stk2 },
            ));
            // The roll then re-sorts its pool, which is already ordered.
            assert(forall|i: int|
                0 <= i < marked.len() ==> (#[trigger] marked[i]).result == sorted[i].result);
            assert(sorted_pool(marked, false));
            lemma_sort_by_of_sorted(marked.subrange(0, count as int), false);
            assert(marked.subrange(0, count as int) =~= marked);
            assert(sort_range(marked, 0, count as int, false) =~= marked);
            let total = sum_kept(marked, 0, count as int);
            assert(st4.results.push(total).len() == 1);
            assert(forall|i: int| 0 <= i < k ==> (#[trigger] marked[i]).keep);
            assert(forall|i: int| k <= i < count ==> !(#[trigger] marked[i]).keep);
            assert forall|i: int, j: int|
                0 <= i < k <= j < count implies (#[trigger] marked[i]).result >= (
            #[trigger] marked[j]).result by {
                assert(crate::eval::ordered(sorted[i], sorted[j], false));
            }
        },
    }
}

/// Evaluating `n d s kh k` with `k` larger than `n` fails with the
/// invalid-selection error carrying both sizes, under any strategy and
/// whatever values the dice show; no partial selection is applied.
pub proof fn law_selection_too_large(count: i32, sides: i32, k: i32, mode: Mode, draws: Seq<i32>)
    requires
        0 <= count < k,
        crate::valid_sides(sides),
    ensures
        match eval_spec(keep_highest_roll(count, sides, k), mode, draws) {
            Some(p) => p.0 == Err::<i32, Error>(
                Error::InvalidSelection {
                    selection_size: k as usize,
                    pool_size: count as usize,
                },
            ),
            None => mode == Mode::Random,
        },
{
    let e = keep_highest_roll(count, sides, k);
    let start = EvalState {
        rolls: Seq::empty(),
        results: Seq::empty(),
        pools: Seq::empty(),
        draws,
    };
    let st1 = EvalState { results: start.results.push(count), ..start };
    let st2 = EvalState { results: st1.results.drop_last(), ..st1 };
    let st3 = EvalState { results: st2.results.push(sides), ..st2 };
    let st4 = EvalState { results: st3.results.drop_last(), ..st3 };
    assert(st4.results =~= Seq::<i32>::empty());
    assert(st4.rolls =~= Seq::<DieRoll>::empty());
    let sel = Select {
        selection: Selection::KeepHighest,
        count: Some(Box::new(Expr::Lit(Lit { value: k }))),
        next: None,
    };
    let ro = Roll {
        count: Box::new(Expr::Lit(Lit { value: count })),
        sides: Box::new(Expr::Lit(Lit { value: sides })),
        select: Some(Box::new(Expr::Select(sel))),
    };
    assert(visit_spec(Expr::Lit(Lit { value: count }), mode, start) == Outcome::Done(st1));
    assert(visit_spec(Expr::Lit(Lit { value: sides }), mode, st2) == Outcome::Done(st3));
    assert(e == Expr::Roll(ro));
    assert(visit_spec(e, mode, start) == visit_roll_dice(ro, mode, st4, count, sides));
    lemma_roll_dice_fields(mode, sides, count as nat, st4.rolls, st4.draws);
    match roll_dice(mode, sides, count as nat, st4.rolls, st4.draws) {
        None => {
            if mode != Mode::Random {
                lemma_roll_dice_det(mode, sides, count as nat, st4.rolls, st4.draws);
            }
        },
        Some(rolled) => {
            let dice = rolled.0;
            let rem = rolled.1;
            let pushed = EvalState {
                rolls: dice,
                results: st4.results,
                pools: st4.pools.push((0int, count as int)),
                draws: rem,
            };
            assert(pushed.pools.last() == (0int, count as int));
            assert(pushed.pools.len() == 1);
            let stk = EvalState { results: pushed.results.push(k), ..pushed };
            assert(visit_spec(Expr::Lit(Lit { value: k }), mode, pushed) == Outcome::Done(stk));
            let stk2 = EvalState { results: stk.results.drop_last(), ..stk };
            assert(stk2.results =~= pushed.results);
            assert(stk2 == pushed);
            vstd::arithmetic::div_mod::lemma_small_mod(k as nat, (usize::MAX as nat) + 1);
            assert(selection_size(k) == k);
            let halted = Error::InvalidSelection {
                selection_size: k as usize,
                pool_size: count as usize,
            };
            assert(visit_keep_drop(sel, mode, stk2, (0int, count as int)) == Outcome::Halt(
                halted,
                stk2,
            ));
            assert(visit_spec(Expr::Select(sel), mode, pushed) == Outcome::Halt(halted, stk2));
        },
    }
}

/// The decimal digits of a nonnegative number are digit characters and
/// read back as the number.
proof fn lemma_dec_digits_props(n: int)
    requires
        0 <= n,
    ensures
        dec_digits(n).len() >= 1,
        forall|i: int| 0 <= i < dec_digits(n).len() ==> digit_char(#[trigger] dec_digits(n)[i]),
        digits_val(dec_digits(n)) == n,
    decreases n,
{
    if n < 10 {
        assert(digit_char(digit_char_of(n)) && digit_val(digit_char_of(n)) == n);
        assert(digits_val(dec_digits(n)) == digits_val(dec_digits(n).drop_last()) * 10
            + digit_val(dec_digits(n).last()));
        assert(dec_digits(n).drop_last() =~= Seq::<char>::empty());
    } else {
        lemma_dec_digits_props(n / 10);
        let d = n % 10;
        assert(0 <= d < 10);
        assert(digit_char(digit_char_of(d)) && digit_val(digit_char_of(d)) == d);
        let whole = dec_digits(n / 10).push(digit_char_of(d));
        assert(whole.drop_last() =~= dec_digits(n / 10));
        vstd::arithmetic::div_mod::lemma_fundamental_div_mod(n, 10);
    }
}

/// A run of digits reaches to the end of the text.
proof fn lemma_digit_run_full(s: Seq<char>, i: int)
    requires
        0 <= i <= s.len(),
        forall|m: int| i <= m < s.len() ==> digit_char(#[trigger] s[m]),
    ensures
        digit_run_end(s, i) == s.len(),
    decreases s.len() - i,
{
    if i < s.len() {
        lemma_digit_run_full(s, i + 1);
    }
}

/// A digit character is neither whitespace nor alphabetic, and the minus
/// sign is neither whitespace, a digit, nor alphabetic.
proof fn lemma_literal_char_classes()
    ensures
        forall|c: char| digit_char(c) ==> !space_char(c) && !alpha_char(c),
        !space_char('-') && !digit_char('-') && !alpha_char('-'),
{
}

/// The text of a digit run scans as one integer token.
proof fn lemma_lex_digits(s: Seq<char>, i: int)
    requires
        0 <= i < s.len(),
        forall|m: int| i <= m < s.len() ==> digit_char(#[trigger] s[m]),
        digits_val(s.subrange(i, s.len() as int)) <= i32::MAX,
        0 <= digits_val(s.subrange(i, s.len() as int)),
    ensures
        toks(s, i) =~= seq![
            Ok::<Token, crate::lexer::ErrorView>(
                Token::Integer(digits_val(s.subrange(i, s.len() as int)) as i32),
            ),
        ],
{
    lemma_literal_char_classes();
    assert(skip_ws(s, i) == i);
    lemma_digit_run_full(s, i);
    let v = digits_val(s.subrange(i, s.len() as int));
    assert(next_token(s, i) == Some(
        (Ok::<Token, crate::lexer::ErrorView>(Token::Integer(v as i32)), s.len() as int),
    ));
    assert(skip_ws(s, s.len() as int) == s.len());
    assert(next_token(s, s.len() as int) is None);
    assert(toks(s, s.len() as int) =~= Seq::<Result<Token, crate::lexer::ErrorView>>::empty());
}

/// Parsing and evaluating the decimal text of a number yields exactly that
/// number, under every strategy, with no dice rolled. The one value left
/// out is the smallest 32-bit number, whose magnitude does not fit an
/// integer token.
pub proof fn law_literal_round_trip(n: i32, mode: Mode)
    requires
        n > i32::MIN,
    ensures
        match spec_parse(dec_str_i32(n as int)) {
            Ok(e) => eval_spec(e, mode, Seq::empty()) == Some(
                (Ok::<i32, Error>(n), Seq::<DieRoll>::empty()),
            ),
            Err(_) => false,
        },
{
    let text = dec_str_i32(n as int);
    lemma_literal_char_classes();
    let start = EvalState {
        rolls: Seq::empty(),
        results: Seq::empty(),
        pools: Seq::empty(),
        draws: Seq::empty(),
    };
    if n >= 0 {
        lemma_dec_digits_props(n as int);
        assert(text == dec_digits(n as int));
        assert(text.subrange(0, text.len() as int) =~= text);
        lemma_lex_digits(text, 0);
        let ts = lex_all(text);
        let tok = Ok::<Token, crate::lexer::ErrorView>(Token::Integer(n));
        assert(ts =~= seq![tok]);
        assert(ts.skip(1) =~= Seq::<Result<Token, crate::lexer::ErrorView>>::empty());
        let lit = Expr::Lit(Lit { value: n });
        assert(spec_factor(ts) == Ok::<(Expr, crate::parser::Items), crate::parser::ErrorView>(
            (lit, ts.skip(1)),
        ));
        assert(spec_term_rest(lit, ts.skip(1)) == Ok::<
            (Expr, crate::parser::Items),
            crate::parser::ErrorView,
        >((lit, ts.skip(1))));
        assert(spec_term(ts) == Ok::<(Expr, crate::parser::Items), crate::parser::ErrorView>(
            (lit, ts.skip(1)),
        ));
        assert(spec_sum_rest(lit, ts.skip(1)) == Ok::<
            (Expr, crate::parser::Items),
            crate::parser::ErrorView,
        >((lit, ts.skip(1))));
        assert(spec_sum(ts) == Ok::<(Expr, crate::parser::Items), crate::parser::ErrorView>(
            (lit, ts.skip(1)),
        ));
        assert(spec_parse(text) == Ok::<Expr, crate::parser::ErrorView>(lit));
        assert(visit_spec(lit, mode, start) == Outcome::Done(
            EvalState { results: start.results.push(n), ..start },
        ));
        assert(start.results.push(n).len() == 1);
    } else {
        let m = -(n as int);
        lemma_dec_digits_props(m);
        assert(text == seq!['-'] + dec_digits(m));
        let digits = dec_digits(m);
        assert(text.len() == 1 + digits.len());
        assert(forall|q: int| 1 <= q < text.len() ==> digit_char(#[trigger] text[q]));
        assert(skip_ws(text, 0) == 0);
        assert(text[0] == '-');
        assert(symbol_token('-') == Ok::<Token, crate::lexer::ErrorView>(Token::Minus));
        assert(next_token(text, 0) == Some(
            (Ok::<Token, crate::lexer::ErrorView>(Token::Minus), 1int),
        ));
        assert(text.subrange(1, text.len() as int) =~= digits);
        lemma_lex_digits(text, 1);
        let mtok = Ok::<Token, crate::lexer::ErrorView>(Token::Integer(m as i32));
        assert(toks(text, 1) =~= seq![mtok]);
        let ts = lex_all(text);
        assert(ts =~= seq![Ok::<Token, crate::lexer::ErrorView>(Token::Minus), mtok]);
        let inner = ts.skip(1);
        assert(inner =~= seq![mtok]);
        assert(inner.skip(1) =~= Seq::<Result<Token, crate::lexer::ErrorView>>::empty());
        let lit = Expr::Lit(Lit { value: m as i32 });
        let neg = Expr::Neg(crate::ast::Neg { right: Box::new(lit) });
        assert(spec_factor(inner) == Ok::<(Expr, crate::parser::Items), crate::parser::ErrorView>(
            (lit, inner.skip(1)),
        ));
        assert(spec_factor(ts) == Ok::<(Expr, crate::parser::Items), crate::parser::ErrorView>(
            (neg, inner.skip(1)),
        ));
        assert(spec_term_rest(neg, inner.skip(1)) == Ok::<
            (Expr, crate::parser::Items),
            crate::parser::ErrorView,
        >((neg, inner.skip(1))));
        assert(spec_term(ts) == Ok::<(Expr, crate::parser::Items), crate::parser::ErrorView>(
            (neg, inner.skip(1)),
        ));
        assert(spec_sum_rest(neg, inner.skip(1)) == Ok::<
            (Expr, crate::parser::Items),
            crate::parser::ErrorView,
        >((neg, inner.skip(1))));
        assert(spec_sum(ts) == Ok::<(Expr, crate::parser::Items), crate::parser::ErrorView>(
            (neg, inner.skip(1)),
        ));
        assert(spec_parse(text) == Ok::<Expr, crate::parser::ErrorView>(neg));
        let st1 = EvalState { results: start.results.push(m as i32), ..start };
        assert(visit_spec(lit, mode, start) == Outcome::Done(st1));
        assert(crate::eval::wneg(m as i32) == n);
        assert(st1.results.drop_last() =~= start.results);
        assert(visit_spec(neg, mode, start) == Outcome::Done(
            EvalState { results: st1.results.drop_last().push(n), ..st1 },
        ));
        assert(st1.results.drop_last().push(n).len() == 1);
    }
}

/// Dividing by a literal zero fails with the divide-by-zero error under
/// every strategy, whatever the literal numerator: no partial numeric
/// result is produced and no dice are rolled.
pub proof fn law_divide_by_zero(a: i32, mode: Mode)
    ensures
        eval_spec(
            Expr::Div(
                Div {
                    left: Box::new(Expr::Lit(Lit { value: a })),
                    right: Box::new(Expr::Lit(Lit { value: 0 })),
                },
            ),
            mode,
            Seq::empty(),
        ) == Some((Err::<i32, Error>(Error::DivideByZero), Seq::<DieRoll>::empty())),
{
    let e = Expr::Div(
        Div {
            left: Box::new(Expr::Lit(Lit { value: a })),
            right: Box::new(Expr::Lit(Lit { value: 0 })),
        },
    );
    let start = EvalState {
        rolls: Seq::empty(),
        results: Seq::empty(),
        pools: Seq::empty(),
        draws: Seq::empty(),
    };
    let st1 = EvalState { results: start.results.push(a), ..start };
    let st2 = EvalState { results: st1.results.drop_last(), ..st1 };
    let st3 = EvalState { results: st2.results.push(0), ..st2 };
    let st4 = EvalState { results: st3.results.drop_last(), ..st3 };
    assert(visit_spec(Expr::Lit(Lit { value: a }), mode, start) == Outcome::Done(st1));
    assert(visit_spec(Expr::Lit(Lit { value: 0 }), mode, st2) == Outcome::Done(st3));
    assert(crate::eval::visit_binop(
        Outcome::Done(st1),
        Expr::Lit(Lit { value: 0 }),
        mode,
        crate::eval::BinKind::Div,
    ) == Outcome::Halt(Error::DivideByZero, st4));
    assert(visit_spec(e, mode, start) == Outcome::Halt(Error::DivideByZero, st4));
}

/// The canonical text of a nonnegative literal re-parses to the same
/// tree: the literal piece of the print-and-parse round trip.
pub proof fn law_pretty_literal_round_trip(n: i32)
    requires
        n >= 0,
    ensures
        spec_parse(pp_root(Expr::Lit(Lit { value: n }))) == Ok::<Expr, crate::parser::ErrorView>(
            Expr::Lit(Lit { value: n }),
        ),
{
    assert(pp_root(Expr::Lit(Lit { value: n })) == dec_str_i32(n as int));
    law_literal_round_trip(n, Mode::Min);
    let text = dec_str_i32(n as int);
    match spec_parse(text) {
        Ok(e) => {
            assert(eval_spec(e, Mode::Min, Seq::empty()) == Some(
                (Ok::<i32, Error>(n), Seq::<DieRoll>::empty()),
            ));
            lemma_dec_digits_props(n as int);
            assert(text.subrange(0, text.len() as int) =~= text);
            lemma_lex_digits(text, 0);
            let ts = lex_all(text);
            let tok = Ok::<Token, crate::lexer::ErrorView>(Token::Integer(n));
            assert(ts =~= seq![tok]);
            assert(ts.skip(1) =~= Seq::<Result<Token, crate::lexer::ErrorView>>::empty());
            let lit = Expr::Lit(Lit { value: n });
            assert(spec_factor(ts) == Ok::<
                (Expr, crate::parser::Items),
                crate::parser::ErrorView,
            >((lit, ts.skip(1))));
            assert(spec_term_rest(lit, ts.skip(1)) == Ok::<
                (Expr, crate::parser::Items),
                crate::parser::ErrorView,
            >((lit, ts.skip(1))));
            assert(spec_term(ts) == Ok::<(Expr, crate::parser::Items), crate::parser::ErrorView>(
                (lit, ts.skip(1)),
            ));
            assert(spec_sum_rest(lit, ts.skip(1)) == Ok::<
                (Expr, crate::parser::Items),
                crate::parser::ErrorView,
            >((lit, ts.skip(1))));
            assert(spec_sum(ts) == Ok::<(Expr, crate::parser::Items), crate::parser::ErrorView>(
                (lit, ts.skip(1)),
            ));
        },
        Err(_) => {},
    }
}

/// The tree of `c d s` followed by an advantage or disadvantage word.
pub open spec fn reroll_roll(count: i32, sides: i32, kind: Selection) -> Expr {
    Expr::Roll(
        Roll {
            count: Box::new(Expr::Lit(Lit { value: count })),
            sides: Box::new(Expr::Lit(Lit { value: sides })),
            select: Some(
                Box::new(Expr::Select(Select { selection: kind, count: None, next: None })),
            ),
        },
    )
}

/// The wrapped sum of `n` copies of one value.
pub open spec fn wsum_const(v: i32, n: int) -> i32
    decreases n,
{
    if n <= 0 {
        0
    } else {
        wadd(wsum_const(v, n - 1), v)
    }
}

/// Summing a range of dice that all show the same value depends only on
/// how many they are.
proof fn lemma_sum_results_const(s: Seq<DieRoll>, v: i32, from: int, to: int)
    requires
        0 <= from <= to <= s.len(),
        forall|i: int| 0 <= i < s.len() ==> (#[trigger] s[i]).result == v,
    ensures
        sum_results(s, from, to) == wsum_const(v, to - from),
    decreases to - from,
{
    if from < to {
        lemma_sum_results_const(s, v, from, to - 1);
    }
}

/// The wrapped sum of the kept dice, when the kept dice form one window
/// of equal values.
proof fn lemma_sum_kept_window(s: Seq<DieRoll>, v: i32, lo: int, hi: int, to: int)
    requires
        0 <= lo <= hi <= s.len(),
        0 <= to <= s.len(),
        0 <= v,
        (hi - lo) * (v as int) <= i32::MAX,
        forall|i: int| 0 <= i < s.len() ==> ((#[trigger] s[i]).keep <==> lo <= i < hi),
        forall|i: int| 0 <= i < s.len() ==> (#[trigger] s[i]).result == v,
    ensures
        sum_kept(s, 0, to) == if to <= lo {
            0
        } else if to <= hi {
            (to - lo) * (v as int)
        } else {
            (hi - lo) * (v as int)
        },
    decreases to,
{
    if to > 0 {
        lemma_sum_kept_window(s, v, lo, hi, to - 1);
        assert((hi - lo) * (v as int) >= 0) by (nonlinear_arith)
            requires
                lo <= hi && 0 <= v,
        ;
        if to <= lo {
            assert(!s[to - 1].keep);
            assert(sum_kept(s, 0, to) == wadd(sum_kept(s, 0, to - 1), 0));
            assert(sum_kept(s, 0, to) == 0);
        } else if to <= hi {
            assert((to - lo) * (v as int) == (to - 1 - lo) * (v as int) + v && 0 <= (to - 1 - lo)
                * (v as int) <= (hi - lo) * (v as int) && (to - lo) * (v as int) <= (hi - lo) * (
            v as int)) by (nonlinear_arith)
                requires
                    lo < to <= hi && 0 <= v && 0 <= lo,
            ;
            assert(s[to - 1].keep);
            assert((to - 1 - lo) * (v as int) == 0 || to - 1 > lo) by (nonlinear_arith)
                requires
                    lo <= to - 1,
            ;
            assert(sum_kept(s, 0, to - 1) == (to - 1 - lo) * (v as int));
            assert(sum_kept(s, 0, to) == wadd(sum_kept(s, 0, to - 1), v));
            assert(sum_kept(s, 0, to) == (to - lo) * (v as int));
        } else {
            assert(!s[to - 1].keep);
            assert(hi == lo ==> (hi - lo) * (v as int) == 0) by (nonlinear_arith);
            assert(to - 1 == hi ==> (to - 1 - lo) * (v as int) == (hi - lo) * (v as int));
            assert(sum_kept(s, 0, to - 1) == (hi - lo) * (v as int));
            assert(sum_kept(s, 0, to) == wadd(sum_kept(s, 0, to - 1), 0));
            assert(sum_kept(s, 0, to) == (hi - lo) * (v as int));
        }
    } else {
        assert(sum_kept(s, 0, 0) == 0);
    }
}

/// Under a deterministic strategy the original pool and its reroll always
/// tie, and the tie-break shows plainly: advantage keeps the original
/// pool and drops the reroll; disadvantage keeps the reroll and drops the
/// original. Either way the total counts one pool: `c` times the die
/// value.
pub proof fn law_reroll_tie_deterministic(count: i32, sides: i32, kind: Selection, mode: Mode)
    requires
        0 <= count,
        crate::valid_sides(sides),
        mode != Mode::Random,
        kind == Selection::Advantage || kind == Selection::Disadvantage,
        count * (det_die(mode, sides) as int) <= i32::MAX,
    ensures
        ({
            let die = det_die(mode, sides);
            let keeps_old = kind == Selection::Advantage;
            match eval_spec(reroll_roll(count, sides, kind), mode, Seq::empty()) {
                Some(p) => p.0 == Ok::<i32, Error>(((count * die) as i32)) && p.1.len() == 2
                    * count && (forall|i: int|
                    0 <= i < count ==> (#[trigger] p.1[i]).keep == keeps_old) && (forall|i: int|
                    count <= i < 2 * count ==> (#[trigger] p.1[i]).keep == !keeps_old),
                None => false,
            }
        }),
{
    let die_v = det_die(mode, sides);
    let die = DieRoll { sides, result: die_v, keep: true };
    let e = reroll_roll(count, sides, kind);
    let start = EvalState {
        rolls: Seq::empty(),
        results: Seq::empty(),
        pools: Seq::empty(),
        draws: Seq::empty(),
    };
    let st1 = EvalState { results: start.results.push(count), ..start };
    let st2 = EvalState { results: st1.results.drop_last(), ..st1 };
    let st3 = EvalState { results: st2.results.push(sides), ..st2 };
    let st4 = EvalState { results: st3.results.drop_last(), ..st3 };
    assert(st4.results =~= Seq::<i32>::empty());
    assert(st4.rolls =~= Seq::<DieRoll>::empty());
    let sel = Select { selection: kind, count: None, next: None };
    let ro = Roll {
        count: Box::new(Expr::Lit(Lit { value: count })),
        sides: Box::new(Expr::Lit(Lit { value: sides })),
        select: Some(Box::new(Expr::Select(sel))),
    };
    assert(visit_spec(Expr::Lit(Lit { value: count }), mode, start) == Outcome::Done(st1));
    assert(visit_spec(Expr::Lit(Lit { value: sides }), mode, st2) == Outcome::Done(st3));
    assert(e == Expr::Roll(ro));
    assert(visit_spec(e, mode, start) == visit_roll_dice(ro, mode, st4, count, sides));
    lemma_roll_dice_det(mode, sides, count as nat, st4.rolls, st4.draws);
    let dice = Seq::new(count as nat, |i: int| die);
    assert(st4.rolls + dice =~= dice);
    assert(1 <= die_v <= sides);
    let pushed = EvalState {
        rolls: dice,
        results: st4.results,
        pools: st4.pools.push((0int, count as int)),
        draws: st4.draws,
    };
    assert(pushed.pools.last() == (0int, count as int));
    assert(pushed.pools.len() == 1);
    // The reroll doubles the pool with the same deterministic dice.
    lemma_reroll_dice_det(mode, dice, 0, count as nat, dice, pushed.draws, sides, die_v);
    let rolls1 = dice + Seq::new(count as nat, |i: int| die);
    assert(forall|i: int| 0 <= i < rolls1.len() ==> #[trigger] rolls1[i] == die);
    lemma_sum_results_const(rolls1, die_v, 0, count as int);
    lemma_sum_results_const(rolls1, die_v, count as int, 2 * count as int);
    let keeps_old = kind == Selection::Advantage;
    let marked = if keeps_old {
        mark_dropped(rolls1, count as int, 2 * count as int)
    } else {
        mark_dropped(rolls1, 0, count as int)
    };
    assert(visit_reroll(sel, mode, pushed, (0int, count as int)) == Outcome::Done(
        EvalState { rolls: marked, draws: pushed.draws, ..pushed },
    ));
    assert(visit_spec(Expr::Select(sel), mode, pushed) == Outcome::Done(
        EvalState { rolls: marked, draws: pushed.draws, ..pushed },
    ));
    // The roll re-sorts its own pool, which holds equal values.
    assert(forall|i: int|
        0 <= i < marked.len() ==> (#[trigger] marked[i]).result == die_v);
    assert(sorted_pool(marked.subrange(0, count as int), false));
    lemma_sort_by_of_sorted(marked.subrange(0, count as int), false);
    assert(sort_range(marked, 0, count as int, false) =~= marked);
    if keeps_old {
        assert(forall|i: int|
            0 <= i < marked.len() ==> ((#[trigger] marked[i]).keep <==> 0 <= i < count));
        lemma_sum_kept_window(marked, die_v, 0, count as int, 2 * count as int);
    } else {
        assert(forall|i: int|
            0 <= i < marked.len() ==> ((#[trigger] marked[i]).keep <==> count <= i < 2 * count));
        lemma_sum_kept_window(marked, die_v, count as int, 2 * count as int, 2 * count as int);
    }
    let total = sum_kept(marked, 0, 2 * count as int);
    assert(total == count * die_v);
    assert(st4.results.push(total).len() == 1);
}

/// Under a deterministic strategy, rerolling a pool of identical dice
/// appends the same record once per die.
proof fn lemma_reroll_dice_det(
    mode: Mode,
    rolls: Seq<DieRoll>,
    lo: int,
    k: nat,
    dice: Seq<DieRoll>,
    draws: Seq<i32>,
    sides: i32,
    die_v: i32,
)
    requires
        mode != Mode::Random,
        0 <= lo,
        lo + k <= rolls.len(),
        forall|i: int| 0 <= i < rolls.len() ==> (#[trigger] rolls[i]).sides == sides,
        die_v == det_die(mode, sides),
    ensures
        reroll_dice(mode, rolls, lo, k, dice, draws) == Some(
            (
                dice + Seq::new(k, |i: int| DieRoll { sides, result: die_v, keep: true }),
                draws,
            ),
        ),
    decreases k,
{
    let die = DieRoll { sides, result: die_v, keep: true };
    if k == 0 {
        assert(dice + Seq::new(0, |i: int| die) =~= dice);
    } else {
        lemma_reroll_dice_det(mode, rolls, lo, (k - 1) as nat, dice, draws, sides, die_v);
        assert(rolls[lo + k - 1].sides == sides);
        assert((dice + Seq::new((k - 1) as nat, |i: int| die)).push(die) =~= dice + Seq::new(
            k,
            |i: int| die,
        ));
    }
}

} // verus!
