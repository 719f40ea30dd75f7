//! An evaluator for dice expressions: a stack machine that walks the AST,
//! rolls dice, applies pool selections and arithmetic, and returns the
//! result of the expression together with every individual die outcome.
//!
//! The machine holds a stack of intermediate results, a flat ordered list of
//! [`DieRoll`] records, and a stack of active dice pools (index ranges into
//! the roll list) used while selection sub-expressions run.
//!
//! The mathematical machine is [`visit_spec`], deterministic given the
//! strategy and, for the random strategy, the sequence of values the dice
//! showed in the order they were drawn. [`Evaluator::eval`] is proved to
//! return exactly what the mathematical machine returns on the drawn values
//! it records.
//!
//! Arithmetic wraps around on 32-bit signed overflow, as the host
//! integers do.

use vstd::prelude::*;

use crate::ast::{Expr, Selection};

verus! {

/// The random number generator behind the random evaluation strategy.
#[verifier::external_type_specification]
#[verifier::external_body]
pub struct ExThreadRng(rand::rngs::ThreadRng);

/// Possible ways to evaluate dice rolls.
pub enum Evaluation {
    /// Randomly generate each die roll.
    Rand(rand::rngs::ThreadRng),
    /// Evaluate the expression as if all dice rolls were 1.
    Min,
    /// Evaluate the expression as if all dice rolls landed in the middle of
    /// their range (rounded down).
    Mid,
    /// Evaluate the expression as if all dice rolls were the highest
    /// possible.
    Max,
}

/// A single die roll.
#[derive(Debug, PartialEq, Eq, Clone, Copy, Structural)]
pub struct DieRoll {
    /// The number of sides on the die: 4, 6, 8, 10, 12, 20 or 100.
    pub sides: i32,
    /// The result of the roll, between 1 and `sides`.
    pub result: i32,
    /// Whether the roll was kept or discarded during a selection operation.
    pub keep: bool,
}

/// Possible errors that can occur during evaluation.
#[derive(Debug, PartialEq, Eq, Clone, Copy, Structural)]
pub enum Error {
    /// A selection operation (`kh`, `dl`, ...) involves selecting more dice
    /// than are available after rolling and applying previous selections.
    InvalidSelection { selection_size: usize, pool_size: usize },
    /// An attempt was made to divide by zero.
    DivideByZero,
    /// The machine's stacks and the tree do not fit together: a value was
    /// expected and none was there, a selection ran with no active pool, a
    /// roll's count or sides came out unusable, or a traversal left other
    /// than exactly one result. This marks a malformed tree reaching the
    /// evaluator; it cannot occur for a tree the parser produced.
    StackUnderflow,
}

/// The evaluation strategies, stripped of the generator.
pub ghost enum Mode {
    Random,
    Min,
    Mid,
    Max,
}

/// The strategy a given [`Evaluation`] follows.
pub open spec fn mode_of(e: Evaluation) -> Mode {
    match e {
        Evaluation::Rand(_) => Mode::Random,
        Evaluation::Min => Mode::Min,
        Evaluation::Mid => Mode::Mid,
        Evaluation::Max => Mode::Max,
    }
}

/// The state of the dice machine: the rolls made so far, the stack of
/// intermediate results, the stack of active pools, and the values the
/// random strategy has yet to show.
pub ghost struct EvalState {
    pub rolls: Seq<DieRoll>,
    pub results: Seq<i32>,
    pub pools: Seq<(int, int)>,
    pub draws: Seq<i32>,
}

/// The outcome of running the machine over one node.
pub ghost enum Outcome {
    /// The node was evaluated; the state after.
    Done(EvalState),
    /// Evaluation failed; the state at the failure.
    Halt(Error, EvalState),
    /// The supplied draw sequence does not fit the run: it is too short or
    /// holds a value outside a die's range. A real run never gets stuck,
    /// because the machine is run on the values the dice actually showed.
    Stuck,
}

/// 32-bit wrapping addition.
pub open spec fn wadd(a: i32, b: i32) -> i32 {
    vstd::wrapping::i32_specs::wrapping_add(a, b)
}

/// 32-bit wrapping subtraction.
pub open spec fn wsub(a: i32, b: i32) -> i32 {
    vstd::wrapping::i32_specs::wrapping_sub(a, b)
}

/// 32-bit wrapping multiplication.
pub open spec fn wmul(a: i32, b: i32) -> i32 {
    vstd::wrapping::i32_specs::wrapping_mul(a, b)
}

/// 32-bit wrapping negation.
pub open spec fn wneg(a: i32) -> i32 {
    if a == i32::MIN {
        i32::MIN
    } else {
        (-a) as i32
    }
}

/// 32-bit truncating division, wrapping on the one overflowing case.
pub open spec fn wdiv(l: i32, r: i32) -> i32 {
    if l == i32::MIN && r == -1 {
        i32::MIN
    } else {
        let q = vstd::math::abs(l as int) / vstd::math::abs(r as int);
        if (l < 0) != (r < 0) {
            (-q) as i32
        } else {
            q as i32
        }
    }
}

/// The value a die shows under a deterministic strategy.
pub open spec fn det_die(mode: Mode, sides: i32) -> i32 {
    match mode {
        Mode::Min => 1,
        Mode::Mid => (sides as int / 2) as i32,
        _ => sides,
    }
}

/// Roll `k` fresh dice of the given sides, appending to `dice` and
/// consuming draws under the random strategy; `None` when the draws do not
/// fit.
pub open spec fn roll_dice(mode: Mode, sides: i32, k: nat, dice: Seq<DieRoll>, draws: Seq<i32>) -> Option<
    (Seq<DieRoll>, Seq<i32>),
>
    decreases k,
{
    if k == 0 {
        Some((dice, draws))
    } else {
        match roll_dice(mode, sides, (k - 1) as nat, dice, draws) {
            None => None,
            Some((dice1, draws1)) => {
                match mode {
                    Mode::Random => {
                        if draws1.len() > 0 && 1 <= draws1[0] <= sides {
                            Some(
                                (
                                    dice1.push(
                                        DieRoll { sides, result: draws1[0], keep: true },
                                    ),
                                    draws1.skip(1),
                                ),
                            )
                        } else {
                            None
                        }
                    },
                    _ => Some(
                        (
                            dice1.push(DieRoll { sides, result: det_die(mode, sides), keep: true }),
                            draws1,
                        ),
                    ),
                }
            },
        }
    }
}

/// Reroll the dice at indices `lo..lo + k` of `rolls`, each with its own
/// sides, appending the replacements to `dice`.
pub open spec fn reroll_dice(
    mode: Mode,
    rolls: Seq<DieRoll>,
    lo: int,
    k: nat,
    dice: Seq<DieRoll>,
    draws: Seq<i32>,
) -> Option<(Seq<DieRoll>, Seq<i32>)>
    decreases k,
{
    if k == 0 {
        Some((dice, draws))
    } else {
        match reroll_dice(mode, rolls, lo, (k - 1) as nat, dice, draws) {
            None => None,
            Some((dice1, draws1)) => {
                let sides = rolls[lo + k - 1].sides;
                match mode {
                    Mode::Random => {
                        if draws1.len() > 0 && 1 <= draws1[0] <= sides {
                            Some(
                                (
                                    dice1.push(
                                        DieRoll { sides, result: draws1[0], keep: true },
                                    ),
                                    draws1.skip(1),
                                ),
                            )
                        } else {
                            None
                        }
                    },
                    _ => Some(
                        (
                            dice1.push(DieRoll { sides, result: det_die(mode, sides), keep: true }),
                            draws1,
                        ),
                    ),
                }
            },
        }
    }
}

/// The wrapped sum of the kept results among `rolls[from..to]`, folded in
/// index order.
pub open spec fn sum_kept(rolls: Seq<DieRoll>, from: int, to: int) -> i32
    decreases to - from,
{
    if from >= to {
        0
    } else {
        wadd(
            sum_kept(rolls, from, to - 1),
            if rolls[to - 1].keep {
                rolls[to - 1].result
            } else {
                0
            },
        )
    }
}

/// The wrapped sum of all results among `rolls[from..to]`, folded in index
/// order.
pub open spec fn sum_results(rolls: Seq<DieRoll>, from: int, to: int) -> i32
    decreases to - from,
{
    if from >= to {
        0
    } else {
        wadd(sum_results(rolls, from, to - 1), rolls[to - 1].result)
    }
}

/// Whether `a` may stand before `b` in a pool ordered by result.
pub open spec fn ordered(a: DieRoll, b: DieRoll, asc: bool) -> bool {
    if asc {
        a.result <= b.result
    } else {
        a.result >= b.result
    }
}

/// Insert `x` into the ordered sequence `s`, after any dice it ties with.
pub open spec fn insert_one(s: Seq<DieRoll>, x: DieRoll, asc: bool) -> Seq<DieRoll>
    decreases s.len(),
{
    if s.len() == 0 {
        seq![x]
    } else if ordered(s.last(), x, asc) {
        s.push(x)
    } else {
        insert_one(s.drop_last(), x, asc).push(s.last())
    }
}

/// Sort a pool by result, ascending or descending; dice with equal results
/// keep their relative order.
pub open spec fn sort_by(s: Seq<DieRoll>, asc: bool) -> Seq<DieRoll>
    decreases s.len(),
{
    if s.len() == 0 {
        Seq::empty()
    } else {
        insert_one(sort_by(s.drop_last(), asc), s.last(), asc)
    }
}

/// `rolls` with the range `[lo, hi)` sorted by result.
pub open spec fn sort_range(rolls: Seq<DieRoll>, lo: int, hi: int, asc: bool) -> Seq<DieRoll> {
    rolls.subrange(0, lo) + sort_by(rolls.subrange(lo, hi), asc) + rolls.subrange(
        hi,
        rolls.len() as int,
    )
}

/// `rolls` with the keep flags of `[lo, lo + count)` set to `keep` and
/// those of `[lo + count, hi)` set to its opposite.
pub open spec fn mark_selection(
    rolls: Seq<DieRoll>,
    lo: int,
    count: int,
    hi: int,
    keep: bool,
) -> Seq<DieRoll> {
    Seq::new(
        rolls.len(),
        |i: int|
            if lo <= i < lo + count {
                DieRoll { keep, ..rolls[i] }
            } else if lo + count <= i < hi {
                DieRoll { keep: !keep, ..rolls[i] }
            } else {
                rolls[i]
            },
    )
}

/// `rolls` with the keep flags of `[lo, hi)` cleared.
pub open spec fn mark_dropped(rolls: Seq<DieRoll>, lo: int, hi: int) -> Seq<DieRoll> {
    Seq::new(
        rolls.len(),
        |i: int|
            if lo <= i < hi {
                DieRoll { keep: false, ..rolls[i] }
            } else {
                rolls[i]
            },
    )
}

/// A selection count as the machine reads it: an index-sized value, with a
/// negative count wrapping around as a cast to `usize` does.
pub open spec fn selection_size(n: i32) -> usize {
    ((n as int) % (usize::MAX as int + 1)) as usize
}

/// The dice machine on one node. The traversal order is fixed: binary
/// nodes are left-then-right, a roll is count-then-sides-then-selection, a
/// selection is count-then-next.
pub open spec fn visit_spec(e: Expr, mode: Mode, st: EvalState) -> Outcome
    decreases e, 1int,
{
    match e {
        Expr::Lit(l) => Outcome::Done(
            EvalState { results: st.results.push(l.value), ..st },
        ),
        Expr::Neg(n) => {
            match visit_spec(*n.right, mode, st) {
                Outcome::Done(st1) => {
                    if st1.results.len() == 0 {
                        Outcome::Halt(Error::StackUnderflow, st1)
                    } else {
                        Outcome::Done(
                            EvalState {
                                results: st1.results.drop_last().push(wneg(st1.results.last())),
                                ..st1
                            },
                        )
                    }
                },
                other => other,
            }
        },
        Expr::Add(b) => visit_binop(
            visit_spec(*b.left, mode, st),
            *b.right,
            mode,
            BinKind::Add,
        ),
        Expr::Sub(b) => visit_binop(
            visit_spec(*b.left, mode, st),
            *b.right,
            mode,
            BinKind::Sub,
        ),
        Expr::Mul(b) => visit_binop(
            visit_spec(*b.left, mode, st),
            *b.right,
            mode,
            BinKind::Mul,
        ),
        Expr::Div(b) => visit_binop(
            visit_spec(*b.left, mode, st),
            *b.right,
            mode,
            BinKind::Div,
        ),
        Expr::Roll(ro) => {
            match visit_spec(*ro.count, mode, st) {
                Outcome::Done(st1) => {
                    if st1.results.len() == 0 {
                        Outcome::Halt(Error::StackUnderflow, st1)
                    } else {
                        let count = st1.results.last();
                        let st2 = EvalState { results: st1.results.drop_last(), ..st1 };
                        match visit_spec(*ro.sides, mode, st2) {
                            Outcome::Done(st3) => {
                                if st3.results.len() == 0 {
                                    Outcome::Halt(Error::StackUnderflow, st3)
                                } else {
                                    let sides = st3.results.last();
                                    let st4 = EvalState {
                                        results: st3.results.drop_last(),
                                        ..st3
                                    };
                                    if count < 0 || !crate::valid_sides(sides) {
                                        Outcome::Halt(Error::StackUnderflow, st4)
                                    } else {
                                        visit_roll_dice(ro, mode, st4, count, sides)
                                    }
                                }
                            },
                            other => other,
                        }
                    }
                },
                other => other,
            }
        },
        Expr::Select(sel) => {
            if st.pools.len() == 0 {
                Outcome::Halt(Error::StackUnderflow, st)
            } else {
                let pool = st.pools.last();
                match sel.selection {
                    Selection::Advantage | Selection::Disadvantage => visit_reroll(
                        sel,
                        mode,
                        st,
                        pool,
                    ),
                    _ => visit_keep_drop(sel, mode, st, pool),
                }
            }
        },
    }
}

/// The machine's common tail for the four arithmetic nodes: the left
/// operand is already evaluated and popped in `left_out`; evaluate the
/// right operand and push the combination.
#[derive(Debug, PartialEq, Eq, Clone, Copy, Structural)]
pub enum BinKind {
    Add,
    Sub,
    Mul,
    Div,
}

/// Pop the left value from `left_out`, evaluate `right`, pop the right
/// value and push the arithmetic combination.
pub open spec fn visit_binop(left_out: Outcome, right: Expr, mode: Mode, kind: BinKind) -> Outcome
    decreases right, 2int,
{
    match left_out {
        Outcome::Done(st1) => {
            if st1.results.len() == 0 {
                Outcome::Halt(Error::StackUnderflow, st1)
            } else {
                let l = st1.results.last();
                let st2 = EvalState { results: st1.results.drop_last(), ..st1 };
                match visit_spec(right, mode, st2) {
                    Outcome::Done(st3) => {
                        if st3.results.len() == 0 {
                            Outcome::Halt(Error::StackUnderflow, st3)
                        } else {
                            let r = st3.results.last();
                            let st4 = EvalState { results: st3.results.drop_last(), ..st3 };
                            match kind {
                                BinKind::Add => Outcome::Done(
                                    EvalState { results: st4.results.push(wadd(l, r)), ..st4 },
                                ),
                                BinKind::Sub => Outcome::Done(
                                    EvalState { results: st4.results.push(wsub(l, r)), ..st4 },
                                ),
                                BinKind::Mul => Outcome::Done(
                                    EvalState { results: st4.results.push(wmul(l, r)), ..st4 },
                                ),
                                BinKind::Div => {
                                    if r == 0 {
                                        Outcome::Halt(Error::DivideByZero, st4)
                                    } else {
                                        Outcome::Done(
                                            EvalState {
                                                results: st4.results.push(wdiv(l, r)),
                                                ..st4
                                            },
                                        )
                                    }
                                },
                            }
                        }
                    },
                    other => other,
                }
            }
        },
        other => other,
    }
}

/// The machine on a roll node once count and sides are known: append
/// `count` fresh dice, run the selection chain over their pool, re-sort the
/// pool descending, and push the sum of the kept records from the pool's
/// start through the end of the roll list.
pub open spec fn visit_roll_dice(
    ro: crate::ast::Roll,
    mode: Mode,
    st: EvalState,
    count: i32,
    sides: i32,
) -> Outcome
    decreases ro.select, 2int,
{
    let lo = st.rolls.len() as int;
    match roll_dice(mode, sides, count as nat, st.rolls, st.draws) {
        None => Outcome::Stuck,
        Some((rolls1, draws1)) => {
            let pool = (lo, rolls1.len() as int);
            let st1 = EvalState { rolls: rolls1, draws: draws1, ..st };
            let after_sel: Outcome = match ro.select {
                None => Outcome::Done(st1),
                Some(sel) => {
                    let pushed = EvalState { pools: st1.pools.push(pool), ..st1 };
                    match visit_spec(*sel, mode, pushed) {
                        Outcome::Done(st2) => Outcome::Done(
                            EvalState { pools: st2.pools.drop_last(), ..st2 },
                        ),
                        other => other,
                    }
                },
            };
            match after_sel {
                Outcome::Done(st3) => {
                    let sorted = sort_range(st3.rolls, lo, pool.1 as int, false);
                    let total = sum_kept(sorted, lo, sorted.len() as int);
                    Outcome::Done(
                        EvalState { rolls: sorted, results: st3.results.push(total), ..st3 },
                    )
                },
                other => other,
            }
        },
    }
}

/// The machine on a keep/drop selection over the active pool: evaluate the
/// optional count (default 1), fail if it exceeds the pool, sort the pool,
/// mark the chosen dice, and run any chained selection over the narrowed
/// range of whichever side was kept.
pub open spec fn visit_keep_drop(
    sel: crate::ast::Select,
    mode: Mode,
    st: EvalState,
    pool: (int, int),
) -> Outcome
    decreases sel, 2int,
{
    let high = sel.selection == Selection::KeepHighest || sel.selection == Selection::DropHighest;
    let keep = sel.selection == Selection::KeepHighest || sel.selection == Selection::KeepLowest;
    let counted: Outcome = match sel.count {
        Some(c) => visit_spec(*c, mode, st),
        None => Outcome::Done(EvalState { results: st.results.push(1), ..st }),
    };
    match counted {
        Outcome::Done(st1) => {
            if st1.results.len() == 0 {
                Outcome::Halt(Error::StackUnderflow, st1)
            } else {
                let n = selection_size(st1.results.last());
                let st2 = EvalState { results: st1.results.drop_last(), ..st1 };
                let pool_size = pool.1 - pool.0;
                if n > pool_size {
                    Outcome::Halt(
                        Error::InvalidSelection { selection_size: n, pool_size: pool_size as usize },
                        st2,
                    )
                } else {
                    let sorted = sort_range(st2.rolls, pool.0, pool.1, !high);
                    let marked = mark_selection(sorted, pool.0, n as int, pool.1, keep);
                    let st3 = EvalState { rolls: marked, ..st2 };
                    match sel.next {
                        None => Outcome::Done(st3),
                        Some(nx) => {
                            let narrowed: (int, int) = if keep {
                                (pool.0, pool.0 + n)
                            } else {
                                (pool.0 + n, pool.1)
                            };
                            let pushed = EvalState { pools: st3.pools.push(narrowed), ..st3 };
                            match visit_spec(*nx, mode, pushed) {
                                Outcome::Done(st4) => Outcome::Done(
                                    EvalState { pools: st4.pools.drop_last(), ..st4 },
                                ),
                                other => other,
                            }
                        },
                    }
                }
            }
        },
        other => other,
    }
}

/// The machine on an advantage/disadvantage selection: reroll every die of
/// the active pool, compare totals, keep one pool and drop the other, and
/// run any chained selection over the kept pool. A tie keeps the original
/// pool under advantage and the rerolled pool under disadvantage.
pub open spec fn visit_reroll(
    sel: crate::ast::Select,
    mode: Mode,
    st: EvalState,
    pool: (int, int),
) -> Outcome
    decreases sel, 2int,
{
    let k = (pool.1 - pool.0) as nat;
    match reroll_dice(mode, st.rolls, pool.0, k, st.rolls, st.draws) {
        None => Outcome::Stuck,
        Some((rolls1, draws1)) => {
            let new_lo = st.rolls.len() as int;
            let new_hi = rolls1.len() as int;
            let total_old = sum_results(rolls1, pool.0, pool.1);
            let total_new = sum_results(rolls1, new_lo, new_hi);
            let new_wins = (total_new > total_old) == (sel.selection == Selection::Advantage);
            let kept: (int, int) = if new_wins {
                (new_lo, new_hi)
            } else {
                pool
            };
            let marked = if new_wins {
                mark_dropped(rolls1, pool.0, pool.1)
            } else {
                mark_dropped(rolls1, new_lo, new_hi)
            };
            let st1 = EvalState { rolls: marked, draws: draws1, ..st };
            match sel.next {
                None => Outcome::Done(st1),
                Some(nx) => {
                    let pushed = EvalState { pools: st1.pools.push(kept), ..st1 };
                    match visit_spec(*nx, mode, pushed) {
                        Outcome::Done(st2) => Outcome::Done(
                            EvalState { pools: st2.pools.drop_last(), ..st2 },
                        ),
                        other => other,
                    }
                },
            }
        },
    }
}

/// A die the machine can have produced: legal sides and a result on the
/// die.
pub open spec fn valid_die(r: DieRoll) -> bool {
    crate::valid_sides(r.sides) && 1 <= r.result <= r.sides
}

/// The machine's well-formedness: every pool lies within the roll list and
/// every roll is a die the machine can have produced.
pub open spec fn inv_state(rolls: Seq<DieRoll>, pools: Seq<(int, int)>) -> bool {
    (forall|i: int| 0 <= i < pools.len() ==> 0 <= #[trigger] pools[i].0 <= pools[i].1 <= rolls.len())
        && (forall|i: int| 0 <= i < rolls.len() ==> valid_die(#[trigger] rolls[i]))
}

/// Fresh dice are valid and appended: `roll_dice` only grows the list.
pub proof fn lemma_roll_dice(mode: Mode, sides: i32, k: nat, dice: Seq<DieRoll>, draws: Seq<i32>)
    requires
        crate::valid_sides(sides),
        forall|i: int| 0 <= i < dice.len() ==> valid_die(#[trigger] dice[i]),
    ensures
        match roll_dice(mode, sides, k, dice, draws) {
            Some(p) => p.0.len() == dice.len() + k && (forall|i: int|
                0 <= i < p.0.len() ==> valid_die(#[trigger] p.0[i])) && p.0.subrange(
                0,
                dice.len() as int,
            ) == dice,
            None => true,
        },
    decreases k,
{
    if k > 0 {
        lemma_roll_dice(mode, sides, (k - 1) as nat, dice, draws);
        match roll_dice(mode, sides, (k - 1) as nat, dice, draws) {
            Some((dice1, draws1)) => {
                assert(dice1.subrange(0, dice.len() as int) == dice);
                match roll_dice(mode, sides, k, dice, draws) {
                    Some(p) => {
                        assert(p.0.subrange(0, dice.len() as int) =~= dice);
                    },
                    None => {},
                }
            },
            None => {},
        }
    } else {
        assert(dice.subrange(0, dice.len() as int) =~= dice);
    }
}

/// Rerolled dice are valid and appended: `reroll_dice` only grows the
/// list.
pub proof fn lemma_reroll_dice(
    mode: Mode,
    rolls: Seq<DieRoll>,
    lo: int,
    k: nat,
    dice: Seq<DieRoll>,
    draws: Seq<i32>,
)
    requires
        0 <= lo,
        lo + k <= rolls.len(),
        forall|i: int| 0 <= i < rolls.len() ==> valid_die(#[trigger] rolls[i]),
        forall|i: int| 0 <= i < dice.len() ==> valid_die(#[trigger] dice[i]),
    ensures
        match reroll_dice(mode, rolls, lo, k, dice, draws) {
            Some(p) => p.0.len() == dice.len() + k && (forall|i: int|
                0 <= i < p.0.len() ==> valid_die(#[trigger] p.0[i])) && p.0.subrange(
                0,
                dice.len() as int,
            ) == dice,
            None => true,
        },
    decreases k,
{
    if k > 0 {
        lemma_reroll_dice(mode, rolls, lo, (k - 1) as nat, dice, draws);
        match reroll_dice(mode, rolls, lo, (k - 1) as nat, dice, draws) {
            Some((dice1, draws1)) => {
                match reroll_dice(mode, rolls, lo, k, dice, draws) {
                    Some(p) => {
                        assert(p.0.subrange(0, dice.len() as int) =~= dice);
                    },
                    None => {},
                }
            },
            None => {},
        }
    } else {
        assert(dice.subrange(0, dice.len() as int) =~= dice);
    }
}

/// Inserting into a pool of valid dice yields valid dice.
proof fn lemma_insert_one_valid(s: Seq<DieRoll>, x: DieRoll, asc: bool)
    requires
        forall|i: int| 0 <= i < s.len() ==> valid_die(#[trigger] s[i]),
        valid_die(x),
    ensures
        insert_one(s, x, asc).len() == s.len() + 1,
        forall|i: int| 0 <= i < s.len() + 1 ==> valid_die(#[trigger] insert_one(s, x, asc)[i]),
    decreases s.len(),
{
    if s.len() == 0 {
    } else if ordered(s.last(), x, asc) {
    } else {
        assert(forall|i: int|
            0 <= i < s.drop_last().len() ==> valid_die(#[trigger] s.drop_last()[i]));
        lemma_insert_one_valid(s.drop_last(), x, asc);
    }
}

/// Sorting a pool of valid dice yields valid dice of the same number.
pub proof fn lemma_sort_by_valid(s: Seq<DieRoll>, asc: bool)
    requires
        forall|i: int| 0 <= i < s.len() ==> valid_die(#[trigger] s[i]),
    ensures
        sort_by(s, asc).len() == s.len(),
        forall|i: int| 0 <= i < s.len() ==> valid_die(#[trigger] sort_by(s, asc)[i]),
    decreases s.len(),
{
    if s.len() > 0 {
        assert(forall|i: int|
            0 <= i < s.drop_last().len() ==> valid_die(#[trigger] s.drop_last()[i]));
        lemma_sort_by_valid(s.drop_last(), asc);
        lemma_insert_one_valid(sort_by(s.drop_last(), asc), s.last(), asc);
    }
}

/// Sorting a range keeps the machine well-formed.
proof fn lemma_sort_range_inv(
    rolls: Seq<DieRoll>,
    pools: Seq<(int, int)>,
    lo: int,
    hi: int,
    asc: bool,
)
    requires
        inv_state(rolls, pools),
        0 <= lo <= hi <= rolls.len(),
    ensures
        sort_range(rolls, lo, hi, asc).len() == rolls.len(),
        inv_state(sort_range(rolls, lo, hi, asc), pools),
{
    let sub = rolls.subrange(lo, hi);
    assert(forall|i: int| 0 <= i < sub.len() ==> valid_die(#[trigger] sub[i]));
    lemma_sort_by_valid(sub, asc);
    let sorted = sort_range(rolls, lo, hi, asc);
    assert(forall|i: int| 0 <= i < sorted.len() ==> valid_die(#[trigger] sorted[i]));
}

/// The machine preserves its well-formedness, leaves the pool stack as it
/// found it, and only adds rolls.
pub proof fn lemma_visit(e: Expr, mode: Mode, st: EvalState)
    requires
        inv_state(st.rolls, st.pools),
    ensures
        match visit_spec(e, mode, st) {
            Outcome::Done(st1) => inv_state(st1.rolls, st1.pools) && st1.pools == st.pools
                && st1.rolls.len() >= st.rolls.len(),
            _ => true,
        },
    decreases e, 1int,
{
    match e {
        Expr::Lit(l) => {},
        Expr::Neg(n) => {
            lemma_visit(*n.right, mode, st);
        },
        Expr::Add(b) => {
            lemma_visit(*b.left, mode, st);
            lemma_visit_binop(visit_spec(*b.left, mode, st), *b.right, mode, BinKind::Add, st);
        },
        Expr::Sub(b) => {
            lemma_visit(*b.left, mode, st);
            lemma_visit_binop(visit_spec(*b.left, mode, st), *b.right, mode, BinKind::Sub, st);
        },
        Expr::Mul(b) => {
            lemma_visit(*b.left, mode, st);
            lemma_visit_binop(visit_spec(*b.left, mode, st), *b.right, mode, BinKind::Mul, st);
        },
        Expr::Div(b) => {
            lemma_visit(*b.left, mode, st);
            lemma_visit_binop(visit_spec(*b.left, mode, st), *b.right, mode, BinKind::Div, st);
        },
        Expr::Roll(ro) => {
            lemma_visit(*ro.count, mode, st);
            match visit_spec(*ro.count, mode, st) {
                Outcome::Done(st1) => {
                    if st1.results.len() > 0 {
                        let st2 = EvalState { results: st1.results.drop_last(), ..st1 };
                        lemma_visit(*ro.sides, mode, st2);
                        match visit_spec(*ro.sides, mode, st2) {
                            Outcome::Done(st3) => {
                                if st3.results.len() > 0 {
                                    let count = st1.results.last();
                                    let sides = st3.results.last();
                                    let st4 = EvalState {
                                        results: st3.results.drop_last(),
                                        ..st3
                                    };
                                    if !(count < 0 || !crate::valid_sides(sides)) {
                                        lemma_visit_roll_dice(ro, mode, st4, count, sides);
                                    }
                                }
                            },
                            _ => {},
                        }
                    }
                },
                _ => {},
            }
        },
        Expr::Select(sel) => {
            if st.pools.len() > 0 {
                let pool = st.pools.last();
                match sel.selection {
                    Selection::Advantage | Selection::Disadvantage => {
                        lemma_visit_reroll(sel, mode, st, pool);
                    },
                    _ => {
                        lemma_visit_keep_drop(sel, mode, st, pool);
                    },
                }
            }
        },
    }
}

proof fn lemma_visit_binop(left_out: Outcome, right: Expr, mode: Mode, kind: BinKind, st: EvalState)
    requires
        match left_out {
            Outcome::Done(st1) => inv_state(st1.rolls, st1.pools) && st1.pools == st.pools
                && st1.rolls.len() >= st.rolls.len(),
            _ => true,
        },
    ensures
        match visit_binop(left_out, right, mode, kind) {
            Outcome::Done(st1) => inv_state(st1.rolls, st1.pools) && st1.pools == st.pools
                && st1.rolls.len() >= st.rolls.len(),
            _ => true,
        },
    decreases right, 2int,
{
    match left_out {
        Outcome::Done(st1) => {
            if st1.results.len() > 0 {
                let st2 = EvalState { results: st1.results.drop_last(), ..st1 };
                lemma_visit(right, mode, st2);
            }
        },
        _ => {},
    }
}

proof fn lemma_visit_roll_dice(ro: crate::ast::Roll, mode: Mode, st: EvalState, count: i32, sides: i32)
    requires
        inv_state(st.rolls, st.pools),
        count >= 0,
        crate::valid_sides(sides),
    ensures
        match visit_roll_dice(ro, mode, st, count, sides) {
            Outcome::Done(st1) => inv_state(st1.rolls, st1.pools) && st1.pools == st.pools
                && st1.rolls.len() >= st.rolls.len(),
            _ => true,
        },
    decreases ro.select, 2int,
{
    let lo = st.rolls.len() as int;
    lemma_roll_dice(mode, sides, count as nat, st.rolls, st.draws);
    match roll_dice(mode, sides, count as nat, st.rolls, st.draws) {
        None => {},
        Some((rolls1, draws1)) => {
            let pool = (lo, rolls1.len() as int);
            let st1 = EvalState { rolls: rolls1, draws: draws1, ..st };
            assert(rolls1.len() == st.rolls.len() + count);
            assert(forall|i: int| 0 <= i < rolls1.len() ==> valid_die(#[trigger] rolls1[i]));
            assert(forall|i: int|
                0 <= i < st1.pools.len() ==> 0 <= #[trigger] st1.pools[i].0 <= st1.pools[i].1
                    <= st1.rolls.len());
            assert(inv_state(st1.rolls, st1.pools));
            let after_sel: Outcome = match ro.select {
                None => Outcome::Done(st1),
                Some(sel) => {
                    let pushed = EvalState { pools: st1.pools.push(pool), ..st1 };
                    assert(inv_state(pushed.rolls, pushed.pools));
                    lemma_visit(*sel, mode, pushed);
                    match visit_spec(*sel, mode, pushed) {
                        Outcome::Done(st2) => {
                            assert(st2.pools.drop_last() =~= st1.pools);
                            Outcome::Done(EvalState { pools: st2.pools.drop_last(), ..st2 })
                        },
                        other => other,
                    }
                },
            };
            match after_sel {
                Outcome::Done(st3) => {
                    lemma_sort_range_inv(st3.rolls, st3.pools, lo, pool.1, false);
                },
                _ => {},
            }
        },
    }
}

proof fn lemma_visit_keep_drop(
    sel: crate::ast::Select,
    mode: Mode,
    st: EvalState,
    pool: (int, int),
)
    requires
        inv_state(st.rolls, st.pools),
        st.pools.len() > 0,
        pool == st.pools.last(),
    ensures
        match visit_keep_drop(sel, mode, st, pool) {
            Outcome::Done(st1) => inv_state(st1.rolls, st1.pools) && st1.pools == st.pools
                && st1.rolls.len() >= st.rolls.len(),
            _ => true,
        },
    decreases sel, 2int,
{
    let high = sel.selection == Selection::KeepHighest || sel.selection == Selection::DropHighest;
    let keep = sel.selection == Selection::KeepHighest || sel.selection == Selection::KeepLowest;
    match sel.count {
        Some(c) => {
            lemma_visit(*c, mode, st);
        },
        None => {},
    }
    let counted: Outcome = match sel.count {
        Some(c) => visit_spec(*c, mode, st),
        None => Outcome::Done(EvalState { results: st.results.push(1), ..st }),
    };
    match counted {
        Outcome::Done(st1) => {
            if st1.results.len() > 0 {
                let n = selection_size(st1.results.last());
                let st2 = EvalState { results: st1.results.drop_last(), ..st1 };
                let pool_size = pool.1 - pool.0;
                if !(n > pool_size) {
                    lemma_sort_range_inv(st2.rolls, st2.pools, pool.0, pool.1, !high);
                    let sorted = sort_range(st2.rolls, pool.0, pool.1, !high);
                    let marked = mark_selection(sorted, pool.0, n as int, pool.1, keep);
                    assert(forall|i: int|
                        0 <= i < marked.len() ==> valid_die(#[trigger] marked[i]) && marked[i].sides
                            == sorted[i].sides);
                    let st3 = EvalState { rolls: marked, ..st2 };
                    assert(inv_state(st3.rolls, st3.pools));
                    match sel.next {
                        None => {},
                        Some(nx) => {
                            let narrowed: (int, int) = if keep {
                                (pool.0, pool.0 + n)
                            } else {
                                (pool.0 + n, pool.1)
                            };
                            let pushed = EvalState { pools: st3.pools.push(narrowed), ..st3 };
                            assert(inv_state(pushed.rolls, pushed.pools));
                            lemma_visit(*nx, mode, pushed);
                            match visit_spec(*nx, mode, pushed) {
                                Outcome::Done(st4) => {
                                    assert(st4.pools.drop_last() =~= st3.pools);
                                },
                                _ => {},
                            }
                        },
                    }
                }
            }
        },
        _ => {},
    }
}

proof fn lemma_visit_reroll(
    sel: crate::ast::Select,
    mode: Mode,
    st: EvalState,
    pool: (int, int),
)
    requires
        inv_state(st.rolls, st.pools),
        st.pools.len() > 0,
        pool == st.pools.last(),
    ensures
        match visit_reroll(sel, mode, st, pool) {
            Outcome::Done(st1) => inv_state(st1.rolls, st1.pools) && st1.pools == st.pools
                && st1.rolls.len() >= st.rolls.len(),
            _ => true,
        },
    decreases sel, 2int,
{
    let k = (pool.1 - pool.0) as nat;
    lemma_reroll_dice(mode, st.rolls, pool.0, k, st.rolls, st.draws);
    match reroll_dice(mode, st.rolls, pool.0, k, st.rolls, st.draws) {
        None => {},
        Some((rolls1, draws1)) => {
            let new_lo = st.rolls.len() as int;
            let new_hi = rolls1.len() as int;
            let total_old = sum_results(rolls1, pool.0, pool.1);
            let total_new = sum_results(rolls1, new_lo, new_hi);
            let new_wins = (total_new > total_old) == (sel.selection == Selection::Advantage);
            let kept: (int, int) = if new_wins {
                (new_lo, new_hi)
            } else {
                pool
            };
            let marked = if new_wins {
                mark_dropped(rolls1, pool.0, pool.1)
            } else {
                mark_dropped(rolls1, new_lo, new_hi)
            };
            assert(forall|i: int|
                0 <= i < marked.len() ==> valid_die(#[trigger] marked[i]));
            let st1 = EvalState { rolls: marked, draws: draws1, ..st };
            assert(inv_state(st1.rolls, st1.pools));
            match sel.next {
                None => {},
                Some(nx) => {
                    let pushed = EvalState { pools: st1.pools.push(kept), ..st1 };
                    assert(inv_state(pushed.rolls, pushed.pools));
                    lemma_visit(*nx, mode, pushed);
                    match visit_spec(*nx, mode, pushed) {
                        Outcome::Done(st2) => {
                            assert(st2.pools.drop_last() =~= st1.pools);
                        },
                        _ => {},
                    }
                },
            }
        },
    }
}

/// Where an element lands when inserted: before the suffix of dice that
/// must come after it.
proof fn lemma_insert_at(pre: Seq<DieRoll>, x: DieRoll, k: int, asc: bool)
    requires
        0 <= k <= pre.len(),
        forall|m: int| k <= m < pre.len() ==> !ordered(#[trigger] pre[m], x, asc),
        k > 0 ==> ordered(pre[k - 1], x, asc),
    ensures
        insert_one(pre, x, asc) == pre.subrange(0, k) + seq![x] + pre.subrange(
            k,
            pre.len() as int,
        ),
    decreases pre.len(),
{
    if k == pre.len() {
        if pre.len() == 0 {
            assert(insert_one(pre, x, asc) =~= pre.subrange(0, k) + seq![x] + pre.subrange(
                k,
                pre.len() as int,
            ));
        } else {
            assert(insert_one(pre, x, asc) =~= pre.subrange(0, k) + seq![x] + pre.subrange(
                k,
                pre.len() as int,
            ));
        }
    } else {
        assert(!ordered(pre.last(), x, asc));
        let shorter = pre.drop_last();
        assert(forall|m: int| k <= m < shorter.len() ==> !ordered(#[trigger] shorter[m], x, asc));
        if k > 0 {
            assert(shorter[k - 1] == pre[k - 1]);
        }
        lemma_insert_at(shorter, x, k, asc);
        assert(insert_one(pre, x, asc) =~= pre.subrange(0, k) + seq![x] + pre.subrange(
            k,
            pre.len() as int,
        ));
    }
}

/// Whether `a` may stand before `b` in a pool ordered by result:
/// executable form of [`ordered`].
fn die_ordered(a: &DieRoll, b: &DieRoll, asc: bool) -> (r: bool)
    ensures
        r == ordered(*a, *b, asc),
{
    if asc {
        a.result <= b.result
    } else {
        a.result >= b.result
    }
}

/// Sort the dice at indices `[lo, hi)` by result, ascending or descending;
/// dice with equal results keep their relative order.
fn sort_pool(rolls: &mut Vec<DieRoll>, lo: usize, hi: usize, asc: bool)
    requires
        lo <= hi <= old(rolls)@.len(),
    ensures
        final(rolls)@ == sort_range(old(rolls)@, lo as int, hi as int, asc),
{
    let ghost orig = rolls@;
    let n = rolls.len();
    let mut i: usize = lo;
    while i < hi
        invariant
            lo <= i <= hi <= n,
            n == rolls@.len() == orig.len(),
            rolls@.subrange(0, lo as int) == orig.subrange(0, lo as int),
            rolls@.subrange(hi as int, n as int) == orig.subrange(hi as int, n as int),
            rolls@.subrange(lo as int, i as int) == sort_by(
                orig.subrange(lo as int, i as int),
                asc,
            ),
            rolls@.subrange(i as int, hi as int) == orig.subrange(i as int, hi as int),
        decreases hi - i,
    {
        let ghost base = rolls@;
        let ghost pre = base.subrange(lo as int, i as int);
        let ghost x = base[i as int];
        let mut j: usize = i;
        while j > lo && !die_ordered(&rolls[j - 1], &rolls[j], asc)
            invariant
                lo <= j <= i < hi <= n,
                n == rolls@.len() == base.len(),
                pre.len() == i - lo,
                forall|m: int|
                    0 <= m < n && !(lo as int <= m <= i as int) ==> rolls@[m] == base[m],
                rolls@[j as int] == x,
                forall|m: int| lo as int <= m < j as int ==> rolls@[m] == pre[m - lo],
                forall|m: int| (j as int) + 1 <= m <= i as int ==> rolls@[m] == pre[m - 1 - lo],
                forall|m: int| j - lo <= m < i - lo ==> !ordered(#[trigger] pre[m], x, asc),
            decreases j,
        {
            let upper = rolls[j];
            let lower = rolls[j - 1];
            proof {
                assert(upper == x);
                assert(lower == pre[j - 1 - lo]);
            }
            rolls[j] = lower;
            rolls[j - 1] = upper;
            j = j - 1;
        }
        proof {
            if j > lo {
                assert(rolls@[j as int - 1] == pre[j - 1 - lo]);
                assert(ordered(pre[j - lo - 1], x, asc));
            }
            lemma_insert_at(pre, x, j - lo, asc);
            assert(rolls@.subrange(lo as int, i as int + 1) =~= pre.subrange(0, j - lo)
                + seq![x] + pre.subrange(j - lo, i - lo));
            let grown = orig.subrange(lo as int, i as int + 1);
            assert(grown.drop_last() =~= orig.subrange(lo as int, i as int));
            assert(base.subrange(lo as int, i as int) == sort_by(
                orig.subrange(lo as int, i as int),
                asc,
            ));
            assert(pre == sort_by(orig.subrange(lo as int, i as int), asc));
            assert(grown.last() == orig[i as int]);
            assert(x == base.subrange(i as int, hi as int)[0]);
            assert(x == orig.subrange(i as int, hi as int)[0]);
            assert(grown.last() == x);
            assert(rolls@.subrange(lo as int, i as int + 1) == sort_by(grown, asc));
            assert forall|m: int| i as int <= m < hi as int implies #[trigger] base[m]
                == orig[m] by {
                assert(base.subrange(i as int, hi as int)[m - i as int] == orig.subrange(
                    i as int,
                    hi as int,
                )[m - i as int]);
            }
            assert forall|m: int| 0 <= m < lo as int implies #[trigger] base[m]
                == orig[m] by {
                assert(base.subrange(0, lo as int)[m] == orig.subrange(0, lo as int)[m]);
            }
            assert forall|m: int| hi as int <= m < n as int implies #[trigger] base[m]
                == orig[m] by {
                assert(base.subrange(hi as int, n as int)[m - hi as int] == orig.subrange(
                    hi as int,
                    n as int,
                )[m - hi as int]);
            }
            assert forall|m: int|
                0 <= m < n as int && !(lo as int <= m <= i as int) implies rolls@[m]
                == orig[m] by {
                assert(rolls@[m] == base[m]);
                assert(base[m] == orig[m]);
            }
            assert(rolls@.subrange(i as int + 1, hi as int) =~= orig.subrange(
                i as int + 1,
                hi as int,
            ));
            assert(rolls@.subrange(0, lo as int) =~= orig.subrange(0, lo as int));
            assert(rolls@.subrange(hi as int, n as int) =~= orig.subrange(
                hi as int,
                n as int,
            ));
        }
        i = i + 1;
    }
    proof {
        assert(rolls@ =~= sort_range(orig, lo as int, hi as int, asc));
    }
}

/// The machine on a whole tree from a fresh state: the result value or
/// error, with the rolls made. `None` when the draws do not fit; on the
/// values the dice actually showed the machine never gets stuck.
pub open spec fn eval_spec(e: Expr, mode: Mode, draws: Seq<i32>) -> Option<
    (Result<i32, Error>, Seq<DieRoll>),
> {
    let start = EvalState {
        rolls: Seq::empty(),
        results: Seq::empty(),
        pools: Seq::empty(),
        draws,
    };
    match visit_spec(e, mode, start) {
        Outcome::Stuck => None,
        Outcome::Halt(err, st) => Some((Err(err), st.rolls)),
        Outcome::Done(st) => {
            if st.results.len() == 1 {
                Some((Ok(st.results[0]), st.rolls))
            } else {
                Some((Err(Error::StackUnderflow), st.rolls))
            }
        },
    }
}

/// The pool stack as the mathematical machine sees it.
pub open spec fn pools_view(ps: Seq<(usize, usize)>) -> Seq<(int, int)> {
    ps.map_values(|p: (usize, usize)| (p.0 as int, p.1 as int))
}

/// An implementation of the dice machine: evaluates each node of the tree
/// using the stacks and returns the result of the expression along with
/// the individual die rolls.
pub struct Evaluator {
    /// The rolls made during the evaluation.
    pub rolls: Vec<DieRoll>,
    /// The evaluation strategy to use.
    evaluation: Evaluation,
    /// A stack of intermediate results. Once the traversal is complete,
    /// the stack holds a single value: the result of the expression.
    results: Vec<i32>,
    /// A stack of dice pools being selected from: ranges over `rolls`,
    /// pushed when a roll is made and narrowed by selection operations.
    dice_pools: Vec<(usize, usize)>,
    /// The values the dice showed, in the order they were drawn.
    draws: Ghost<Seq<i32>>,
}

impl Evaluator {
    /// The machine state this evaluator holds, with `ds` the values its
    /// dice have yet to show.
    pub closed spec fn state_with(&self, ds: Seq<i32>) -> EvalState {
        EvalState {
            rolls: self.rolls@,
            results: self.results@,
            pools: pools_view(self.dice_pools@),
            draws: ds,
        }
    }

    /// The values the dice have shown so far, in the order they were
    /// drawn.
    pub closed spec fn drawn(&self) -> Seq<i32> {
        self.draws@
    }

    /// The strategy this evaluator follows.
    pub closed spec fn strategy(&self) -> Mode {
        mode_of(self.evaluation)
    }

    /// The rolls made so far, as a sequence.
    pub closed spec fn rolls_view(&self) -> Seq<DieRoll> {
        self.rolls@
    }

    /// The machine's well-formedness.
    pub closed spec fn wf(&self) -> bool {
        inv_state(self.rolls@, pools_view(self.dice_pools@))
    }

    /// Build an evaluator that follows the given strategy.
    pub fn new(evaluation: Evaluation) -> (r: Evaluator)
        ensures
            r.strategy() == mode_of(evaluation),
            r.wf(),
            r.rolls_view() == Seq::<DieRoll>::empty(),
    {
        let r = Evaluator {
            evaluation,
            rolls: Vec::new(),
            results: Vec::new(),
            dice_pools: Vec::new(),
            draws: Ghost(Seq::empty()),
        };
        proof {
            assert(pools_view(r.dice_pools@) =~= Seq::<(int, int)>::empty());
        }
        r
    }

    /// Evaluate a tree: clear the prior roll history, run the machine over
    /// the tree, and return the single remaining result value, or the
    /// error the machine stopped with. The individual die outcomes are
    /// left in `rolls` in the order they were generated.
    pub fn eval(&mut self, node: &Expr) -> (r: Result<i32, Error>)
        ensures
            final(self).strategy() == old(self).strategy(),
            old(self).strategy() != Mode::Random ==> final(self).drawn() == Seq::<i32>::empty(),
            eval_spec(*node, old(self).strategy(), final(self).drawn()) == Some(
                (r, final(self).rolls_view()),
            ),
    {
        self.rolls = Vec::new();
        self.results = Vec::new();
        self.dice_pools = Vec::new();
        proof {
            self.draws@ = Seq::empty();
        }
        let ghost cleared = *self;
        proof {
            assert(pools_view(cleared.dice_pools@) =~= Seq::<(int, int)>::empty());
            assert(cleared.wf());
        }
        let res = self.visit(node);
        proof {
            let ds = self.drawn();
            assert(ds.skip(0).add(Seq::<i32>::empty()) =~= ds);
            assert(cleared.state_with(ds) == EvalState {
                rolls: Seq::empty(),
                results: Seq::empty(),
                pools: pools_view(cleared.dice_pools@),
                draws: ds,
            });
        }
        match res {
            Err(er) => Err(er),
            Ok(()) => {
                if self.results.len() == 1 {
                    match self.results.pop() {
                        Some(v) => Ok(v),
                        None => Err(Error::StackUnderflow),
                    }
                } else {
                    Err(Error::StackUnderflow)
                }
            },
        }
    }

    /// Draw one die value per the strategy, recording it when the
    /// generator chose it.
    fn draw_value(&mut self, sides: i32) -> (v: i32)
        requires
            crate::valid_sides(sides),
        ensures
            final(self).rolls@ == old(self).rolls@,
            final(self).results@ == old(self).results@,
            final(self).dice_pools@ == old(self).dice_pools@,
            final(self).strategy() == old(self).strategy(),
            match old(self).strategy() {
                Mode::Random => final(self).drawn() == old(self).drawn().push(v) && 1 <= v
                    <= sides,
                m => final(self).drawn() == old(self).drawn() && v == det_die(m, sides),
            },
    {
        match &mut self.evaluation {
            Evaluation::Rand(rng) => {
                let v = sample_die(rng, sides);
                proof {
                    self.draws@ = self.draws@.push(v);
                }
                v
            },
            Evaluation::Min => 1,
            Evaluation::Mid => ((sides as u32) / 2) as i32,
            Evaluation::Max => sides,
        }
    }

    /// Run the machine over one node.
    fn visit(&mut self, e: &Expr) -> (r: Result<(), Error>)
        requires
            old(self).wf(),
        ensures
            final(self).strategy() == old(self).strategy(),
            old(self).drawn().is_prefix_of(final(self).drawn()),
            old(self).strategy() != Mode::Random ==> final(self).drawn() == old(self).drawn(),
            r is Ok ==> final(self).wf(),
            visit_post(*e, *old(self), *final(self), r),
        decreases e, 1int,
    {
        match e {
            Expr::Lit(l) => {
                self.results.push(l.value);
                Ok(())
            },
            Expr::Neg(n) => {
                match self.visit(&n.right) {
                    Err(er) => {
                        return Err(er);
                    },
                    Ok(()) => {},
                }
                let popped = self.results.pop();
                match popped {
                    None => Err(Error::StackUnderflow),
                    Some(v) => {
                        let negated = if v == i32::MIN {
                            i32::MIN
                        } else {
                            -v
                        };
                        self.results.push(negated);
                        Ok(())
                    },
                }
            },
            Expr::Add(b) => self.binop(&b.left, &b.right, BinKind::Add, Ghost(*e)),
            Expr::Sub(b) => self.binop(&b.left, &b.right, BinKind::Sub, Ghost(*e)),
            Expr::Mul(b) => self.binop(&b.left, &b.right, BinKind::Mul, Ghost(*e)),
            Expr::Div(b) => self.binop(&b.left, &b.right, BinKind::Div, Ghost(*e)),
            Expr::Roll(ro) => self.roll_node(ro),
            Expr::Select(sel) => self.select_node(sel),
        }
    }

    /// Run the machine over the two operands of an arithmetic node and
    /// push the combination.
    fn binop(
        &mut self,
        left: &Expr,
        right: &Expr,
        kind: BinKind,
        parent: Ghost<Expr>,
    ) -> (r: Result<(), Error>)
        requires
            old(self).wf(),
            decreases_to!(parent@ => *left),
            decreases_to!(parent@ => *right),
        ensures
            final(self).strategy() == old(self).strategy(),
            old(self).drawn().is_prefix_of(final(self).drawn()),
            old(self).strategy() != Mode::Random ==> final(self).drawn() == old(self).drawn(),
            r is Ok ==> final(self).wf(),
            forall|ext: Seq<i32>|
                match r {
                    Ok(()) => visit_binop(
                        visit_spec(
                            *left,
                            old(self).strategy(),
                            old(self).state_with(
                                #[trigger] final(self).drawn().skip(
                                    old(self).drawn().len() as int,
                                ).add(ext),
                            ),
                        ),
                        *right,
                        old(self).strategy(),
                        kind,
                    ) == Outcome::Done(final(self).state_with(ext)),
                    Err(er) => visit_binop(
                        visit_spec(
                            *left,
                            old(self).strategy(),
                            old(self).state_with(
                                final(self).drawn().skip(old(self).drawn().len() as int).add(ext),
                            ),
                        ),
                        *right,
                        old(self).strategy(),
                        kind,
                    ) == Outcome::Halt(er, final(self).state_with(ext)),
                },
        decreases parent@, 0int,
    {
        let ghost pre = *self;
        let ghost mode = pre.strategy();
        match self.visit(left) {
            Err(er) => {
                proof {
                    let cc = self.drawn().skip(pre.drawn().len() as int);
                    assert forall|ext: Seq<i32>|
                        visit_binop(
                            visit_spec(*left, mode, pre.state_with(#[trigger] cc.add(ext))),
                            *right,
                            mode,
                            kind,
                        ) == Outcome::Halt(er, self.state_with(ext)) by {
                        assert(visit_spec(*left, mode, pre.state_with(cc.add(ext)))
                            == Outcome::Halt(er, self.state_with(ext)));
                    }
                }
                return Err(er);
            },
            Ok(()) => {},
        }
        let ghost s1 = *self;
        let lv = match self.results.pop() {
            Some(v) => v,
            None => {
                proof {
                    let cc = self.drawn().skip(pre.drawn().len() as int);
                    assert forall|ext: Seq<i32>|
                        visit_binop(
                            visit_spec(*left, mode, pre.state_with(#[trigger] cc.add(ext))),
                            *right,
                            mode,
                            kind,
                        ) == Outcome::Halt(Error::StackUnderflow, self.state_with(ext)) by {
                        assert(visit_spec(*left, mode, pre.state_with(cc.add(ext)))
                            == Outcome::Done(s1.state_with(ext)));
                        assert(s1.results@.len() == 0);
                        assert(self.state_with(ext) == s1.state_with(ext));
                    }
                }
                return Err(Error::StackUnderflow);
            },
        };
        let ghost s2 = *self;
        match self.visit(right) {
            Err(er) => {
                proof {
                    lemma_compose_prefix(pre.drawn(), s2.drawn(), self.drawn());
                    let cc = self.drawn().skip(pre.drawn().len() as int);
                    let c1 = s1.drawn().skip(pre.drawn().len() as int);
                    let c2 = self.drawn().skip(s2.drawn().len() as int);
                    assert forall|ext: Seq<i32>|
                        visit_binop(
                            visit_spec(*left, mode, pre.state_with(#[trigger] cc.add(ext))),
                            *right,
                            mode,
                            kind,
                        ) == Outcome::Halt(er, self.state_with(ext)) by {
                        let rest = c2.add(ext);
                        assert(cc.add(ext) =~= c1.add(rest));
                        assert(visit_spec(*left, mode, pre.state_with(c1.add(rest)))
                            == Outcome::Done(s1.state_with(rest)));
                        assert(s2.state_with(rest) == EvalState {
                            results: s1.state_with(rest).results.drop_last(),
                            ..s1.state_with(rest)
                        });
                        assert(visit_spec(*right, mode, s2.state_with(c2.add(ext)))
                            == Outcome::Halt(er, self.state_with(ext)));
                    }
                }
                return Err(er);
            },
            Ok(()) => {},
        }
        let ghost s3 = *self;
        proof {
            lemma_compose_prefix(pre.drawn(), s2.drawn(), self.drawn());
        }
        let rv = match self.results.pop() {
            Some(v) => v,
            None => {
                proof {
                    let cc = self.drawn().skip(pre.drawn().len() as int);
                    let c1 = s1.drawn().skip(pre.drawn().len() as int);
                    let c2 = self.drawn().skip(s2.drawn().len() as int);
                    assert forall|ext: Seq<i32>|
                        visit_binop(
                            visit_spec(*left, mode, pre.state_with(#[trigger] cc.add(ext))),
                            *right,
                            mode,
                            kind,
                        ) == Outcome::Halt(Error::StackUnderflow, self.state_with(ext)) by {
                        let rest = c2.add(ext);
                        assert(cc.add(ext) =~= c1.add(rest));
                        assert(visit_spec(*left, mode, pre.state_with(c1.add(rest)))
                            == Outcome::Done(s1.state_with(rest)));
                        assert(s2.state_with(rest) == EvalState {
                            results: s1.state_with(rest).results.drop_last(),
                            ..s1.state_with(rest)
                        });
                        assert(visit_spec(*right, mode, s2.state_with(c2.add(ext)))
                            == Outcome::Done(s3.state_with(ext)));
                        assert(s3.results@.len() == 0);
                        assert(self.state_with(ext) == s3.state_with(ext));
                    }
                }
                return Err(Error::StackUnderflow);
            },
        };
        let ghost s4 = *self;
        proof {
            assert(s4.results@ =~= s3.results@.drop_last());
        }
        let zero_divide = match kind {
            BinKind::Div => rv == 0,
            _ => false,
        };
        if zero_divide {
            proof {
                let cc = self.drawn().skip(pre.drawn().len() as int);
                let c1 = s1.drawn().skip(pre.drawn().len() as int);
                let c2 = self.drawn().skip(s2.drawn().len() as int);
                assert forall|ext: Seq<i32>|
                    visit_binop(
                        visit_spec(*left, mode, pre.state_with(#[trigger] cc.add(ext))),
                        *right,
                        mode,
                        kind,
                    ) == Outcome::Halt(Error::DivideByZero, self.state_with(ext)) by {
                    let rest = c2.add(ext);
                    assert(cc.add(ext) =~= c1.add(rest));
                    assert(visit_spec(*left, mode, pre.state_with(c1.add(rest)))
                        == Outcome::Done(s1.state_with(rest)));
                    assert(s2.state_with(rest) == EvalState {
                        results: s1.state_with(rest).results.drop_last(),
                        ..s1.state_with(rest)
                    });
                    assert(visit_spec(*right, mode, s2.state_with(c2.add(ext)))
                        == Outcome::Done(s3.state_with(ext)));
                    assert(s4.state_with(ext) == EvalState {
                        results: s3.state_with(ext).results.drop_last(),
                        ..s3.state_with(ext)
                    });
                }
            }
            return Err(Error::DivideByZero);
        }
        let outv = match kind {
            BinKind::Add => lv.wrapping_add(rv),
            BinKind::Sub => lv.wrapping_sub(rv),
            BinKind::Mul => lv.wrapping_mul(rv),
            BinKind::Div => div_wrap(lv, rv),
        };
        self.results.push(outv);
        proof {
            let cc = self.drawn().skip(pre.drawn().len() as int);
            let c1 = s1.drawn().skip(pre.drawn().len() as int);
            let c2 = self.drawn().skip(s2.drawn().len() as int);
            assert forall|ext: Seq<i32>|
                visit_binop(
                    visit_spec(*left, mode, pre.state_with(#[trigger] cc.add(ext))),
                    *right,
                    mode,
                    kind,
                ) == Outcome::Done(self.state_with(ext)) by {
                let rest = c2.add(ext);
                assert(cc.add(ext) =~= c1.add(rest));
                assert(visit_spec(*left, mode, pre.state_with(c1.add(rest)))
                    == Outcome::Done(s1.state_with(rest)));
                assert(s2.state_with(rest) == EvalState {
                    results: s1.state_with(rest).results.drop_last(),
                    ..s1.state_with(rest)
                });
                assert(visit_spec(*right, mode, s2.state_with(c2.add(ext)))
                    == Outcome::Done(s3.state_with(ext)));
                assert(s4.state_with(ext) == EvalState {
                    results: s3.state_with(ext).results.drop_last(),
                    ..s3.state_with(ext)
                });
                assert(self.results@ == s4.results@.push(outv));
            }
        }
        Ok(())
    }

    /// Run the machine over a roll node: evaluate count and sides, append
    /// the fresh dice, run the selection chain over their pool, re-sort
    /// the pool descending, and push the sum of the kept records from the
    /// pool's start through the end of the roll list.
    #[verifier::rlimit(100)]
    fn roll_node(&mut self, ro: &crate::ast::Roll) -> (r: Result<(), Error>)
        requires
            old(self).wf(),
        ensures
            final(self).strategy() == old(self).strategy(),
            old(self).drawn().is_prefix_of(final(self).drawn()),
            old(self).strategy() != Mode::Random ==> final(self).drawn() == old(self).drawn(),
            r is Ok ==> final(self).wf(),
            visit_post(Expr::Roll(*ro), *old(self), *final(self), r),
        decreases ro, 2int,
    {
        let ghost pre = *self;
        let ghost mode = pre.strategy();
        match self.visit(&ro.count) {
            Err(er) => {
                proof {
                    let cc = self.drawn().skip(pre.drawn().len() as int);
                    assert forall|ext: Seq<i32>|
                        visit_spec(
                            Expr::Roll(*ro),
                            mode,
                            pre.state_with(#[trigger] cc.add(ext)),
                        ) == Outcome::Halt(er, self.state_with(ext)) by {
                        assert(visit_spec(*ro.count, mode, pre.state_with(cc.add(ext)))
                            == Outcome::Halt(er, self.state_with(ext)));
                    }
                }
                return Err(er);
            },
            Ok(()) => {},
        }
        let ghost s1 = *self;
        let cv = match self.results.pop() {
            Some(v) => v,
            None => {
                proof {
                    let cc = self.drawn().skip(pre.drawn().len() as int);
                    assert forall|ext: Seq<i32>|
                        visit_spec(
                            Expr::Roll(*ro),
                            mode,
                            pre.state_with(#[trigger] cc.add(ext)),
                        ) == Outcome::Halt(Error::StackUnderflow, self.state_with(ext)) by {
                        assert(visit_spec(*ro.count, mode, pre.state_with(cc.add(ext)))
                            == Outcome::Done(s1.state_with(ext)));
                        assert(s1.results@.len() == 0);
                        assert(self.state_with(ext) == s1.state_with(ext));
                    }
                }
                return Err(Error::StackUnderflow);
            },
        };
        let ghost s2 = *self;
        proof {
            assert(s2.results@ =~= s1.results@.drop_last());
        }
        match self.visit(&ro.sides) {
            Err(er) => {
                proof {
                    lemma_compose_prefix(pre.drawn(), s2.drawn(), self.drawn());
                    let cc = self.drawn().skip(pre.drawn().len() as int);
                    let c1 = s1.drawn().skip(pre.drawn().len() as int);
                    let c2 = self.drawn().skip(s2.drawn().len() as int);
                    assert forall|ext: Seq<i32>|
                        visit_spec(
                            Expr::Roll(*ro),
                            mode,
                            pre.state_with(#[trigger] cc.add(ext)),
                        ) == Outcome::Halt(er, self.state_with(ext)) by {
                        let rest = c2.add(ext);
                        assert(cc.add(ext) =~= c1.add(rest));
                        assert(visit_spec(*ro.count, mode, pre.state_with(c1.add(rest)))
                            == Outcome::Done(s1.state_with(rest)));
                        assert(s2.state_with(rest) == EvalState {
                            results: s1.state_with(rest).results.drop_last(),
                            ..s1.state_with(rest)
                        });
                        assert(visit_spec(*ro.sides, mode, s2.state_with(c2.add(ext)))
                            == Outcome::Halt(er, self.state_with(ext)));
                    }
                }
                return Err(er);
            },
            Ok(()) => {},
        }
        let ghost s3 = *self;
        proof {
            lemma_compose_prefix(pre.drawn(), s2.drawn(), self.drawn());
        }
        let sv = match self.results.pop() {
            Some(v) => v,
            None => {
                proof {
                    let cc = self.drawn().skip(pre.drawn().len() as int);
                    let c1 = s1.drawn().skip(pre.drawn().len() as int);
                    let c2 = self.drawn().skip(s2.drawn().len() as int);
                    assert forall|ext: Seq<i32>|
                        visit_spec(
                            Expr::Roll(*ro),
                            mode,
                            pre.state_with(#[trigger] cc.add(ext)),
                        ) == Outcome::Halt(Error::StackUnderflow, self.state_with(ext)) by {
                        let rest = c2.add(ext);
                        assert(cc.add(ext) =~= c1.add(rest));
                        assert(visit_spec(*ro.count, mode, pre.state_with(c1.add(rest)))
                            == Outcome::Done(s1.state_with(rest)));
                        assert(s2.state_with(rest) == EvalState {
                            results: s1.state_with(rest).results.drop_last(),
                            ..s1.state_with(rest)
                        });
                        assert(visit_spec(*ro.sides, mode, s2.state_with(c2.add(ext)))
                            == Outcome::Done(s3.state_with(ext)));
                        assert(s3.results@.len() == 0);
                        assert(self.state_with(ext) == s3.state_with(ext));
                    }
                }
                return Err(Error::StackUnderflow);
            },
        };
        let ghost s4 = *self;
        proof {
            assert(s4.results@ =~= s3.results@.drop_last());
        }
        if cv < 0 || !crate::is_valid_sides(sv) {
            proof {
                let cc = self.drawn().skip(pre.drawn().len() as int);
                let c1 = s1.drawn().skip(pre.drawn().len() as int);
                let c2 = self.drawn().skip(s2.drawn().len() as int);
                assert forall|ext: Seq<i32>|
                    visit_spec(Expr::Roll(*ro), mode, pre.state_with(#[trigger] cc.add(ext)))
                        == Outcome::Halt(Error::StackUnderflow, self.state_with(ext)) by {
                    let rest = c2.add(ext);
                    assert(cc.add(ext) =~= c1.add(rest));
                    assert(visit_spec(*ro.count, mode, pre.state_with(c1.add(rest)))
                        == Outcome::Done(s1.state_with(rest)));
                    assert(s2.state_with(rest) == EvalState {
                        results: s1.state_with(rest).results.drop_last(),
                        ..s1.state_with(rest)
                    });
                    assert(visit_spec(*ro.sides, mode, s2.state_with(c2.add(ext)))
                        == Outcome::Done(s3.state_with(ext)));
                    assert(s4.state_with(ext) == EvalState {
                        results: s3.state_with(ext).results.drop_last(),
                        ..s3.state_with(ext)
                    });
                }
            }
            return Err(Error::StackUnderflow);
        }

        // Append `cv` fresh dice.
        let n = cv as usize;
        let lo = self.rolls.len();
        let ghost base_rolls = self.rolls@;
        let ghost dstart = self.drawn();
        proof {
            assert forall|ext: Seq<i32>|
                roll_dice(
                    mode,
                    sv,
                    0nat,
                    base_rolls,
                    #[trigger] self.drawn().skip(dstart.len() as int).add(ext),
                ) == Some((base_rolls, ext)) by {
                assert(self.drawn().skip(dstart.len() as int).add(ext) =~= ext);
            }
        }
        let mut idx: usize = 0;
        while idx < n
            invariant
                idx <= n,
                n == cv as int,
                crate::valid_sides(sv),
                self.strategy() == mode,
                self.results@ == s4.results@,
                self.dice_pools@ == s4.dice_pools@,
                self.wf(),
                dstart.is_prefix_of(self.drawn()),
                mode != Mode::Random ==> self.drawn() == dstart,
                base_rolls.len() == lo,
                self.rolls@.len() == lo + idx,
                forall|ext: Seq<i32>|
                    roll_dice(
                        mode,
                        sv,
                        idx as nat,
                        base_rolls,
                        #[trigger] self.drawn().skip(dstart.len() as int).add(ext),
                    ) == Some((self.rolls@, ext)),
            decreases n - idx,
        {
            let ghost it = *self;
            let v = self.draw_value(sv);
            self.rolls.push(DieRoll { sides: sv, result: v, keep: true });
            proof {
                let cprev = it.drawn().skip(dstart.len() as int);
                let cnow = self.drawn().skip(dstart.len() as int);
                assert forall|ext: Seq<i32>|
                    roll_dice(mode, sv, (idx + 1) as nat, base_rolls, #[trigger] cnow.add(ext))
                        == Some((self.rolls@, ext)) by {
                    if mode == Mode::Random {
                        assert(cnow =~= cprev.push(v));
                        assert(cnow.add(ext) =~= cprev.add(seq![v].add(ext)));
                        assert(roll_dice(mode, sv, idx as nat, base_rolls, cprev.add(
                            seq![v].add(ext),
                        )) == Some((it.rolls@, seq![v].add(ext))));
                        assert(seq![v].add(ext)[0] == v);
                        assert(seq![v].add(ext).skip(1) =~= ext);
                    } else {
                        assert(cnow == cprev);
                        assert(roll_dice(mode, sv, idx as nat, base_rolls, cnow.add(ext))
                            == Some((it.rolls@, ext)));
                        assert(v == det_die(mode, sv));
                    }
                }
                assert(inv_state(self.rolls@, pools_view(self.dice_pools@)));
            }
            idx = idx + 1;
        }
        let hi = self.rolls.len();
        let ghost s5 = *self;
        let ghost mut s5p = s5;
        let ghost mut s6p = s5;

        // Run the selection chain over the new pool, if one is attached.
        if let Some(sel) = &ro.select {
            self.dice_pools.push((lo, hi));
            proof {
                s5p = *self;
            }
            proof {
                assert(pools_view(s5p.dice_pools@) =~= pools_view(s5.dice_pools@).push(
                    (lo as int, hi as int),
                ));
                assert(s5p.wf());
            }
            match self.visit(sel) {
                Err(er) => {
                    proof {
                        let cc = self.drawn().skip(pre.drawn().len() as int);
                        let c1 = s1.drawn().skip(pre.drawn().len() as int);
                        let c2 = s3.drawn().skip(s1.drawn().len() as int);
                        let c3 = s5.drawn().skip(s3.drawn().len() as int);
                        let c4 = self.drawn().skip(s5.drawn().len() as int);
                        lemma_compose_prefix(pre.drawn(), s1.drawn(), self.drawn());
                        lemma_compose_prefix(s1.drawn(), s3.drawn(), self.drawn());
                        lemma_compose_prefix(s3.drawn(), s5.drawn(), self.drawn());
                        assert forall|ext: Seq<i32>|
                            visit_spec(
                                Expr::Roll(*ro),
                                mode,
                                pre.state_with(#[trigger] cc.add(ext)),
                            ) == Outcome::Halt(er, self.state_with(ext)) by {
                            let rest1 = c2.add(c3.add(c4.add(ext)));
                            let rest2 = c3.add(c4.add(ext));
                            let rest3 = c4.add(ext);
                            assert(cc.add(ext) =~= c1.add(rest1));
                            assert(visit_spec(*ro.count, mode, pre.state_with(c1.add(rest1)))
                                == Outcome::Done(s1.state_with(rest1)));
                            assert(s2.state_with(rest1) == EvalState {
                                results: s1.state_with(rest1).results.drop_last(),
                                ..s1.state_with(rest1)
                            });
                            assert(cv == s1.results@.last());
                            assert(rest1 =~= c2.add(rest2));
                            assert(visit_spec(*ro.sides, mode, s2.state_with(c2.add(rest2)))
                                == Outcome::Done(s3.state_with(rest2)));
                            assert(s4.state_with(rest2) == EvalState {
                                results: s3.state_with(rest2).results.drop_last(),
                                ..s3.state_with(rest2)
                            });
                            assert(sv == s3.results@.last());
                            assert(rest2 =~= c3.add(rest3));
                            assert(roll_dice(mode, sv, n as nat, base_rolls, c3.add(rest3))
                                == Some((s5.rolls@, rest3)));
                            assert(s5.rolls@.len() == hi);
                            let c4sel = self.drawn().skip(s5p.drawn().len() as int);
                            assert(c4sel == c4);
                            assert(visit_spec(**sel, mode, s5p.state_with(c4sel.add(ext)))
                                == Outcome::Halt(er, self.state_with(ext)));
                            assert(s5p.state_with(c4sel.add(ext)) == EvalState {
                                pools: s5.state_with(rest3).pools.push((lo as int, hi as int)),
                                ..s5.state_with(rest3)
                            });
                            assert(visit_roll_dice(*ro, mode, s4.state_with(rest2), cv, sv)
                                == Outcome::Halt(er, self.state_with(ext)));
                        }
                    }
                    return Err(er);
                },
                Ok(()) => {},
            }
            proof {
                let dsel = self.drawn().skip(s5p.drawn().len() as int);
                assert(visit_spec(**sel, mode, s5p.state_with(dsel.add(Seq::<i32>::empty())))
                    == Outcome::Done(self.state_with(Seq::<i32>::empty())));
                lemma_visit(**sel, mode, s5p.state_with(dsel.add(Seq::<i32>::empty())));
                assert(pools_view(self.dice_pools@).len() == pools_view(s5p.dice_pools@).len());
                assert(self.dice_pools@.len() > 0);
                assert(self.rolls@.len() >= hi);
            }
            proof {
                s6p = *self;
            }
            self.dice_pools.pop();
            proof {
                assert(pools_view(self.dice_pools@) =~= pools_view(s6p.dice_pools@).drop_last());
            }
        }
        let ghost s6 = *self;
        proof {
            lemma_compose_prefix(s4.drawn(), s5.drawn(), self.drawn());
            lemma_compose_prefix(s2.drawn(), s4.drawn(), self.drawn());
            lemma_compose_prefix(pre.drawn(), s2.drawn(), self.drawn());
            assert(lo <= hi <= self.rolls@.len());
        }

        // Re-sort the pool descending and push the sum of the kept
        // records from the pool's start to the end of the list.
        sort_pool(&mut self.rolls, lo, hi, false);
        let ghost sorted = self.rolls@;
        let len = self.rolls.len();
        let mut total: i32 = 0;
        let mut m: usize = lo;
        while m < len
            invariant
                lo <= m <= len,
                len == self.rolls@.len(),
                self.rolls@ == sorted,
                self.results@ == s6.results@,
                self.dice_pools@ == s6.dice_pools@,
                self.drawn() == s6.drawn(),
                self.strategy() == mode,
                total == sum_kept(sorted, lo as int, m as int),
            decreases len - m,
        {
            let d = self.rolls[m];
            if d.keep {
                total = total.wrapping_add(d.result);
            } else {
                proof {
                    assert(wadd(total, 0) == total);
                }
            }
            m = m + 1;
        }
        self.results.push(total);

        proof {
            let ctotal = self.drawn().skip(pre.drawn().len() as int);
            let c1 = s1.drawn().skip(pre.drawn().len() as int);
            let c2 = s3.drawn().skip(s1.drawn().len() as int);
            let c3 = s5.drawn().skip(s3.drawn().len() as int);
            let c4 = s6.drawn().skip(s5.drawn().len() as int);
            lemma_compose_prefix(pre.drawn(), s1.drawn(), self.drawn());
            lemma_compose_prefix(s1.drawn(), s3.drawn(), self.drawn());
            lemma_compose_prefix(s3.drawn(), s5.drawn(), self.drawn());
            lemma_compose_prefix(s5.drawn(), s6.drawn(), self.drawn());
            assert(self.drawn() == s6.drawn());
            assert forall|ext: Seq<i32>|
                visit_spec(
                    Expr::Roll(*ro),
                    mode,
                    pre.state_with(#[trigger] ctotal.add(ext)),
                ) == Outcome::Done(self.state_with(ext)) by {
                let rest1 = c2.add(c3.add(c4.add(ext)));
                let rest2 = c3.add(c4.add(ext));
                let rest3 = c4.add(ext);
                assert(ctotal.add(ext) =~= c1.add(rest1));
                assert(visit_spec(*ro.count, mode, pre.state_with(c1.add(rest1)))
                    == Outcome::Done(s1.state_with(rest1)));
                assert(s2.state_with(rest1) == EvalState {
                    results: s1.state_with(rest1).results.drop_last(),
                    ..s1.state_with(rest1)
                });
                assert(cv == s1.results@.last());
                assert(rest1 =~= c2.add(rest2));
                assert(visit_spec(*ro.sides, mode, s2.state_with(c2.add(rest2)))
                    == Outcome::Done(s3.state_with(rest2)));
                assert(s4.state_with(rest2) == EvalState {
                    results: s3.state_with(rest2).results.drop_last(),
                    ..s3.state_with(rest2)
                });
                assert(sv == s3.results@.last());
                assert(rest2 =~= c3.add(rest3));
                assert(roll_dice(mode, sv, n as nat, base_rolls, c3.add(rest3)) == Some(
                    (s5.rolls@, rest3),
                ));
                assert(s5.rolls@.len() == hi);
                match ro.select {
                    None => {
                        assert(s6 == s5);
                        assert(rest3 =~= ext);
                        assert(visit_roll_dice(*ro, mode, s4.state_with(rest2), cv, sv)
                            == Outcome::Done(self.state_with(ext)));
                    },
                    Some(selx) => {
                        assert(rest3 =~= c4.add(ext));
                        let csel4 = s6p.drawn().skip(s5p.drawn().len() as int);
                        assert(csel4 == c4);
                        assert(visit_spec(*selx, mode, s5p.state_with(csel4.add(ext)))
                            == Outcome::Done(s6p.state_with(ext)));
                        assert(s5p.state_with(csel4.add(ext)) == EvalState {
                            pools: s5.state_with(rest3).pools.push((lo as int, hi as int)),
                            ..s5.state_with(rest3)
                        });
                        assert(EvalState {
                            pools: s6p.state_with(ext).pools.drop_last(),
                            ..s6p.state_with(ext)
                        } == s6.state_with(ext));
                        assert(visit_roll_dice(*ro, mode, s4.state_with(rest2), cv, sv)
                            == Outcome::Done(self.state_with(ext)));
                    },
                }
            }
            assert(visit_post(Expr::Roll(*ro), pre, *self, Result::<(), Error>::Ok(())));
            lemma_visit(Expr::Roll(*ro), mode, pre.state_with(ctotal));
            assert(visit_spec(Expr::Roll(*ro), mode, pre.state_with(ctotal.add(
                Seq::<i32>::empty(),
            ))) == Outcome::Done(self.state_with(Seq::<i32>::empty())));
            assert(ctotal.add(Seq::<i32>::empty()) =~= ctotal);
            assert(self.wf());
        }
        Ok(())
    }

    /// Run the machine over a selection node against the active pool.
    fn select_node(&mut self, sel: &crate::ast::Select) -> (r: Result<(), Error>)
        requires
            old(self).wf(),
        ensures
            final(self).strategy() == old(self).strategy(),
            old(self).drawn().is_prefix_of(final(self).drawn()),
            old(self).strategy() != Mode::Random ==> final(self).drawn() == old(self).drawn(),
            r is Ok ==> final(self).wf(),
            visit_post(Expr::Select(*sel), *old(self), *final(self), r),
        decreases sel, 2int,
    {
        let ghost pre = *self;
        let ghost mode = pre.strategy();
        if self.dice_pools.len() == 0 {
            proof {
                assert(pools_view(self.dice_pools@).len() == 0);
            }
            return Err(Error::StackUnderflow);
        }
        let pool = self.dice_pools[self.dice_pools.len() - 1];
        let plo = pool.0;
        let phi = pool.1;
        let ghost spool = pools_view(pre.dice_pools@).last();
        proof {
            assert(spool == (plo as int, phi as int));
            assert(0 <= spool.0 <= spool.1 <= pre.rolls@.len());
        }
        match sel.selection {
            Selection::Advantage | Selection::Disadvantage => self.reroll_node(sel, plo, phi),
            _ => self.keep_drop_node(sel, plo, phi),
        }
    }

    /// The keep/drop selections: sort the pool, mark the chosen dice, and
    /// run any chained selection over the side that was kept.
    #[verifier::rlimit(100)]
    fn keep_drop_node(&mut self, sel: &crate::ast::Select, plo: usize, phi: usize) -> (r: Result<
        (),
        Error,
    >)
        requires
            old(self).wf(),
            old(self).dice_pools@.len() > 0,
            old(self).dice_pools@.last() == (plo, phi),
            sel.selection != Selection::Advantage && sel.selection != Selection::Disadvantage,
        ensures
            final(self).strategy() == old(self).strategy(),
            old(self).drawn().is_prefix_of(final(self).drawn()),
            old(self).strategy() != Mode::Random ==> final(self).drawn() == old(self).drawn(),
            r is Ok ==> final(self).wf(),
            visit_post(Expr::Select(*sel), *old(self), *final(self), r),
        decreases sel, 1int,
    {
        let ghost pre = *self;
        let ghost mode = pre.strategy();
        proof {
            assert(pools_view(pre.dice_pools@).last() == (plo as int, phi as int));
            assert(0 <= plo <= phi <= pre.rolls@.len());
        }
        let high = match sel.selection {
            Selection::KeepHighest => true,
            Selection::DropHighest => true,
            _ => false,
        };
        let keep = match sel.selection {
            Selection::KeepHighest => true,
            Selection::KeepLowest => true,
            _ => false,
        };

        let ghost mut svisit = pre;
        let counted: i32 = match &sel.count {
            Some(c) => {
                match self.visit(c) {
                    Err(er) => {
                        proof {
                            let cc = self.drawn().skip(pre.drawn().len() as int);
                            assert forall|ext: Seq<i32>|
                                visit_spec(
                                    Expr::Select(*sel),
                                    mode,
                                    pre.state_with(#[trigger] cc.add(ext)),
                                ) == Outcome::Halt(er, self.state_with(ext)) by {
                                let st = pre.state_with(cc.add(ext));
                                assert(visit_spec(*(sel.count->Some_0), mode, st)
                                    == Outcome::Halt(er, self.state_with(ext)));
                                assert(st.pools.len() > 0);
                                assert(st.pools.last() == (plo as int, phi as int));
                                assert(visit_keep_drop(*sel, mode, st, st.pools.last())
                                    == Outcome::Halt(er, self.state_with(ext)));
                                assert(visit_spec(Expr::Select(*sel), mode, st)
                                    == visit_keep_drop(*sel, mode, st, st.pools.last()));
                            }
                        }
                        return Err(er);
                    },
                    Ok(()) => {},
                }
                proof {
                    svisit = *self;
                }
                match self.results.pop() {
                    Some(v) => v,
                    None => {
                        proof {
                            let cc = self.drawn().skip(pre.drawn().len() as int);
                            assert forall|ext: Seq<i32>|
                                visit_spec(
                                    Expr::Select(*sel),
                                    mode,
                                    pre.state_with(#[trigger] cc.add(ext)),
                                ) == Outcome::Halt(Error::StackUnderflow, self.state_with(ext)) by {
                                let st = pre.state_with(cc.add(ext));
                                assert(visit_spec(*(sel.count->Some_0), mode, st)
                                    == Outcome::Done(svisit.state_with(ext)));
                                assert(svisit.results@.len() == 0);
                                assert(self.state_with(ext) == svisit.state_with(ext));
                                assert(visit_keep_drop(*sel, mode, st, st.pools.last())
                                    == Outcome::Halt(Error::StackUnderflow, self.state_with(
                                    ext,
                                )));
                            }
                        }
                        return Err(Error::StackUnderflow);
                    },
                }
            },
            None => 1,
        };
        let ghost s1 = *self;
        let ghost csel = s1.drawn().skip(pre.drawn().len() as int);
        proof {
            if sel.count is Some {
                assert(svisit.results@ =~= s1.results@.push(counted));
                assert(visit_spec(
                    *(sel.count->Some_0),
                    mode,
                    pre.state_with(csel.add(Seq::<i32>::empty())),
                ) == Outcome::Done(svisit.state_with(Seq::<i32>::empty())));
                lemma_visit(
                    *(sel.count->Some_0),
                    mode,
                    pre.state_with(csel.add(Seq::<i32>::empty())),
                );
                assert(s1.rolls@.len() >= pre.rolls@.len());
            }
            assert(phi <= s1.rolls@.len());
            assert(inv_state(s1.rolls@, pools_view(s1.dice_pools@)));
        }

        let n = sel_size(counted);
        let pool_len = phi - plo;
        if n > pool_len {
            proof {
                let cc = self.drawn().skip(pre.drawn().len() as int);
                let halted = Error::InvalidSelection { selection_size: n, pool_size: pool_len };
                assert forall|ext: Seq<i32>|
                    visit_spec(
                        Expr::Select(*sel),
                        mode,
                        pre.state_with(#[trigger] cc.add(ext)),
                    ) == Outcome::Halt(halted, self.state_with(ext)) by {
                    let st = pre.state_with(cc.add(ext));
                    match sel.count {
                        Some(c) => {
                            assert(visit_spec(*c, mode, st) == Outcome::Done(
                                svisit.state_with(ext),
                            ));
                            assert(svisit.results@.len() > 0 && svisit.results@.last()
                                == counted);
                            assert(EvalState {
                                results: svisit.state_with(ext).results.drop_last(),
                                ..svisit.state_with(ext)
                            } == s1.state_with(ext));
                        },
                        None => {
                            assert(cc.add(ext) =~= ext);
                            assert(st.results.push(1).drop_last() =~= st.results);
                            assert(EvalState {
                                results: st.results.push(1).drop_last(),
                                ..st
                            } == self.state_with(ext));
                        },
                    }
                    assert(visit_keep_drop(*sel, mode, st, st.pools.last()) == Outcome::Halt(
                        halted,
                        self.state_with(ext),
                    ));
                }
            }
            return Err(
                Error::InvalidSelection { selection_size: n, pool_size: pool_len },
            );
        }

        sort_pool(&mut self.rolls, plo, phi, !high);
        let ghost sorted = self.rolls@;
        proof {
            lemma_sort_range_inv(
                s1.rolls@,
                pools_view(s1.dice_pools@),
                plo as int,
                phi as int,
                !high,
            );
        }

        // Mark the first `n` dice of the pool and the remainder.
        let mut m: usize = plo;
        while m < plo + n
            invariant
                plo <= m <= plo + n <= phi <= self.rolls@.len(),
                self.rolls@.len() == sorted.len(),
                self.results@ == s1.results@,
                self.dice_pools@ == s1.dice_pools@,
                self.drawn() == s1.drawn(),
                self.strategy() == mode,
                forall|i: int|
                    0 <= i < sorted.len() && !(plo as int <= i < m as int) ==> self.rolls@[i]
                        == sorted[i],
                forall|i: int|
                    plo as int <= i < m as int ==> self.rolls@[i] == (DieRoll {
                        keep,
                        ..sorted[i]
                    }),
            decreases plo + n - m,
        {
            let d = self.rolls[m];
            self.rolls[m] = DieRoll { sides: d.sides, result: d.result, keep };
            m = m + 1;
        }
        let mut m2: usize = plo + n;
        while m2 < phi
            invariant
                plo + n <= m2 <= phi <= self.rolls@.len(),
                self.rolls@.len() == sorted.len(),
                self.results@ == s1.results@,
                self.dice_pools@ == s1.dice_pools@,
                self.drawn() == s1.drawn(),
                self.strategy() == mode,
                forall|i: int|
                    0 <= i < sorted.len() && !(plo as int <= i < m2 as int) ==> self.rolls@[i]
                        == sorted[i],
                forall|i: int|
                    plo as int <= i < plo + n ==> self.rolls@[i] == (DieRoll {
                        keep,
                        ..sorted[i]
                    }),
                forall|i: int|
                    plo + n <= i < m2 as int ==> self.rolls@[i] == (DieRoll {
                        keep: !keep,
                        ..sorted[i]
                    }),
            decreases phi - m2,
        {
            let d = self.rolls[m2];
            self.rolls[m2] = DieRoll { sides: d.sides, result: d.result, keep: !keep };
            m2 = m2 + 1;
        }
        proof {
            assert(self.rolls@ =~= mark_selection(
                sorted,
                plo as int,
                n as int,
                phi as int,
                keep,
            ));
        }
        let ghost s2 = *self;
        let narrowed = if keep {
            (plo, plo + n)
        } else {
            (plo + n, phi)
        };
        let ghost mut s2p = s2;
        let ghost mut s3p = s2;

        // Chain into the kept side, if a further selection follows.
        if let Some(nx) = &sel.next {
            self.dice_pools.push(narrowed);
            proof {
                s2p = *self;
            }
            proof {
                assert(pools_view(s2p.dice_pools@) =~= pools_view(s2.dice_pools@).push(
                    (narrowed.0 as int, narrowed.1 as int),
                ));
                assert(forall|i: int|
                    0 <= i < s2.rolls@.len() ==> valid_die(#[trigger] s2.rolls@[i]));
                assert(s2p.wf());
            }
            match self.visit(nx) {
                Err(er) => {
                    proof {
                        lemma_compose_prefix(pre.drawn(), s2p.drawn(), self.drawn());
                        let cc = self.drawn().skip(pre.drawn().len() as int);
                        let cnx = self.drawn().skip(s2p.drawn().len() as int);
                        assert forall|ext: Seq<i32>|
                            visit_spec(
                                Expr::Select(*sel),
                                mode,
                                pre.state_with(#[trigger] cc.add(ext)),
                            ) == Outcome::Halt(er, self.state_with(ext)) by {
                            let rest1 = cnx.add(ext);
                            assert(cc.add(ext) =~= csel.add(rest1));
                            match sel.count {
                                Some(c) => {
                                    assert(visit_spec(*c, mode, pre.state_with(csel.add(rest1)))
                                        == Outcome::Done(svisit.state_with(rest1)));
                                    assert(svisit.state_with(rest1) == s1.state_with(
                                        rest1,
                                    ).with_pushed(counted));
                                },
                                None => {
                                    assert(csel =~= Seq::<i32>::empty());
                                    assert(csel.add(rest1) =~= rest1);
                                },
                            }
                            assert(s1.state_with(rest1).with_pushed(counted).results.drop_last()
                                =~= s1.results@);
                            assert(n == selection_size(counted));
                            assert(sort_range(s1.rolls@, plo as int, phi as int, !high)
                                == sorted);
                            assert(visit_spec(**nx, mode, s2p.state_with(cnx.add(ext)))
                                == Outcome::Halt(er, self.state_with(ext)));
                            assert(s2p.state_with(cnx.add(ext)) == EvalState {
                                pools: pools_view(s2.dice_pools@).push(
                                    (narrowed.0 as int, narrowed.1 as int),
                                ),
                                rolls: s2.rolls@,
                                results: s2.results@,
                                draws: rest1,
                            });
                            let st0 = pre.state_with(cc.add(ext));
                            assert(visit_keep_drop(*sel, mode, st0, st0.pools.last())
                                == Outcome::Halt(er, self.state_with(ext)));
                        }
                    }
                    return Err(er);
                },
                Ok(()) => {},
            }
            proof {
                let dnx = self.drawn().skip(s2p.drawn().len() as int);
                assert(visit_spec(**nx, mode, s2p.state_with(dnx.add(Seq::<i32>::empty())))
                    == Outcome::Done(self.state_with(Seq::<i32>::empty())));
                lemma_visit(**nx, mode, s2p.state_with(dnx.add(Seq::<i32>::empty())));
                assert(pools_view(self.dice_pools@).len() == pools_view(
                    s2p.dice_pools@,
                ).len());
                assert(self.dice_pools@.len() > 0);
            }
            proof {
                s3p = *self;
            }
            self.dice_pools.pop();
            proof {
                assert(pools_view(self.dice_pools@) =~= pools_view(
                    s3p.dice_pools@,
                ).drop_last());
            }
        }

        proof {
            let ctotal = self.drawn().skip(pre.drawn().len() as int);
            lemma_compose_prefix(pre.drawn(), s1.drawn(), self.drawn());
            let cnx = self.drawn().skip(s1.drawn().len() as int);
            assert forall|ext: Seq<i32>|
                visit_spec(
                    Expr::Select(*sel),
                    mode,
                    pre.state_with(#[trigger] ctotal.add(ext)),
                ) == Outcome::Done(self.state_with(ext)) by {
                let rest1 = cnx.add(ext);
                assert(ctotal.add(ext) =~= csel.add(rest1));
                let st = pre.state_with(csel.add(rest1));
                let counted_out: Outcome = match sel.count {
                    Some(c) => visit_spec(*c, mode, st),
                    None => Outcome::Done(
                        EvalState { results: st.results.push(1), ..st },
                    ),
                };
                match sel.count {
                    Some(c) => {
                        assert(visit_spec(*c, mode, pre.state_with(csel.add(rest1)))
                            == Outcome::Done(svisit.state_with(rest1)));
                        assert(svisit.state_with(rest1) == s1.state_with(rest1).with_pushed(
                            counted,
                        ));
                    },
                    None => {
                        assert(csel =~= Seq::<i32>::empty());
                        assert(csel.add(rest1) =~= rest1);
                        assert(counted_out == Outcome::Done(
                            s1.state_with(rest1).with_pushed(counted),
                        ));
                    },
                }
                assert(s1.state_with(rest1).with_pushed(counted).results.drop_last()
                    =~= s1.results@);
                assert(n == selection_size(counted));
                assert(sort_range(s1.rolls@, plo as int, phi as int, !high) == sorted);
                match sel.next {
                    None => {
                        assert(rest1 =~= ext);
                        assert(self.state_with(ext) == EvalState {
                            rolls: mark_selection(sorted, plo as int, n as int, phi as int, keep),
                            results: s1.results@,
                            pools: pools_view(s1.dice_pools@),
                            draws: ext,
                        });
                    },
                    Some(nx) => {
                        let narrowed_spec: (int, int) = if keep {
                            (plo as int, plo + n)
                        } else {
                            (plo + n, phi as int)
                        };
                        assert(narrowed_spec == (narrowed.0 as int, narrowed.1 as int));
                        assert(rest1 =~= cnx.add(ext));
                        let cnx2 = s3p.drawn().skip(s2p.drawn().len() as int);
                        assert(cnx2 == cnx);
                        assert(visit_spec(*nx, mode, s2p.state_with(cnx2.add(ext)))
                            == Outcome::Done(s3p.state_with(ext)));
                        assert(s2p.state_with(cnx2.add(ext)) == EvalState {
                            pools: pools_view(s2.dice_pools@).push(narrowed_spec),
                            rolls: s2.rolls@,
                            results: s2.results@,
                            draws: rest1,
                        });
                        assert(EvalState {
                            pools: s3p.state_with(ext).pools.drop_last(),
                            ..s3p.state_with(ext)
                        } == self.state_with(ext));
                    },
                }
                let st0 = pre.state_with(ctotal.add(ext));
                assert(st0 == pre.state_with(csel.add(rest1)));
                assert(visit_keep_drop(*sel, mode, st0, st0.pools.last()) == Outcome::Done(
                    self.state_with(ext),
                ));
            }
            assert(visit_post(Expr::Select(*sel), pre, *self, Result::<(), Error>::Ok(())));
            let ctotal2 = self.drawn().skip(pre.drawn().len() as int);
            assert(visit_spec(Expr::Select(*sel), mode, pre.state_with(ctotal2.add(
                Seq::<i32>::empty(),
            ))) == Outcome::Done(self.state_with(Seq::<i32>::empty())));
            lemma_visit(Expr::Select(*sel), mode, pre.state_with(ctotal2.add(
                Seq::<i32>::empty(),
            )));
            assert(self.wf());
        }
        Ok(())
    }

    /// The advantage/disadvantage selections: reroll the active pool,
    /// compare totals, drop one pool whole, and run any chained selection
    /// over the kept pool.
    #[verifier::rlimit(100)]
    fn reroll_node(&mut self, sel: &crate::ast::Select, plo: usize, phi: usize) -> (r: Result<
        (),
        Error,
    >)
        requires
            old(self).wf(),
            old(self).dice_pools@.len() > 0,
            old(self).dice_pools@.last() == (plo, phi),
            sel.selection == Selection::Advantage || sel.selection == Selection::Disadvantage,
        ensures
            final(self).strategy() == old(self).strategy(),
            old(self).drawn().is_prefix_of(final(self).drawn()),
            old(self).strategy() != Mode::Random ==> final(self).drawn() == old(self).drawn(),
            r is Ok ==> final(self).wf(),
            visit_post(Expr::Select(*sel), *old(self), *final(self), r),
        decreases sel, 1int,
    {
        let ghost pre = *self;
        let ghost mode = pre.strategy();
        proof {
            assert(pools_view(pre.dice_pools@).last() == (plo as int, phi as int));
            assert(0 <= plo <= phi <= pre.rolls@.len());
        }
        let k = phi - plo;
        let lo2 = self.rolls.len();
        let ghost base_rolls = self.rolls@;
        let ghost dstart = self.drawn();
        proof {
            assert forall|ext: Seq<i32>|
                reroll_dice(
                    mode,
                    base_rolls,
                    plo as int,
                    0nat,
                    base_rolls,
                    #[trigger] self.drawn().skip(dstart.len() as int).add(ext),
                ) == Some((base_rolls, ext)) by {
                assert(self.drawn().skip(dstart.len() as int).add(ext) =~= ext);
            }
        }
        let mut idx: usize = 0;
        while idx < k
            invariant
                idx <= k,
                plo + k == phi,
                phi <= base_rolls.len() == lo2,
                self.strategy() == mode,
                self.results@ == pre.results@,
                self.dice_pools@ == pre.dice_pools@,
                self.wf(),
                dstart.is_prefix_of(self.drawn()),
                mode != Mode::Random ==> self.drawn() == dstart,
                self.rolls@.len() == lo2 + idx,
                forall|i: int| 0 <= i < lo2 ==> self.rolls@[i] == base_rolls[i],
                forall|ext: Seq<i32>|
                    reroll_dice(
                        mode,
                        base_rolls,
                        plo as int,
                        idx as nat,
                        base_rolls,
                        #[trigger] self.drawn().skip(dstart.len() as int).add(ext),
                    ) == Some((self.rolls@, ext)),
            decreases k - idx,
        {
            let ghost it = *self;
            let sides_i = self.rolls[plo + idx].sides;
            proof {
                assert(self.rolls@[plo + idx] == base_rolls[plo + idx]);
                assert(valid_die(base_rolls[plo + idx]));
            }
            let v = self.draw_value(sides_i);
            self.rolls.push(DieRoll { sides: sides_i, result: v, keep: true });
            proof {
                let cprev = it.drawn().skip(dstart.len() as int);
                let cnow = self.drawn().skip(dstart.len() as int);
                assert forall|ext: Seq<i32>|
                    reroll_dice(
                        mode,
                        base_rolls,
                        plo as int,
                        (idx + 1) as nat,
                        base_rolls,
                        #[trigger] cnow.add(ext),
                    ) == Some((self.rolls@, ext)) by {
                    assert(base_rolls[plo + idx as int].sides == sides_i);
                    if mode == Mode::Random {
                        assert(cnow =~= cprev.push(v));
                        assert(cnow.add(ext) =~= cprev.add(seq![v].add(ext)));
                        assert(reroll_dice(mode, base_rolls, plo as int, idx as nat, base_rolls,
                            cprev.add(seq![v].add(ext))) == Some((it.rolls@, seq![v].add(ext))));
                        assert(seq![v].add(ext)[0] == v);
                        assert(seq![v].add(ext).skip(1) =~= ext);
                    } else {
                        assert(cnow == cprev);
                        assert(reroll_dice(mode, base_rolls, plo as int, idx as nat, base_rolls,
                            cnow.add(ext)) == Some((it.rolls@, ext)));
                        assert(v == det_die(mode, sides_i));
                    }
                }
                assert(inv_state(self.rolls@, pools_view(self.dice_pools@)));
            }
            idx = idx + 1;
        }
        let len2 = self.rolls.len();
        let ghost s1 = *self;
        let ghost crr = s1.drawn().skip(pre.drawn().len() as int);

        // Compare the totals of the original and rerolled pools.
        let ghost rolls1 = self.rolls@;
        let mut told: i32 = 0;
        let mut m: usize = plo;
        while m < phi
            invariant
                plo <= m <= phi <= len2 == self.rolls@.len(),
                self.rolls@ == rolls1,
                told == sum_results(rolls1, plo as int, m as int),
                self.results@ == s1.results@,
                self.dice_pools@ == s1.dice_pools@,
                self.drawn() == s1.drawn(),
                self.strategy() == mode,
            decreases phi - m,
        {
            let d = self.rolls[m];
            told = told.wrapping_add(d.result);
            m = m + 1;
        }
        let mut tnew: i32 = 0;
        let mut m2: usize = lo2;
        while m2 < len2
            invariant
                lo2 <= m2 <= len2 == self.rolls@.len(),
                self.rolls@ == rolls1,
                tnew == sum_results(rolls1, lo2 as int, m2 as int),
                self.results@ == s1.results@,
                self.dice_pools@ == s1.dice_pools@,
                self.drawn() == s1.drawn(),
                self.strategy() == mode,
            decreases len2 - m2,
        {
            let d = self.rolls[m2];
            tnew = tnew.wrapping_add(d.result);
            m2 = m2 + 1;
        }
        let is_adv = match sel.selection {
            Selection::Advantage => true,
            _ => false,
        };
        let new_wins = (tnew > told) == is_adv;
        let kept = if new_wins {
            (lo2, len2)
        } else {
            (plo, phi)
        };
        let (drop_lo, drop_hi) = if new_wins {
            (plo, phi)
        } else {
            (lo2, len2)
        };

        // Drop the pool that lost whole.
        let mut m3: usize = drop_lo;
        while m3 < drop_hi
            invariant
                drop_lo <= m3 <= drop_hi <= self.rolls@.len(),
                self.rolls@.len() == rolls1.len(),
                self.results@ == s1.results@,
                self.dice_pools@ == s1.dice_pools@,
                self.drawn() == s1.drawn(),
                self.strategy() == mode,
                forall|i: int|
                    0 <= i < rolls1.len() && !(drop_lo as int <= i < m3 as int) ==> self.rolls@[i]
                        == rolls1[i],
                forall|i: int|
                    drop_lo as int <= i < m3 as int ==> self.rolls@[i] == (DieRoll {
                        keep: false,
                        ..rolls1[i]
                    }),
            decreases drop_hi - m3,
        {
            let d = self.rolls[m3];
            self.rolls[m3] = DieRoll { sides: d.sides, result: d.result, keep: false };
            m3 = m3 + 1;
        }
        proof {
            assert(self.rolls@ =~= mark_dropped(rolls1, drop_lo as int, drop_hi as int));
        }
        let ghost s2 = *self;
        let ghost mut s2p = s2;
        let ghost mut s3p = s2;

        // Chain into the kept pool, if a further selection follows.
        if let Some(nx) = &sel.next {
            self.dice_pools.push(kept);
            proof {
                s2p = *self;
            }
            proof {
                assert(pools_view(s2p.dice_pools@) =~= pools_view(s2.dice_pools@).push(
                    (kept.0 as int, kept.1 as int),
                ));
                assert(forall|i: int|
                    0 <= i < s2.rolls@.len() ==> valid_die(#[trigger] s2.rolls@[i]));
                assert(s2p.wf());
            }
            match self.visit(nx) {
                Err(er) => {
                    proof {
                        lemma_compose_prefix(pre.drawn(), s2p.drawn(), self.drawn());
                        let cc = self.drawn().skip(pre.drawn().len() as int);
                        let cnx = self.drawn().skip(s2p.drawn().len() as int);
                        assert forall|ext: Seq<i32>|
                            visit_spec(
                                Expr::Select(*sel),
                                mode,
                                pre.state_with(#[trigger] cc.add(ext)),
                            ) == Outcome::Halt(er, self.state_with(ext)) by {
                            let rest1 = cnx.add(ext);
                            assert(cc.add(ext) =~= crr.add(rest1));
                            assert(reroll_dice(mode, base_rolls, plo as int, k as nat, base_rolls,
                                crr.add(rest1)) == Some((rolls1, rest1)));
                            assert(sum_results(rolls1, plo as int, phi as int) == told);
                            assert(sum_results(rolls1, lo2 as int, len2 as int) == tnew);
                            assert(visit_spec(**nx, mode, s2p.state_with(cnx.add(ext)))
                                == Outcome::Halt(er, self.state_with(ext)));
                            assert(s2p.state_with(cnx.add(ext)) == EvalState {
                                pools: pools_view(s2.dice_pools@).push(
                                    (kept.0 as int, kept.1 as int),
                                ),
                                rolls: s2.rolls@,
                                results: s2.results@,
                                draws: rest1,
                            });
                            let st0 = pre.state_with(cc.add(ext));
                            assert(visit_reroll(*sel, mode, st0, st0.pools.last())
                                == Outcome::Halt(er, self.state_with(ext)));
                        }
                    }
                    return Err(er);
                },
                Ok(()) => {},
            }
            proof {
                let dnx = self.drawn().skip(s2p.drawn().len() as int);
                assert(visit_spec(**nx, mode, s2p.state_with(dnx.add(Seq::<i32>::empty())))
                    == Outcome::Done(self.state_with(Seq::<i32>::empty())));
                lemma_visit(**nx, mode, s2p.state_with(dnx.add(Seq::<i32>::empty())));
                assert(pools_view(self.dice_pools@).len() == pools_view(
                    s2p.dice_pools@,
                ).len());
                assert(self.dice_pools@.len() > 0);
            }
            proof {
                s3p = *self;
            }
            self.dice_pools.pop();
            proof {
                assert(pools_view(self.dice_pools@) =~= pools_view(
                    s3p.dice_pools@,
                ).drop_last());
            }
        }

        proof {
            let ctotal = self.drawn().skip(pre.drawn().len() as int);
            lemma_compose_prefix(pre.drawn(), s1.drawn(), self.drawn());
            let cnx = self.drawn().skip(s1.drawn().len() as int);
            assert forall|ext: Seq<i32>|
                visit_spec(
                    Expr::Select(*sel),
                    mode,
                    pre.state_with(#[trigger] ctotal.add(ext)),
                ) == Outcome::Done(self.state_with(ext)) by {
                let rest1 = cnx.add(ext);
                assert(ctotal.add(ext) =~= crr.add(rest1));
                assert(reroll_dice(mode, base_rolls, plo as int, k as nat, base_rolls, crr.add(
                    rest1,
                )) == Some((rolls1, rest1)));
                assert(sum_results(rolls1, plo as int, phi as int) == told);
                assert(sum_results(rolls1, lo2 as int, len2 as int) == tnew);
                match sel.next {
                    None => {
                        assert(rest1 =~= ext);
                        assert(self.state_with(ext) == EvalState {
                            rolls: mark_dropped(rolls1, drop_lo as int, drop_hi as int),
                            results: s1.results@,
                            pools: pools_view(s1.dice_pools@),
                            draws: ext,
                        });
                    },
                    Some(nx) => {
                        assert(rest1 =~= cnx.add(ext));
                        let cnx2 = s3p.drawn().skip(s2p.drawn().len() as int);
                        assert(cnx2 == cnx);
                        assert(visit_spec(*nx, mode, s2p.state_with(cnx2.add(ext)))
                            == Outcome::Done(s3p.state_with(ext)));
                        assert(s2p.state_with(cnx2.add(ext)) == EvalState {
                            pools: pools_view(s2.dice_pools@).push((kept.0 as int, kept.1 as int)),
                            rolls: s2.rolls@,
                            results: s2.results@,
                            draws: rest1,
                        });
                        assert(EvalState {
                            pools: s3p.state_with(ext).pools.drop_last(),
                            ..s3p.state_with(ext)
                        } == self.state_with(ext));
                    },
                }
                let st0 = pre.state_with(ctotal.add(ext));
                assert(st0 == pre.state_with(crr.add(rest1)));
                assert(visit_reroll(*sel, mode, st0, st0.pools.last()) == Outcome::Done(
                    self.state_with(ext),
                ));
            }
            assert(visit_post(Expr::Select(*sel), pre, *self, Result::<(), Error>::Ok(())));
            let ctotal2 = self.drawn().skip(pre.drawn().len() as int);
            assert(visit_spec(Expr::Select(*sel), mode, pre.state_with(ctotal2.add(
                Seq::<i32>::empty(),
            ))) == Outcome::Done(self.state_with(Seq::<i32>::empty())));
            lemma_visit(Expr::Select(*sel), mode, pre.state_with(ctotal2.add(
                Seq::<i32>::empty(),
            )));
            assert(self.wf());
        }
        Ok(())
    }
}

impl EvalState {
    /// This state with one more value on the results stack.
    pub open spec fn with_pushed(self, v: i32) -> EvalState {
        EvalState { results: self.results.push(v), ..self }
    }
}

/// Executable form of [`selection_size`]: how the machine reads a
/// selection count as an index-sized value.
fn sel_size(n: i32) -> (s: usize)
    ensures
        s == selection_size(n),
{
    let ghost m_int: int = usize::MAX as int + 1;
    if n >= 0 {
        proof {
            vstd::arithmetic::div_mod::lemma_small_mod(n as nat, m_int as nat);
        }
        n as usize
    } else {
        let neg = (-(n as i64)) as usize;
        let s = usize::MAX - neg + 1;
        proof {
            vstd::arithmetic::div_mod::lemma_mod_add_multiples_vanish(n as int, m_int);
            vstd::arithmetic::div_mod::lemma_small_mod((m_int + n) as nat, m_int as nat);
        }
        s
    }
}

/// The machine's contract tying one executable step to the mathematical
/// machine: whatever values the dice go on to show, running the machine on
/// the recorded draws followed by those values does exactly what the
/// executable step did, leaving the rest to be shown.
pub open spec fn visit_post(e: Expr, pre: Evaluator, post: Evaluator, r: Result<(), Error>) -> bool {
    forall|ext: Seq<i32>|
        match r {
            Ok(()) => visit_spec(
                e,
                pre.strategy(),
                pre.state_with(#[trigger] post.drawn().skip(pre.drawn().len() as int).add(ext)),
            ) == Outcome::Done(post.state_with(ext)),
            Err(er) => visit_spec(
                e,
                pre.strategy(),
                pre.state_with(post.drawn().skip(pre.drawn().len() as int).add(ext)),
            ) == Outcome::Halt(er, post.state_with(ext)),
        }
}

/// Concatenating what two successive steps drew: the skip of the whole is
/// the two skips in order.
proof fn lemma_compose_prefix(d0: Seq<i32>, d1: Seq<i32>, d2: Seq<i32>)
    requires
        d0.is_prefix_of(d1),
        d1.is_prefix_of(d2),
    ensures
        d0.is_prefix_of(d2),
        d2.skip(d0.len() as int) == d1.skip(d0.len() as int).add(d2.skip(d1.len() as int)),
{
    assert(d2.skip(d0.len() as int) =~= d1.skip(d0.len() as int).add(
        d2.skip(d1.len() as int),
    ));
}

/// Executable form of [`wdiv`]: truncating division through unsigned
/// magnitudes.
fn div_wrap(l: i32, r: i32) -> (q: i32)
    requires
        r != 0,
    ensures
        q == wdiv(l, r),
{
    if l == i32::MIN && r == -1 {
        return i32::MIN;
    }
    let ln: u32 = if l >= 0 {
        l as u32
    } else if l == i32::MIN {
        0x8000_0000u32
    } else {
        (-l) as u32
    };
    let rn: u32 = if r >= 0 {
        r as u32
    } else if r == i32::MIN {
        0x8000_0000u32
    } else {
        (-r) as u32
    };
    let qn = ln / rn;
    if (l < 0) != (r < 0) {
        if qn >= 0x8000_0000u32 {
            i32::MIN
        } else {
            -(qn as i32)
        }
    } else {
        qn as i32
    }
}

/// Relies on `rand::Rng::gen_range`: a uniform draw from the given range,
/// here `1..sides + 1`, so the result lies between 1 and `sides`. The
/// range is nonempty, so the call cannot panic.
#[verifier::external_body]
fn sample_die(rng: &mut rand::rngs::ThreadRng, sides: i32) -> (v: i32)
    requires
        1 <= sides < i32::MAX,
    ensures
        1 <= v <= sides,
{
    rand::Rng::gen_range(rng, 1..sides + 1)
}

} // verus!
