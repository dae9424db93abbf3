//! What a roll of a one-term expression can come to.

use crate::dice::die::{clamp_one, Term};
use crate::dice::{is_roll_of, sum_of};
use vstd::prelude::*;

verus! {

proof fn lemma_single_sum(rolls: Seq<i64>)
    requires
        rolls.len() == 1,
    ensures
        sum_of(rolls) == rolls[0],
{
    assert(rolls.drop_last().len() == 0);
    assert(sum_of(rolls.drop_last()) == 0);
    assert(sum_of(rolls) == sum_of(rolls.drop_last()) + rolls.last());
}

/// A roll of one plain die of `eyes` eyes comes to a value from 1 to
/// `eyes`, and so does the die's own value.
pub proof fn lemma_plain_roll_range(eyes: nat, rolls: Seq<i64>, result: int)
    requires
        eyes > 0,
        is_roll_of(seq![Term::plain(eyes)], rolls, result),
    ensures
        1 <= rolls[0] <= eyes,
        1 <= result <= eyes,
{
    let t = Term::plain(eyes);
    assert(t.possible(rolls[0] as int));
    let d = choose|d: int| 1 <= d <= t.eyes && rolls[0] as int == #[trigger] t.outcome(d);
    assert(t.outcome(d) == d);
    lemma_single_sum(rolls);
}

/// A roll of one die of `eyes` eyes plus `add` lies from `max(1, 1 + add)`
/// to `eyes + add` where `add >= -(eyes - 1)`; below that every face gives
/// no positive value and the roll is 1.
pub proof fn lemma_added_roll_range(eyes: nat, add: int, rolls: Seq<i64>, result: int)
    requires
        eyes > 0,
        is_roll_of(seq![Term { eyes, count: 1, add, neg: false }], rolls, result),
    ensures
        add >= -(eyes - 1) ==> (if 1 + add > 1 {
            1 + add
        } else {
            1
        }) <= result <= eyes + add,
        add < -(eyes - 1) ==> result == 1,
{
    let t = Term { eyes, count: 1, add, neg: false };
    assert(t.possible(rolls[0] as int));
    let d = choose|d: int| 1 <= d <= t.eyes && rolls[0] as int == #[trigger] t.outcome(d);
    assert(t.outcome(d) == clamp_one(d + add));
    lemma_single_sum(rolls);
}

/// A term whose modifier takes off at least all that its dice can show
/// (`count * eyes + add <= 0`) always yields exactly 1; alone, the roll
/// comes to 1.
pub proof fn lemma_overwhelmed_roll(t: Term, rolls: Seq<i64>, result: int)
    requires
        t.eyes > 0,
        t.count > 0,
        !t.neg,
        t.count * t.eyes + t.add <= 0,
        is_roll_of(seq![t], rolls, result),
    ensures
        rolls[0] == 1,
        result == 1,
{
    assert(t.possible(rolls[0] as int));
    let d = choose|d: int| 1 <= d <= t.eyes && rolls[0] as int == #[trigger] t.outcome(d);
    assert(t.count * d <= t.count * t.eyes) by (nonlinear_arith)
        requires
            d <= t.eyes,
            t.count > 0,
    ;
    lemma_single_sum(rolls);
}

} // verus!
