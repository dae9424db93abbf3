//! A dice expression: an ordered, non-empty sequence of die terms.

pub mod bounds;
pub mod die;
pub mod notation;
pub mod roll;

use crate::dice::die::{clamp_one, Die, Term};
use crate::dice::notation::{expression_terms, read_expression};
use crate::dice::roll::Roll;
use crate::errors::{DiceError, StructureError};
use crate::text::string_of;
use vstd::prelude::*;

verus! {

/// The terms' texts, each with its sign, one after another.
pub open spec fn terms_text(ts: Seq<Term>) -> Seq<char>
    decreases ts.len(),
{
    if ts.len() == 0 {
        Seq::empty()
    } else {
        terms_text(ts.drop_last()) + ts.last().text()
    }
}

/// An expression as text: its terms' texts without the first term's sign.
pub open spec fn dice_text(ts: Seq<Term>) -> Seq<char> {
    let c = terms_text(ts);
    if c.len() > 0 {
        c.drop_first()
    } else {
        c
    }
}

/// The sum of the values.
pub open spec fn sum_of(v: Seq<i64>) -> int
    decreases v.len(),
{
    if v.len() == 0 {
        0
    } else {
        sum_of(v.drop_last()) + v.last()
    }
}

/// `rolls` and `result` are a roll of the terms `ts`: each term's value is
/// one that its die can give, and the result is their sum, at least 1.
pub open spec fn is_roll_of(ts: Seq<Term>, rolls: Seq<i64>, result: int) -> bool {
    &&& rolls.len() == ts.len()
    &&& forall|k: int| 0 <= k < ts.len() ==> ts[k].possible(#[trigger] rolls[k] as int)
    &&& result == clamp_one(sum_of(rolls))
}

/// A dice expression such as `6d20-1d4`.
#[derive(PartialEq, Debug, Clone)]
pub struct Dice {
    dice: Vec<Die>,
}

impl View for Dice {
    type V = Seq<Term>;

    closed spec fn view(&self) -> Seq<Term> {
        self.dice@.map_values(|d: Die| d@)
    }
}

impl Dice {
    /// At least one term, and every term has eyes and counts a die.
    pub open spec fn wf(&self) -> bool {
        &&& self@.len() > 0
        &&& forall|k: int| 0 <= k < self@.len() ==> #[trigger] self@[k].eyes > 0 && self@[k].count > 0
    }

    fn single(d: Die) -> (r: Dice)
        requires
            d.wf(),
        ensures
            r@ == seq![d@],
            r.wf(),
    {
        let r = Dice { dice: vec![d] };
        assert(r@ =~= seq![d@]);
        r
    }

    /// One die of `eyes` eyes.
    pub fn new(eyes: u16) -> (r: Result<Dice, StructureError>)
        ensures
            match r {
                Ok(d) => eyes > 0 && d@ == seq![Term::plain(eyes as nat)] && d.wf(),
                Err(e) => eyes == 0 && e == StructureError::ZeroEyes,
            },
    {
        if eyes == 0 {
            return Err(StructureError::ZeroEyes);
        }
        Ok(Dice::single(Die::new(eyes)))
    }

    /// `count` dice of `eyes` eyes.
    pub fn new_counted(eyes: u16, count: u16) -> (r: Result<Dice, StructureError>)
        ensures
            match r {
                Ok(d) => eyes > 0 && count > 0 && d@ == seq![
                    Term { eyes: eyes as nat, count: count as nat, add: 0, neg: false },
                ] && d.wf(),
                Err(e) => (eyes == 0 && e == StructureError::ZeroEyes) || (eyes > 0 && count == 0
                    && e == StructureError::ZeroCount),
            },
    {
        if eyes == 0 {
            return Err(StructureError::ZeroEyes);
        }
        if count == 0 {
            return Err(StructureError::ZeroCount);
        }
        Ok(Dice::single(Die::new_counted(eyes, count)))
    }

    /// One die of `eyes` eyes, plus `add`.
    pub fn new_added(eyes: u16, add: i32) -> (r: Result<Dice, StructureError>)
        ensures
            match r {
                Ok(d) => eyes > 0 && d@ == seq![
                    Term { eyes: eyes as nat, count: 1, add: add as int, neg: false },
                ] && d.wf(),
                Err(e) => eyes == 0 && e == StructureError::ZeroEyes,
            },
    {
        if eyes == 0 {
            return Err(StructureError::ZeroEyes);
        }
        Ok(Dice::single(Die::new_added(eyes, add)))
    }

    /// One die of `eyes` eyes, less `sub`.
    pub fn new_subbed(eyes: u16, sub: i32) -> (r: Result<Dice, StructureError>)
        requires
            eyes > 0 ==> sub > i32::MIN,
        ensures
            match r {
                Ok(d) => eyes > 0 && d@ == seq![
                    Term { eyes: eyes as nat, count: 1, add: -sub, neg: false },
                ] && d.wf(),
                Err(e) => eyes == 0 && e == StructureError::ZeroEyes,
            },
    {
        if eyes == 0 {
            return Err(StructureError::ZeroEyes);
        }
        Ok(Dice::single(Die::new_subbed(eyes, sub)))
    }

    /// `count` dice of `eyes` eyes, plus `add`.
    pub fn new_full(eyes: u16, count: u16, add: i32) -> (r: Result<Dice, StructureError>)
        ensures
            match r {
                Ok(d) => eyes > 0 && count > 0 && d@ == seq![
                    Term { eyes: eyes as nat, count: count as nat, add: add as int, neg: false },
                ] && d.wf(),
                Err(e) => (eyes == 0 && e == StructureError::ZeroEyes) || (eyes > 0 && count == 0
                    && e == StructureError::ZeroCount),
            },
    {
        if eyes == 0 {
            return Err(StructureError::ZeroEyes);
        }
        if count == 0 {
            return Err(StructureError::ZeroCount);
        }
        Ok(Dice::single(Die::new_full(eyes, count, add)))
    }

    /// Reads an expression such as `6d20 - 1d4`; see `notation` for the
    /// form of a term.
    pub fn parse(s: &str) -> (r: Result<Dice, DiceError>)
        ensures
            match r {
                Ok(d) => expression_terms(s@) == Ok::<Seq<Term>, DiceError>(d@) && d.wf(),
                Err(e) => expression_terms(s@) == Err::<Seq<Term>, DiceError>(e),
            },
    {
        match read_expression(s) {
            Ok(v) => {
                let d = Dice { dice: v };
                assert(d.wf()) by {
                    assert forall|k: int| 0 <= k < d@.len() implies #[trigger] d@[k].eyes > 0
                        && d@[k].count > 0 by {
                        assert(d.dice@[k].wf());
                    }
                }
                Ok(d)
            },
            Err(e) => Err(e),
        }
    }

    /// The terms, in order.
    pub fn terms(&self) -> (r: &Vec<Die>)
        ensures
            r@.map_values(|d: Die| d@) == self@,
    {
        &self.dice
    }

    /// Sums the values and keeps a total of at least 1.
    fn settle(&self, rolls: Vec<i64>) -> (r: Roll)
        ensures
            r.dice@ == self@,
            r.dice_rolls@ == rolls@,
            r.result == clamp_one(sum_of(rolls@)),
    {
        let mut sum: i128 = 0;
        let mut k: usize = 0;
        while k < rolls.len()
            invariant
                k <= rolls.len(),
                sum == sum_of(rolls@.take(k as int)),
                -(k as int) * 0x8000_0000_0000_0000 <= sum <= (k as int) * 0x7fff_ffff_ffff_ffff,
            decreases rolls.len() - k,
        {
            assert(rolls@.take(k + 1).drop_last() =~= rolls@.take(k as int));
            sum = sum + rolls[k] as i128;
            k = k + 1;
        }
        assert(rolls@.take(k as int) =~= rolls@);
        let result: u128 = if sum <= 0 {
            1
        } else {
            sum as u128
        };
        let dice = Dice { dice: self.dice.clone() };
        assert(dice@ =~= self@) by {
            assert forall|k: int| 0 <= k < self.dice@.len() implies dice.dice@[k] == self.dice@[k] by {
                assert(cloned::<Die>(self.dice[k], dice.dice[k]));
            }
        }
        Roll { dice, dice_rolls: rolls, result }
    }

    /// The roll when each term's die shows the matching entry of `draws`.
    pub fn roll_with(&self, draws: &Vec<u16>) -> (r: Roll)
        requires
            draws.len() == self@.len(),
        ensures
            r.dice@ == self@,
            r.dice_rolls@.len() == self@.len(),
            forall|k: int|
                0 <= k < self@.len() ==> #[trigger] r.dice_rolls@[k] == self@[k].outcome(
                    draws@[k] as int,
                ),
            r.result == clamp_one(sum_of(r.dice_rolls@)),
    {
        let mut rolls: Vec<i64> = Vec::new();
        let mut k: usize = 0;
        while k < self.dice.len()
            invariant
                k <= self.dice.len(),
                draws.len() == self.dice.len(),
                rolls.len() == k,
                forall|j: int|
                    0 <= j < k ==> #[trigger] rolls@[j] == self.dice@[j]@.outcome(draws@[j] as int),
            decreases self.dice.len() - k,
        {
            let v = self.dice[k].roll_with(draws[k]);
            rolls.push(v);
            k = k + 1;
        }
        self.settle(rolls)
    }

    /// Rolls every term once and totals them.
    pub fn roll(&self) -> (r: Roll)
        requires
            self.wf(),
        ensures
            r.dice@ == self@,
            is_roll_of(self@, r.dice_rolls@, r.result as int),
    {
        let mut rolls: Vec<i64> = Vec::new();
        let mut k: usize = 0;
        while k < self.dice.len()
            invariant
                k <= self.dice.len(),
                self.wf(),
                rolls.len() == k,
                forall|j: int| 0 <= j < k ==> self@[j].possible(#[trigger] rolls@[j] as int),
            decreases self.dice.len() - k,
        {
            assert(self.dice@[k as int]@ == self@[k as int]);
            assert(self.dice@[k as int].wf());
            let v = self.dice[k].roll();
            rolls.push(v);
            k = k + 1;
        }
        self.settle(rolls)
    }

    /// The expression as text: `6d20-1d4`.
    pub fn to_string(&self) -> (r: String)
        ensures
            r@ == dice_text(self@),
    {
        let mut out: Vec<char> = Vec::new();
        let mut k: usize = 0;
        while k < self.dice.len()
            invariant
                k <= self.dice.len(),
                out@ == terms_text(self@.take(k as int)),
            decreases self.dice.len() - k,
        {
            assert(self@.take(k + 1).drop_last() =~= self@.take(k as int));
            self.dice[k].push_text(&mut out);
            k = k + 1;
        }
        assert(self@.take(k as int) =~= self@);
        let mut trimmed: Vec<char> = Vec::new();
        let start: usize = if out.len() > 0 {
            1
        } else {
            0
        };
        let mut i: usize = start;
        while i < out.len()
            invariant
                start <= i <= out.len(),
                trimmed@ == out@.subrange(start as int, i as int),
            decreases out.len() - i,
        {
            trimmed.push(out[i]);
            i = i + 1;
            assert(trimmed@ =~= out@.subrange(start as int, i as int));
        }
        assert(trimmed@ =~= dice_text(self@));
        string_of(trimmed)
    }
}

impl std::str::FromStr for Dice {
    type Err = DiceError;

    fn from_str(s: &str) -> (r: Result<Dice, DiceError>)
        ensures
            match r {
                Ok(d) => expression_terms(s@) == Ok::<Seq<Term>, DiceError>(d@) && d.wf(),
                Err(e) => expression_terms(s@) == Err::<Seq<Term>, DiceError>(e),
            },
    {
        Dice::parse(s)
    }
}

} // verus!
