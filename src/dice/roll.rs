//! The record of one roll of a dice expression.

use crate::dice::Dice;
use crate::text::{decimal, push_decimal, push_signed, signed_text, string_of};
use vstd::prelude::*;

verus! {

/// The signed values, each with an explicit sign, one after another.
pub open spec fn signed_run(v: Seq<i64>) -> Seq<char>
    decreases v.len(),
{
    if v.len() == 0 {
        Seq::empty()
    } else {
        signed_run(v.drop_last()) + signed_text(v.last() as int)
    }
}

/// A roll as text: `[10-10]: 1`. Each value carries its sign, but for a
/// leading `+`, which is left out.
pub open spec fn roll_text(rolls: Seq<i64>, result: u128) -> Seq<char> {
    let run = signed_run(rolls);
    let body = if run.len() > 0 && run[0] == '+' {
        run.drop_first()
    } else {
        run
    };
    seq!['['] + body + seq![']', ':', ' '] + decimal(result as nat)
}

/// One roll of a dice expression: the expression, the signed value of each
/// of its terms in order, and the total, which is at least 1.
#[derive(Debug)]
pub struct Roll {
    pub dice: Dice,
    pub dice_rolls: Vec<i64>,
    pub result: u128,
}

impl Roll {
    /// The roll as text: `[10-10]: 1`.
    pub fn to_string(&self) -> (r: String)
        ensures
            r@ == roll_text(self.dice_rolls@, self.result),
    {
        let mut run: Vec<char> = Vec::new();
        let mut k: usize = 0;
        while k < self.dice_rolls.len()
            invariant
                k <= self.dice_rolls.len(),
                run@ == signed_run(self.dice_rolls@.take(k as int)),
            decreases self.dice_rolls.len() - k,
        {
            assert(self.dice_rolls@.take(k + 1).drop_last() =~= self.dice_rolls@.take(k as int));
            push_signed(&mut run, self.dice_rolls[k] as i128);
            k = k + 1;
        }
        assert(self.dice_rolls@.take(k as int) =~= self.dice_rolls@);
        let mut out: Vec<char> = Vec::new();
        out.push('[');
        let skip: usize = if run.len() > 0 && run[0] == '+' {
            1
        } else {
            0
        };
        let mut i: usize = skip;
        while i < run.len()
            invariant
                skip <= i <= run.len(),
                out@ == seq!['['] + run@.subrange(skip as int, i as int),
            decreases run.len() - i,
        {
            out.push(run[i]);
            i = i + 1;
            assert(out@ =~= seq!['['] + run@.subrange(skip as int, i as int));
        }
        out.push(']');
        out.push(':');
        out.push(' ');
        push_decimal(&mut out, self.result);
        assert(out@ =~= roll_text(self.dice_rolls@, self.result));
        string_of(out)
    }
}

} // verus!
