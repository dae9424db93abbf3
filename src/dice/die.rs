//! A single die term: a number of dice of some number of eyes, a flat
//! modifier, and whether the term counts against the total.

use crate::text::{decimal, push_decimal, push_signed, signed_text, string_of};
use rand::Rng;
use vstd::prelude::*;

verus! {

/// What a die term stands for: `count` dice of `eyes` eyes, plus `add`,
/// subtracted from the total when `neg` holds.
pub struct Term {
    pub eyes: nat,
    pub count: nat,
    pub add: int,
    pub neg: bool,
}

/// A value that is not positive counts as 1.
pub open spec fn clamp_one(v: int) -> int {
    if v <= 0 {
        1
    } else {
        v
    }
}

impl Term {
    /// The term of one die of `eyes` eyes.
    pub open spec fn plain(eyes: nat) -> Term {
        Term { eyes, count: 1, add: 0, neg: false }
    }

    /// The signed value that the term yields when the die shows `draw`:
    /// `count * draw + add`, at least 1, negated for a subtracted term.
    pub open spec fn outcome(self, draw: int) -> int {
        let m = clamp_one(self.count * draw + self.add);
        if self.neg {
            -m
        } else {
            m
        }
    }

    /// `v` is what the term yields for some face of its die.
    pub open spec fn possible(self, v: int) -> bool {
        exists|d: int| 1 <= d <= self.eyes && v == #[trigger] self.outcome(d)
    }

    /// The term as text, with an explicit leading sign: `+5d20-69`.
    pub open spec fn text(self) -> Seq<char> {
        seq![if self.neg { '-' } else { '+' }] + decimal(self.count) + seq!['d'] + decimal(
            self.eyes,
        ) + if self.add == 0 {
            Seq::<char>::empty()
        } else {
            signed_text(self.add)
        }
    }
}

/// One term of a dice expression.
#[derive(PartialEq, Eq, Structural, Clone, Copy, Debug)]
pub struct Die {
    eyes: u16,
    count: u16,
    add: i32,
    neg: bool,
}

impl View for Die {
    type V = Term;

    closed spec fn view(&self) -> Term {
        Term {
            eyes: self.eyes as nat,
            count: self.count as nat,
            add: self.add as int,
            neg: self.neg,
        }
    }
}

/// Relies on rand's `thread_rng().gen_range(1..=eyes)`: a value of the
/// inclusive range, drawn afresh on each call; it panics only on an empty
/// range, which `eyes > 0` rules out.
#[verifier::external_body]
fn draw(eyes: u16) -> (r: u16)
    requires
        eyes > 0,
    ensures
        1 <= r <= eyes,
{
    rand::thread_rng().gen_range(1..=eyes)
}

impl Die {
    /// Every die has eyes and counts at least one die.
    pub open spec fn wf(&self) -> bool {
        self@.eyes > 0 && self@.count > 0
    }

    pub fn new(eyes: u16) -> (r: Die)
        requires
            eyes > 0,
        ensures
            r@ == Term::plain(eyes as nat),
            r.wf(),
    {
        Die { eyes, count: 1, add: 0, neg: false }
    }

    pub fn new_counted(eyes: u16, count: u16) -> (r: Die)
        requires
            eyes > 0,
            count > 0,
        ensures
            r@ == (Term { eyes: eyes as nat, count: count as nat, add: 0, neg: false }),
            r.wf(),
    {
        Die { eyes, count, add: 0, neg: false }
    }

    pub fn new_added(eyes: u16, add: i32) -> (r: Die)
        requires
            eyes > 0,
        ensures
            r@ == (Term { eyes: eyes as nat, count: 1, add: add as int, neg: false }),
            r.wf(),
    {
        Die { eyes, count: 1, add, neg: false }
    }

    /// `sub` is taken off the roll; `i32::MIN` has no negation in `i32`.
    pub fn new_subbed(eyes: u16, sub: i32) -> (r: Die)
        requires
            eyes > 0,
            sub > i32::MIN,
        ensures
            r@ == (Term { eyes: eyes as nat, count: 1, add: -sub, neg: false }),
            r.wf(),
    {
        Die { eyes, count: 1, add: -sub, neg: false }
    }

    pub fn new_full(eyes: u16, count: u16, add: i32) -> (r: Die)
        requires
            eyes > 0,
            count > 0,
        ensures
            r@ == (Term { eyes: eyes as nat, count: count as nat, add: add as int, neg: false }),
            r.wf(),
    {
        Die { eyes, count, add, neg: false }
    }

    pub fn new_internal(eyes: u16, count: u16, add: i32, neg: bool) -> (r: Die)
        requires
            eyes > 0,
            count > 0,
        ensures
            r@ == (Term { eyes: eyes as nat, count: count as nat, add: add as int, neg }),
            r.wf(),
    {
        Die { eyes, count, add, neg }
    }

    /// The value of the term when its die shows `draw`.
    pub fn roll_with(&self, draw: u16) -> (r: i64)
        ensures
            r == self@.outcome(draw as int),
    {
        let c = self.count as i64;
        let f = draw as i64;
        assert(0 <= c * f <= 65535 * 65535) by (nonlinear_arith)
            requires
                0 <= c <= 65535,
                0 <= f <= 65535,
        ;
        let v: i64 = c * f + self.add as i64;
        let m: i64 = if v <= 0 {
            1
        } else {
            v
        };
        if self.neg {
            -m
        } else {
            m
        }
    }

    /// Rolls the die once and returns the term's value.
    pub fn roll(&self) -> (r: i64)
        requires
            self.wf(),
        ensures
            self@.possible(r as int),
    {
        let d = draw(self.eyes);
        let r = self.roll_with(d);
        assert(self@.outcome(d as int) == r as int);
        r
    }

    /// The term as text, with an explicit leading sign: `+5d20-69`.
    pub fn to_string(&self) -> (r: String)
        ensures
            r@ == self@.text(),
    {
        let mut out: Vec<char> = Vec::new();
        self.push_text(&mut out);
        string_of(out)
    }

    /// Appends the term's text.
    pub fn push_text(&self, out: &mut Vec<char>)
        ensures
            final(out)@ == old(out)@ + self@.text(),
    {
        out.push(if self.neg {
            '-'
        } else {
            '+'
        });
        push_decimal(out, self.count as u128);
        out.push('d');
        push_decimal(out, self.eyes as u128);
        if self.add != 0 {
            push_signed(out, self.add as i128);
        }
        assert(out@ =~= old(out)@ + self@.text());
    }
}

} // verus!
