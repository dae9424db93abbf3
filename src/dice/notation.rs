//! Dice notation as text: stripping blanks, cutting an expression into
//! terms at each die marker, and reading the fields of one term.
//!
//! A term reads `[sign][count]d(eyes)[!explode][modifier]`: `count` is a run
//! of decimal digits, the marker is `d` or `D`, `eyes` a run of digits and
//! `%`, `explode` a `!` with digits after it, and the modifier a sign with
//! digits after it. A term may stand anywhere in its text: the leftmost
//! place where one begins is taken.

use crate::dice::die::{Die, Term};
use crate::errors::{DiceError, ParsingError, StructureError};
use crate::text::{chars_of, string_of};
use vstd::prelude::*;

verus! {

/// A character that `char::is_whitespace` reports: the Unicode property
/// `White_Space`.
pub open spec fn is_blank(c: char) -> bool {
    ('\t' <= c && c <= '\r') || c == ' ' || c == '\u{85}' || c == '\u{a0}' || c == '\u{1680}'
        || ('\u{2000}' <= c && c <= '\u{200a}') || c == '\u{2028}' || c == '\u{2029}' || c
        == '\u{202f}' || c == '\u{205f}' || c == '\u{3000}'
}

pub open spec fn is_digit(c: char) -> bool {
    '0' <= c && c <= '9'
}

/// The die marker, in either case.
pub open spec fn is_marker(c: char) -> bool {
    c == 'd' || c == 'D'
}

pub open spec fn is_sign(c: char) -> bool {
    c == '+' || c == '-'
}

/// A character of the eyes field: a digit or `%`.
pub open spec fn is_face(c: char) -> bool {
    is_digit(c) || c == '%'
}

/// A character of a run: of the eyes field when `faces` holds, else a digit.
pub open spec fn in_run(c: char, faces: bool) -> bool {
    if faces {
        is_face(c)
    } else {
        is_digit(c)
    }
}

/// `s` without its blank characters.
pub open spec fn strip_blanks(s: Seq<char>) -> Seq<char>
    decreases s.len(),
{
    if s.len() == 0 {
        s
    } else if is_blank(s.last()) {
        strip_blanks(s.drop_last())
    } else {
        strip_blanks(s.drop_last()).push(s.last())
    }
}

/// Where the run of characters that begins at `i` ends (the first index at
/// or after `i` that holds no character of the run).
pub open spec fn run_end(s: Seq<char>, i: int, faces: bool) -> int
    decreases s.len() - i,
{
    if 0 <= i < s.len() && in_run(s[i], faces) {
        run_end(s, i + 1, faces)
    } else {
        i
    }
}

pub open spec fn digit_value(c: char) -> nat {
    (c as int - '0' as int) as nat
}

/// The number that a run of decimal digits writes.
pub open spec fn digits_value(s: Seq<char>) -> nat
    decreases s.len(),
{
    if s.len() == 0 {
        0
    } else {
        10 * digits_value(s.drop_last()) + digit_value(s.last())
    }
}

pub open spec fn all_digits(s: Seq<char>) -> bool {
    forall|k: int| 0 <= k < s.len() ==> is_digit(#[trigger] s[k])
}

pub proof fn lemma_run_end(s: Seq<char>, i: int, faces: bool)
    requires
        0 <= i <= s.len(),
    ensures
        i <= run_end(s, i, faces) <= s.len(),
        forall|k: int| i <= k < run_end(s, i, faces) ==> in_run(#[trigger] s[k], faces),
        run_end(s, i, faces) < s.len() ==> !in_run(s[run_end(s, i, faces)], faces),
    decreases s.len() - i,
{
    if i < s.len() && in_run(s[i], faces) {
        lemma_run_end(s, i + 1, faces);
    }
}

/// A longer run of digits writes no smaller a number.
pub proof fn lemma_digits_value_prefix(s: Seq<char>, j: int)
    requires
        0 <= j <= s.len(),
    ensures
        digits_value(s.subrange(0, j)) <= digits_value(s),
    decreases s.len(),
{
    if j < s.len() {
        assert(s.drop_last().subrange(0, j) == s.subrange(0, j));
        lemma_digits_value_prefix(s.drop_last(), j);
    } else {
        assert(s.subrange(0, j) == s);
    }
}

pub fn is_blank_char(c: char) -> (r: bool)
    ensures
        r == is_blank(c),
{
    ('\t' <= c && c <= '\r') || c == ' ' || c == '\u{85}' || c == '\u{a0}' || c == '\u{1680}'
        || ('\u{2000}' <= c && c <= '\u{200a}') || c == '\u{2028}' || c == '\u{2029}' || c
        == '\u{202f}' || c == '\u{205f}' || c == '\u{3000}'
}

fn in_run_char(c: char, faces: bool) -> (r: bool)
    ensures
        r == in_run(c, faces),
{
    if faces {
        ('0' <= c && c <= '9') || c == '%'
    } else {
        '0' <= c && c <= '9'
    }
}

/// The characters of `s` that are not blank, in order.
pub fn strip(s: &Vec<char>) -> (r: Vec<char>)
    ensures
        r@ == strip_blanks(s@),
{
    let mut r: Vec<char> = Vec::new();
    let mut i: usize = 0;
    while i < s.len()
        invariant
            i <= s.len(),
            r@ == strip_blanks(s@.subrange(0, i as int)),
        decreases s.len() - i,
    {
        assert(s@.subrange(0, i + 1).drop_last() == s@.subrange(0, i as int));
        if !is_blank_char(s[i]) {
            r.push(s[i]);
        }
        i = i + 1;
    }
    assert(s@.subrange(0, s.len() as int) == s@);
    r
}

/// The end of the run that begins at `i`.
fn find_run_end(s: &Vec<char>, i: usize, faces: bool) -> (r: usize)
    requires
        i <= s.len(),
    ensures
        r == run_end(s@, i as int, faces),
{
    let mut j: usize = i;
    while j < s.len() && in_run_char(s[j], faces)
        invariant
            i <= j <= s.len(),
            run_end(s@, j as int, faces) == run_end(s@, i as int, faces),
        decreases s.len() - j,
    {
        j = j + 1;
    }
    j
}

/// The number that the digits `s[from..to]` write, where it is at most
/// `limit`.
fn read_digits(s: &Vec<char>, from: usize, to: usize, limit: u64) -> (r: Option<u64>)
    requires
        from <= to <= s.len(),
        all_digits(s@.subrange(from as int, to as int)),
        limit <= u32::MAX,
    ensures
        r == (if digits_value(s@.subrange(from as int, to as int)) <= limit {
            Some(digits_value(s@.subrange(from as int, to as int)) as u64)
        } else {
            None::<u64>
        }),
{
    let ghost d = s@.subrange(from as int, to as int);
    let mut acc: u64 = 0;
    let mut i: usize = from;
    while i < to
        invariant
            from <= i <= to <= s.len(),
            d == s@.subrange(from as int, to as int),
            all_digits(d),
            acc == digits_value(s@.subrange(from as int, i as int)),
            acc <= limit <= u32::MAX,
        decreases to - i,
    {
        assert(d[i - from] == s[i as int]);
        assert(s@.subrange(from as int, i + 1).drop_last() == s@.subrange(from as int, i as int));
        acc = acc * 10 + (s[i] as u64 - '0' as u64);
        i = i + 1;
        if acc > limit {
            proof {
                assert(d.subrange(0, i - from) == s@.subrange(from as int, i as int));
                lemma_digits_value_prefix(d, i - from);
            }
            return None;
        }
    }
    Some(acc)
}

/// A die marker stands after the run of digits that begins at `i`.
pub open spec fn marker_after_digits(s: Seq<char>, i: int) -> bool {
    run_end(s, i, false) < s.len() && is_marker(s[run_end(s, i, false)])
}

/// Where the matches of "digits, then a die marker" begin, from `from`
/// onwards: the leftmost match, then the leftmost after its end, and so on.
pub open spec fn marker_starts(s: Seq<char>, from: int) -> Seq<int>
    decreases s.len() - from,
{
    if from < 0 || from >= s.len() {
        Seq::empty()
    } else if marker_after_digits(s, from) {
        proof {
            lemma_run_end(s, from, false);
        }
        seq![from] + marker_starts(s, run_end(s, from, false) + 1)
    } else {
        marker_starts(s, from + 1)
    }
}

/// Where the text of term `k` begins: at 0 for the first, else one
/// character before its marker match, so that a sign goes with it.
pub open spec fn cut(starts: Seq<int>, k: int) -> int {
    if k == 0 {
        0
    } else {
        starts[k] - 1
    }
}

/// The texts of the terms of `s`: one for each marker match, or `s` itself
/// where there is none.
pub open spec fn term_texts(s: Seq<char>) -> Seq<Seq<char>> {
    let st = marker_starts(s, 0);
    let n: int = if st.len() == 0 {
        1
    } else {
        st.len() as int
    };
    Seq::new(
        n as nat,
        |k: int|
            s.subrange(
                cut(st, k),
                if k + 1 < n {
                    cut(st, k + 1)
                } else {
                    s.len() as int
                },
            ),
    )
}

pub proof fn lemma_run_end_inside(s: Seq<char>, i: int, q: int, faces: bool)
    requires
        0 <= i <= q <= run_end(s, i, faces),
        run_end(s, i, faces) <= s.len(),
    ensures
        run_end(s, q, faces) == run_end(s, i, faces),
    decreases q - i,
{
    if q > i {
        lemma_run_end_inside(s, i + 1, q, faces);
    }
}

/// No match begins inside a run of digits that no marker follows.
pub proof fn lemma_skip_run(s: Seq<char>, from: int, q: int)
    requires
        0 <= from <= q <= run_end(s, from, false),
        run_end(s, from, false) < s.len(),
        !marker_after_digits(s, from),
    ensures
        marker_starts(s, q) == marker_starts(s, run_end(s, from, false) + 1),
    decreases run_end(s, from, false) - q,
{
    lemma_run_end(s, from, false);
    lemma_run_end_inside(s, from, q, false);
    if q < run_end(s, from, false) {
        lemma_skip_run(s, from, q + 1);
    }
}

pub proof fn lemma_marker_starts(s: Seq<char>, from: int)
    requires
        0 <= from,
    ensures
        forall|k: int|
            0 <= k < marker_starts(s, from).len() ==> from <= #[trigger] marker_starts(
                s,
                from,
            )[k] < s.len(),
        forall|j: int, k: int|
            #![trigger marker_starts(s, from)[j], marker_starts(s, from)[k]]
            0 <= j < k < marker_starts(s, from).len() ==> marker_starts(s, from)[j]
                < marker_starts(s, from)[k],
    decreases s.len() - from,
{
    if from < s.len() {
        lemma_run_end(s, from, false);
        let ms = marker_starts(s, from);
        if marker_after_digits(s, from) {
            let e = run_end(s, from, false) + 1;
            lemma_marker_starts(s, e);
            let rest = marker_starts(s, e);
            assert(ms == seq![from] + rest);
            assert forall|k: int| 0 <= k < ms.len() implies from <= #[trigger] ms[k] < s.len() by {
                if k > 0 {
                    assert(ms[k] == rest[k - 1]);
                }
            }
            assert forall|j: int, k: int| #![trigger ms[j], ms[k]] 0 <= j < k < ms.len() implies ms[j]
                < ms[k] by {
                assert(ms[k] == rest[k - 1]);
                if j > 0 {
                    assert(ms[j] == rest[j - 1]);
                }
            }
        } else {
            lemma_marker_starts(s, from + 1);
            let rest = marker_starts(s, from + 1);
            assert(ms == rest);
            assert forall|k: int| 0 <= k < ms.len() implies from <= #[trigger] ms[k] < s.len() by {
                assert(ms[k] == rest[k]);
            }
            assert forall|j: int, k: int| #![trigger ms[j], ms[k]] 0 <= j < k < ms.len() implies ms[j]
                < ms[k] by {
                assert(ms[k] == rest[k]);
                assert(ms[j] == rest[j]);
            }
        }
    }
}

/// The characters `s[from..to]`.
fn copy_range(s: &Vec<char>, from: usize, to: usize) -> (r: Vec<char>)
    requires
        from <= to <= s.len(),
    ensures
        r@ == s@.subrange(from as int, to as int),
{
    let mut r: Vec<char> = Vec::new();
    let mut i: usize = from;
    while i < to
        invariant
            from <= i <= to <= s.len(),
            r@ == s@.subrange(from as int, i as int),
        decreases to - i,
    {
        r.push(s[i]);
        i = i + 1;
        assert(r@ =~= s@.subrange(from as int, i as int));
    }
    r
}

/// Where the matches of "digits, then a die marker" begin.
pub fn marker_positions(s: &Vec<char>) -> (r: Vec<usize>)
    ensures
        r@.map_values(|p: usize| p as int) == marker_starts(s@, 0),
{
    let mut r: Vec<usize> = Vec::new();
    let mut pos: usize = 0;
    while pos < s.len()
        invariant
            pos <= s.len(),
            r@.map_values(|p: usize| p as int) + marker_starts(s@, pos as int) == marker_starts(
                s@,
                0,
            ),
        decreases s.len() - pos,
    {
        let e = find_run_end(s, pos, false);
        proof {
            lemma_run_end(s@, pos as int, false);
        }
        if e < s.len() && (s[e] == 'd' || s[e] == 'D') {
            assert(r@.push(pos).map_values(|p: usize| p as int) =~= r@.map_values(
                |p: usize| p as int,
            ).push(pos as int));
            assert(marker_starts(s@, pos as int) == seq![pos as int] + marker_starts(
                s@,
                e + 1,
            ));
            r.push(pos);
            assert(r@.map_values(|p: usize| p as int) + marker_starts(s@, e + 1) =~= marker_starts(
                s@,
                0,
            ));
            pos = e + 1;
        } else if e < s.len() {
            proof {
                lemma_skip_run(s@, pos as int, pos as int);
            }
            pos = e + 1;
        } else {
            assert(!marker_after_digits(s@, pos as int));
            pos = pos + 1;
        }
    }
    assert(r@.map_values(|p: usize| p as int) + marker_starts(s@, pos as int) =~= r@.map_values(
        |p: usize| p as int,
    ));
    r
}

/// Cuts `s` into the texts of its terms.
pub fn split_terms(s: &Vec<char>) -> (r: Vec<Vec<char>>)
    ensures
        r.len() == term_texts(s@).len(),
        forall|k: int| 0 <= k < r.len() ==> (#[trigger] r[k])@ == term_texts(s@)[k],
{
    let st = marker_positions(s);
    let ghost ms = marker_starts(s@, 0);
    proof {
        lemma_marker_starts(s@, 0);
        assert(st@.len() == ms.len());
        assert forall|k: int| 0 <= k < st@.len() implies st@[k] as int == ms[k] by {
            assert(st@.map_values(|p: usize| p as int)[k] == st@[k] as int);
        }
    }
    let ghost tt = term_texts(s@);
    let mut out: Vec<Vec<char>> = Vec::new();
    let mut prev: usize = 0;
    let mut k: usize = 1;
    while k < st.len()
        invariant
            1 <= k,
            st.len() >= 1 ==> k <= st.len(),
            st.len() == 0 ==> k == 1,
            st@.len() == ms.len(),
            forall|j: int| 0 <= j < st@.len() ==> st@[j] as int == ms[j],
            forall|j: int| 0 <= j < ms.len() ==> 0 <= #[trigger] ms[j] < s.len(),
            forall|i: int, j: int| #![trigger ms[i], ms[j]] 0 <= i < j < ms.len() ==> ms[i] < ms[j],
            tt == term_texts(s@),
            ms == marker_starts(s@, 0),
            out.len() == k - 1,
            prev as int == cut(ms, k - 1),
            prev <= s.len(),
            forall|j: int| 0 <= j < out.len() ==> (#[trigger] out[j])@ == tt[j],
        decreases st.len() - k,
    {
        assert(ms[0] < ms[k as int]);
        let at = st[k] - 1;
        proof {
            if k > 1 {
                assert(ms[k - 1] < ms[k as int]);
            }
        }
        let piece = copy_range(s, prev, at);
        out.push(piece);
        prev = at;
        k = k + 1;
    }
    let last = copy_range(s, prev, s.len());
    out.push(last);
    proof {
        if st.len() == 0 {
            assert(k == 1);
        }
    }
    out
}

/// Past the sign at `i`, if one stands there.
pub open spec fn sign_end(t: Seq<char>, i: int) -> int {
    if 0 <= i < t.len() && is_sign(t[i]) {
        i + 1
    } else {
        i
    }
}

/// A term begins at `i`: an optional sign, digits, a die marker, then at
/// least one character of the eyes field.
pub open spec fn term_at(t: Seq<char>, i: int) -> bool {
    let m = run_end(t, sign_end(t, i), false);
    m + 1 < t.len() && is_marker(t[m]) && is_face(t[m + 1])
}

/// The leftmost place at or after `i` where a term begins.
pub open spec fn first_term_from(t: Seq<char>, i: int) -> Option<int>
    decreases t.len() - i,
{
    if i < 0 || i >= t.len() {
        None
    } else if term_at(t, i) {
        Some(i)
    } else {
        first_term_from(t, i + 1)
    }
}

/// The fields of a term as written. An empty `count` is an absent one.
pub struct Fields {
    pub pre: Option<char>,
    pub count: Seq<char>,
    pub eyes: Seq<char>,
    pub explode: Option<Seq<char>>,
    pub add: Option<Seq<char>>,
}

/// Where the eyes field of the term at `i` ends.
pub open spec fn eyes_end(t: Seq<char>, i: int) -> int {
    run_end(t, run_end(t, sign_end(t, i), false) + 1, true)
}

/// Where the explode field of the term at `i` ends.
pub open spec fn explode_end(t: Seq<char>, i: int) -> int {
    let e = eyes_end(t, i);
    if e < t.len() && t[e] == '!' {
        run_end(t, e + 1, false)
    } else {
        e
    }
}

/// Where the modifier of the term at `i` ends.
pub open spec fn add_end(t: Seq<char>, i: int) -> int {
    let x = explode_end(t, i);
    if x < t.len() && is_sign(t[x]) {
        run_end(t, x + 1, false)
    } else {
        x
    }
}

/// The fields of the term that begins at `i`; each run is taken as long as
/// it goes.
pub open spec fn fields_at(t: Seq<char>, i: int) -> Fields {
    let p = sign_end(t, i);
    let m = run_end(t, p, false);
    let e = eyes_end(t, i);
    let x = explode_end(t, i);
    let a = add_end(t, i);
    Fields {
        pre: if p > i {
            Some(t[i])
        } else {
            None
        },
        count: t.subrange(p, m),
        eyes: t.subrange(m + 1, e),
        explode: if x > e {
            Some(t.subrange(e, x))
        } else {
            None
        },
        add: if a > x {
            Some(t.subrange(x, a))
        } else {
            None
        },
    }
}

/// The count of dice: 1 where it is absent or does not fit in `u16`.
pub open spec fn count_of(f: Fields) -> nat {
    if f.count.len() > 0 && digits_value(f.count) <= u16::MAX {
        digits_value(f.count)
    } else {
        1
    }
}

/// The eyes: 100 for `%`, 6 where the field is no number that fits in `u16`.
pub open spec fn eyes_of(f: Fields) -> nat {
    if f.eyes == seq!['%'] {
        100
    } else if all_digits(f.eyes) && digits_value(f.eyes) <= u16::MAX {
        digits_value(f.eyes)
    } else {
        6
    }
}

/// The modifier: 0 where it is absent, has no digits, or does not fit in
/// `i32`.
pub open spec fn add_of(f: Fields) -> int {
    match f.add {
        Some(a) => {
            let d = a.drop_first();
            let v = if a[0] == '-' {
                -digits_value(d)
            } else {
                digits_value(d) as int
            };
            if d.len() > 0 && i32::MIN <= v <= i32::MAX {
                v
            } else {
                0
            }
        },
        None => 0,
    }
}

/// What the text of one term reads as.
pub open spec fn term_of(t: Seq<char>) -> Result<Term, DiceError> {
    match first_term_from(t, 0) {
        None => Err(DiceError::Parsing(ParsingError::WrongFormat)),
        Some(i) => {
            let f = fields_at(t, i);
            if count_of(f) == 0 {
                Err(DiceError::Structure(StructureError::ZeroCount))
            } else if eyes_of(f) == 0 {
                Err(DiceError::Structure(StructureError::ZeroEyes))
            } else {
                Ok(Term { eyes: eyes_of(f), count: count_of(f), add: add_of(f), neg: f.pre == Some('-') })
            }
        },
    }
}

/// The terms that the texts read as, in order; the first failure ends it.
pub open spec fn terms_of(texts: Seq<Seq<char>>) -> Result<Seq<Term>, DiceError>
    decreases texts.len(),
{
    if texts.len() == 0 {
        Ok(Seq::empty())
    } else {
        match terms_of(texts.drop_last()) {
            Err(e) => Err(e),
            Ok(ts) => match term_of(texts.last()) {
                Err(e) => Err(e),
                Ok(t) => Ok(ts.push(t)),
            },
        }
    }
}

/// What an expression reads as: its blanks dropped, cut into terms, each
/// term read.
pub open spec fn expression_terms(s: Seq<char>) -> Result<Seq<Term>, DiceError> {
    terms_of(term_texts(strip_blanks(s)))
}

pub proof fn lemma_first_term(t: Seq<char>, i: int)
    requires
        0 <= i,
    ensures
        first_term_from(t, i) matches Some(j) ==> i <= j < t.len() && term_at(t, j),
    decreases t.len() - i,
{
    if i < t.len() && !term_at(t, i) {
        lemma_first_term(t, i + 1);
    }
}

/// The run of digits that begins at `from` holds digits only.
proof fn lemma_digit_run(t: Seq<char>, from: int)
    requires
        0 <= from <= t.len(),
    ensures
        all_digits(t.subrange(from, run_end(t, from, false))),
        from <= run_end(t, from, false) <= t.len(),
{
    lemma_run_end(t, from, false);
    let r = t.subrange(from, run_end(t, from, false));
    assert forall|k: int| 0 <= k < r.len() implies is_digit(#[trigger] r[k]) by {
        assert(r[k] == t[from + k]);
        assert(in_run(t[from + k], false));
    }
}

fn is_sign_char(c: char) -> (r: bool)
    ensures
        r == is_sign(c),
{
    c == '+' || c == '-'
}

fn term_begins(t: &Vec<char>, i: usize) -> (r: bool)
    requires
        i <= t.len(),
    ensures
        r == term_at(t@, i as int),
{
    let p: usize = if i < t.len() && is_sign_char(t[i]) {
        i + 1
    } else {
        i
    };
    let m = find_run_end(t, p, false);
    proof {
        lemma_run_end(t@, p as int, false);
    }
    m < t.len() && m + 1 < t.len() && (t[m] == 'd' || t[m] == 'D') && in_run_char(t[m + 1], true)
}

/// The leftmost place where a term begins.
fn term_start(t: &Vec<char>) -> (r: Option<usize>)
    ensures
        r matches Some(i) ==> first_term_from(t@, 0) == Some(i as int),
        r is None ==> first_term_from(t@, 0) is None,
{
    let mut i: usize = 0;
    while i < t.len()
        invariant
            i <= t.len(),
            first_term_from(t@, 0) == first_term_from(t@, i as int),
        decreases t.len() - i,
    {
        if term_begins(t, i) {
            return Some(i);
        }
        i = i + 1;
    }
    None
}

/// Where the fields of the term at `start` lie in its text.
struct Spans {
    start: usize,
    p: usize,
    m: usize,
    e: usize,
    x: usize,
    a: usize,
}

impl Spans {
    spec fn agree(&self, t: Seq<char>) -> bool {
        &&& self.p == sign_end(t, self.start as int)
        &&& self.m == run_end(t, self.p as int, false)
        &&& self.e == eyes_end(t, self.start as int)
        &&& self.x == explode_end(t, self.start as int)
        &&& self.a == add_end(t, self.start as int)
        &&& self.start <= self.p <= self.m
        &&& self.m + 1 < self.e <= self.x <= self.a <= t.len()
    }
}

fn spans_at(t: &Vec<char>, i: usize) -> (r: Spans)
    requires
        i < t.len(),
        term_at(t@, i as int),
    ensures
        r.start == i,
        r.agree(t@),
{
    let p: usize = if is_sign_char(t[i]) {
        i + 1
    } else {
        i
    };
    let m = find_run_end(t, p, false);
    proof {
        lemma_run_end(t@, p as int, false);
    }
    let e = find_run_end(t, m + 1, true);
    proof {
        lemma_run_end(t@, m + 1, true);
        assert(in_run(t@[m + 1], true));
    }
    let x: usize = if e < t.len() && t[e] == '!' {
        let x = find_run_end(t, e + 1, false);
        proof {
            lemma_run_end(t@, e + 1, false);
        }
        x
    } else {
        e
    };
    let a: usize = if x < t.len() && is_sign_char(t[x]) {
        let a = find_run_end(t, x + 1, false);
        proof {
            lemma_run_end(t@, x + 1, false);
        }
        a
    } else {
        x
    };
    Spans { start: i, p, m, e, x, a }
}

fn all_digits_in(t: &Vec<char>, from: usize, to: usize) -> (r: bool)
    requires
        from <= to <= t.len(),
    ensures
        r == all_digits(t@.subrange(from as int, to as int)),
{
    let mut i: usize = from;
    while i < to
        invariant
            from <= i <= to <= t.len(),
            forall|k: int| from <= k < i ==> is_digit(#[trigger] t@[k]),
        decreases to - i,
    {
        if !in_run_char(t[i], false) {
            assert(t@.subrange(from as int, to as int)[i - from] == t@[i as int]);
            return false;
        }
        i = i + 1;
    }
    assert forall|k: int| 0 <= k < to - from implies is_digit(
        #[trigger] t@.subrange(from as int, to as int)[k],
    ) by {
        assert(t@.subrange(from as int, to as int)[k] == t@[from + k]);
    }
    true
}

/// Reads the text of one term.
pub fn read_term(t: &Vec<char>) -> (r: Result<Die, DiceError>)
    ensures
        match r {
            Ok(d) => term_of(t@) == Ok::<Term, DiceError>(d@) && d.wf(),
            Err(e) => term_of(t@) == Err::<Term, DiceError>(e),
        },
{
    let start = match term_start(t) {
        None => {
            return Err(DiceError::Parsing(ParsingError::WrongFormat));
        },
        Some(i) => i,
    };
    proof {
        lemma_first_term(t@, 0);
    }
    let sp = spans_at(t, start);
    let ghost f = fields_at(t@, start as int);
    proof {
        lemma_digit_run(t@, sp.p as int);
    }
    let count: u16 = if sp.m > sp.p {
        match read_digits(t, sp.p, sp.m, 65535) {
            Some(v) => v as u16,
            None => 1,
        }
    } else {
        1
    };
    assert(count as nat == count_of(f));
    let eyes: u16 = if sp.e == sp.m + 2 && t[sp.m + 1] == '%' {
        assert(f.eyes =~= seq!['%']);
        100
    } else if all_digits_in(t, sp.m + 1, sp.e) {
        match read_digits(t, sp.m + 1, sp.e, 65535) {
            Some(v) => v as u16,
            None => 6,
        }
    } else {
        6
    };
    proof {
        if !(sp.e == sp.m + 2 && t@[sp.m + 1] == '%') {
            if f.eyes == seq!['%'] {
                assert(f.eyes.len() == 1);
                assert(f.eyes[0] == t@[sp.m + 1]);
            }
        }
    }
    assert(eyes as nat == eyes_of(f));
    let add: i32 = if sp.a > sp.x && sp.a > sp.x + 1 {
        proof {
            lemma_digit_run(t@, sp.x + 1);
            assert(t@.subrange(sp.x as int, sp.a as int).drop_first() =~= t@.subrange(
                sp.x + 1,
                sp.a as int,
            ));
        }
        match read_digits(t, sp.x + 1, sp.a, 2147483648) {
            Some(v) => {
                if t[sp.x] == '-' {
                    (-(v as i64)) as i32
                } else if v <= 2147483647 {
                    v as i32
                } else {
                    0
                }
            },
            None => 0,
        }
    } else {
        0
    };
    proof {
        if sp.a > sp.x {
            assert(t@.subrange(sp.x as int, sp.a as int)[0] == t@[sp.x as int]);
            assert(t@.subrange(sp.x as int, sp.a as int).drop_first() =~= t@.subrange(
                sp.x + 1,
                sp.a as int,
            ));
        }
    }
    assert(add as int == add_of(f));
    let neg = start < sp.p && t[start] == '-';
    if count == 0 {
        return Err(DiceError::Structure(StructureError::ZeroCount));
    }
    if eyes == 0 {
        return Err(DiceError::Structure(StructureError::ZeroEyes));
    }
    Ok(Die::new_internal(eyes, count, add, neg))
}

/// A failure among the first `k` texts is the failure of them all.
pub proof fn lemma_terms_failure(texts: Seq<Seq<char>>, k: int, e: DiceError)
    requires
        0 <= k <= texts.len(),
        terms_of(texts.take(k)) == Err::<Seq<Term>, DiceError>(e),
    ensures
        terms_of(texts) == Err::<Seq<Term>, DiceError>(e),
    decreases texts.len(),
{
    if k == texts.len() {
        assert(texts.take(k) == texts);
    } else {
        assert(texts.drop_last().take(k) == texts.take(k));
        lemma_terms_failure(texts.drop_last(), k, e);
    }
}

/// The terms of the expression `s`, in order, or the first failure.
pub fn read_expression(s: &str) -> (r: Result<Vec<Die>, DiceError>)
    ensures
        match r {
            Ok(v) => {
                &&& expression_terms(s@) == Ok::<Seq<Term>, DiceError>(
                    v@.map_values(|d: Die| d@),
                )
                &&& v.len() > 0
                &&& forall|k: int| 0 <= k < v.len() ==> (#[trigger] v[k]).wf()
            },
            Err(e) => expression_terms(s@) == Err::<Seq<Term>, DiceError>(e),
        },
{
    let chars = chars_of(s);
    let stripped = strip(&chars);
    let texts = split_terms(&stripped);
    let ghost tt = term_texts(stripped@);
    let mut out: Vec<Die> = Vec::new();
    let mut k: usize = 0;
    assert(tt.take(0) =~= Seq::<Seq<char>>::empty());
    assert(out@.map_values(|d: Die| d@) =~= Seq::<Term>::empty());
    while k < texts.len()
        invariant
            k <= texts.len(),
            texts.len() == tt.len(),
            tt == term_texts(stripped@),
            stripped@ == strip_blanks(s@),
            forall|j: int| 0 <= j < texts.len() ==> (#[trigger] texts[j])@ == tt[j],
            out.len() == k,
            terms_of(tt.take(k as int)) == Ok::<Seq<Term>, DiceError>(
                out@.map_values(|d: Die| d@),
            ),
            forall|j: int| 0 <= j < out.len() ==> (#[trigger] out[j]).wf(),
        decreases texts.len() - k,
    {
        assert(tt.take(k + 1).drop_last() =~= tt.take(k as int));
        assert(tt.take(k + 1).last() == tt[k as int]);
        match read_term(&texts[k]) {
            Err(e) => {
                proof {
                    lemma_terms_failure(tt, k + 1, e);
                }
                return Err(e);
            },
            Ok(d) => {
                let ghost before = out@;
                out.push(d);
                assert(out@.map_values(|d: Die| d@) =~= before.map_values(|d: Die| d@).push(d@));
            },
        }
        k = k + 1;
    }
    assert(tt.take(k as int) == tt);
    Ok(out)
}

/// The fields of a term as text, each present only where it was written.
pub struct TermCaptures {
    pub pre: Option<String>,
    pub count: Option<String>,
    pub eyes: String,
    pub explode: Option<String>,
    pub add: Option<String>,
}

pub open spec fn opt_text(o: Option<String>) -> Option<Seq<char>> {
    match o {
        Some(s) => Some(s@),
        None => None,
    }
}

impl TermCaptures {
    /// The captured texts are the fields `f`.
    pub open spec fn agrees(&self, f: Fields) -> bool {
        &&& opt_text(self.pre) == match f.pre {
            Some(c) => Some(seq![c]),
            None => None,
        }
        &&& opt_text(self.count) == if f.count.len() > 0 {
            Some(f.count)
        } else {
            None
        }
        &&& self.eyes@ == f.eyes
        &&& opt_text(self.explode) == f.explode
        &&& opt_text(self.add) == f.add
    }
}

/// Where the matches of "digits, then a die marker" begin in `s`, counted
/// in characters.
pub fn find_dice(s: &str) -> (r: Vec<usize>)
    ensures
        r@.map_values(|p: usize| p as int) == marker_starts(s@, 0),
{
    let t = chars_of(s);
    marker_positions(&t)
}

/// The fields of the leftmost term in `s`, if a term begins anywhere in it.
pub fn dice_content(s: &str) -> (r: Option<TermCaptures>)
    ensures
        match first_term_from(s@, 0) {
            None => r is None,
            Some(i) => r matches Some(c) && c.agrees(fields_at(s@, i)),
        },
{
    let t = chars_of(s);
    let start = match term_start(&t) {
        None => {
            return None;
        },
        Some(i) => i,
    };
    proof {
        lemma_first_term(t@, 0);
    }
    let sp = spans_at(&t, start);
    let pre = if sp.p > start {
        Some(string_of(copy_range(&t, start, sp.p)))
    } else {
        None
    };
    let count = if sp.m > sp.p {
        Some(string_of(copy_range(&t, sp.p, sp.m)))
    } else {
        None
    };
    let eyes = string_of(copy_range(&t, sp.m + 1, sp.e));
    let explode = if sp.x > sp.e {
        Some(string_of(copy_range(&t, sp.e, sp.x)))
    } else {
        None
    };
    let add = if sp.a > sp.x {
        Some(string_of(copy_range(&t, sp.x, sp.a)))
    } else {
        None
    };
    let r = TermCaptures { pre, count, eyes, explode, add };
    assert(r.agrees(fields_at(t@, start as int))) by {
        if sp.p > start {
            assert(t@.subrange(start as int, sp.p as int) =~= seq![t@[start as int]]);
        }
    }
    Some(r)
}

} // verus!
