//! Musical time: points and lengths counted in whole notes, time signatures and tempo.
use crate::frac::{frac_of, Frac};
use vstd::prelude::*;

verus! {

/// A point or a length in musical time, counted in whole notes.
pub type MusicTime = Frac;

/// A note length, counted in whole notes.
pub type Beat = Frac;

/// Wall-clock time, counted exactly in seconds.
pub type Seconds = Frac;

/// How many beats of unit `1 / den` make up one measure.
#[derive(Clone, Copy, Debug, PartialEq, Eq, Structural)]
pub struct TimeSignature {
    pub num: u16,
    pub den: u16,
}

impl TimeSignature {
    pub open spec fn wf(self) -> bool {
        self.num > 0 && self.den > 0
    }

    /// The length of one measure in whole notes.
    pub open spec fn spec_measure(self) -> Frac {
        frac_of(self.num as int, self.den as int).unwrap()
    }

    pub fn common() -> (r: TimeSignature)
        ensures
            r == (TimeSignature { num: 4, den: 4 }),
    {
        TimeSignature { num: 4, den: 4 }
    }

    pub fn measure(&self) -> (r: Frac)
        requires
            self.wf(),
        ensures
            r == self.spec_measure(),
            r.wf(),
            r.same(Frac { num: self.num as i64, den: self.den as i64 }),
    {
        Frac::new(self.num as i64, self.den as i64)
    }
}

/// `n` quarter notes.
pub fn beats(n: u32) -> (r: MusicTime)
    ensures
        r.wf(),
        r.same(Frac { num: n as i64, den: 4 }),
        Some(r) == frac_of(n as int, 4),
{
    Frac::new(n as i64, 4)
}

/// `n` whole measures of the time signature.
pub fn measures(n: u32, ts: TimeSignature) -> (r: MusicTime)
    requires
        ts.wf(),
    ensures
        r.wf(),
        r.same(Frac { num: (n as int * ts.num as int) as i64, den: ts.den as i64 }),
{
    proof {
        assert(n as int * ts.num as int <= 0xffff_ffff * 0xffff) by (nonlinear_arith)
            requires
                n <= 0xffff_ffff,
                ts.num <= 0xffff,
        ;
    }
    Frac::new(n as i64 * ts.num as i64, ts.den as i64)
}

/// The whole measures contained in `t` and what is left of `t` after them.
pub open spec fn spec_split_measures(t: MusicTime, ts: TimeSignature) -> (int, Option<Frac>) {
    let m = (t.num * ts.den) / (t.den * ts.num);
    (m, frac_of(t.num * ts.den - m * ts.num * t.den, t.den * ts.den))
}

/// Splits a point in time into the number of whole measures before it and the position
/// inside its measure: `t == m * measure + beat` with `0 <= beat < measure`.
pub fn split_measures(t: MusicTime, ts: TimeSignature) -> (r: Option<(i64, MusicTime)>)
    requires
        t.wf(),
        ts.wf(),
        t.num >= 0,
    ensures
        r is Some <==> spec_split_measures(t, ts).1 is Some && spec_split_measures(t, ts).0
            <= i64::MAX,
        r is Some ==> r.unwrap().0 == spec_split_measures(t, ts).0 && Some(r.unwrap().1)
            == spec_split_measures(t, ts).1,
{
    proof {
        assert(0 <= t.num * ts.den <= 0x7fff_ffff_ffff_ffff * 0xffff) by (nonlinear_arith)
            requires
                0 <= t.num <= 0x7fff_ffff_ffff_ffff,
                0 < ts.den <= 0xffff,
        ;
        assert(0 < t.den * ts.num <= 0x7fff_ffff_ffff_ffff * 0xffff) by (nonlinear_arith)
            requires
                0 < t.den <= 0x7fff_ffff_ffff_ffff,
                0 < ts.num <= 0xffff,
        ;
    }
    let a: i128 = t.num as i128 * ts.den as i128;
    let b: i128 = t.den as i128 * ts.num as i128;
    let m: i128 = a / b;
    proof {
        assert(0 <= m <= a) by (nonlinear_arith)
            requires
                m == a / b,
                a >= 0,
                b >= 1,
        ;
        assert(0 <= a - m * b < b) by (nonlinear_arith)
            requires
                m == a / b,
                b > 0,
                a >= 0,
        ;
        assert(a - m * b <= a) by (nonlinear_arith)
            requires
                m >= 0,
                b > 0,
        ;
        assert(a <= 0x7fff_ffff_ffff_ffff * 0xffff) by (nonlinear_arith)
            requires
                a == t.num * ts.den,
                0 <= t.num <= 0x7fff_ffff_ffff_ffff,
                0 < ts.den <= 0xffff,
        ;
        assert(0 < t.den * ts.den <= 0x7fff_ffff_ffff_ffff * 0xffff) by (nonlinear_arith)
            requires
                0 < t.den <= 0x7fff_ffff_ffff_ffff,
                0 < ts.den <= 0xffff,
        ;
        assert(m * ts.num * t.den == m * b) by (nonlinear_arith)
            requires
                b == t.den * ts.num,
        ;
    }
    let rest = crate::frac::from_wide(a - m * b, t.den as i128 * ts.den as i128);
    match rest {
        Some(beat) => if m <= i64::MAX as i128 {
            Some((m as i64, beat))
        } else {
            None
        },
        None => None,
    }
}


} // verus!
