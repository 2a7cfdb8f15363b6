//! Pitches, volumes, instruments, and the tracks of timed events that make up a composition.
use crate::frac::Frac;
use crate::time::{Beat, MusicTime, TimeSignature};
use vstd::prelude::*;

verus! {

/// An octave and a semitone offset inside it (`0..12`, counted from `a`).
#[derive(Clone, Copy, Debug, PartialEq, Eq, Structural)]
pub struct Pitch(pub i32, pub u8);

pub open spec fn midi_of(p: Pitch) -> int {
    12 * (p.0 + 1) + p.1
}

/// The pitch `k` semitones above `p`, carrying into (or borrowing from) the octave.
pub open spec fn spec_transpose(p: Pitch, k: i64) -> Option<Pitch> {
    let total = p.0 * 12 + p.1 + k;
    let o = total / 12;
    if i32::MIN <= o <= i32::MAX {
        Some(Pitch(o as i32, (total % 12) as u8))
    } else {
        None
    }
}

impl Pitch {
    pub open spec fn wf(self) -> bool {
        self.1 < 12
    }

    pub fn to_midi_note(&self) -> (r: i64)
        ensures
            r == midi_of(*self),
    {
        12 * (self.0 as i64 + 1) + self.1 as i64
    }

    pub fn transpose(&self, k: i64) -> (r: Option<Pitch>)
        requires
            self.wf(),
        ensures
            r == spec_transpose(*self, k),
            r is Some ==> r.unwrap().wf() && midi_of(r.unwrap()) == midi_of(*self) + k,
    {
        let total: i128 = self.0 as i128 * 12 + self.1 as i128 + k as i128;
        let (o, s): (i128, i128) = if total >= 0 {
            (total / 12, total % 12)
        } else {
            let q = (-total + 11) / 12;
            (-q, total + q * 12)
        };
        proof {
            assert(o == total / 12 && s == total % 12) by (nonlinear_arith)
                requires
                    total >= 0 ==> o == total / 12 && s == total % 12,
                    total < 0 ==> o == -((-total + 11) / 12) && s == total - o * 12,
            ;
        }
        if o < (i32::MIN as i128) || o > (i32::MAX as i128) {
            None
        } else {
            Some(Pitch(o as i32, s as u8))
        }
    }
}

/// Loudness in `0..=100`.
#[derive(Clone, Copy, Debug, PartialEq, Eq, Structural)]
pub struct Volume(pub u8);

impl Volume {
    pub open spec fn wf(self) -> bool {
        self.0 <= 100
    }
}

#[derive(Clone, Copy, Debug, PartialEq, Eq, Hash, Structural)]
pub enum Instrument {
    SineWave,
    Piano,
    Guitar,
    Bass,
    Drums,
    Violin,
    Flute,
    Organ,
}

#[derive(Clone, Copy, Debug, PartialEq, Eq, Structural)]
pub enum TrackId {
    Instrument(Instrument),
    Custom(u64),
}

/// A pitched sound at a point in musical time.
#[derive(Clone, Copy, Debug, PartialEq, Eq, Structural)]
pub struct Event {
    pub start: MusicTime,
    pub duration: Beat,
    pub volume: Volume,
    pub pitch: Pitch,
}

impl Event {
    pub open spec fn wf(self) -> bool {
        self.start.wf() && self.duration.wf() && self.pitch.wf()
    }
}

/// All the events of one instrument.
#[derive(Clone, Debug, PartialEq)]
pub struct Track {
    pub identifier: TrackId,
    pub instrument: Instrument,
    pub events: Vec<Event>,
}

#[derive(Clone, Debug, PartialEq)]
pub struct Composition {
    pub tracks: Vec<Track>,
    pub time_signature: TimeSignature,
}

/// Every event of the sequence starts no earlier than the one before it.
pub open spec fn sorted_by_start(s: Seq<Event>) -> bool {
    forall|i: int, j: int| 0 <= i < j < s.len() ==> (#[trigger] s[i]).start.le(#[trigger] s[j].start)
}

pub open spec fn all_wf(s: Seq<Event>) -> bool {
    forall|i: int| 0 <= i < s.len() ==> (#[trigger] s[i]).wf()
}

/// Where `e` goes in `s` so that it follows every event that starts no later than it
/// at the end of `s`: the place that keeps a sort by start stable.
pub open spec fn insert_pos(s: Seq<Event>, e: Event) -> int
    decreases s.len(),
{
    if s.len() == 0 {
        0
    } else if s.last().start.le(e.start) {
        s.len() as int
    } else {
        insert_pos(s.drop_last(), e)
    }
}

pub open spec fn insert_sorted(s: Seq<Event>, e: Event) -> Seq<Event> {
    s.insert(insert_pos(s, e), e)
}

/// The events ordered by start time; events that start together keep their order.
pub open spec fn sort_by_start(s: Seq<Event>) -> Seq<Event>
    decreases s.len(),
{
    if s.len() == 0 {
        Seq::empty()
    } else {
        insert_sorted(sort_by_start(s.drop_last()), s.last())
    }
}

pub proof fn lemma_le_trans(a: Frac, b: Frac, c: Frac)
    requires
        a.wf(),
        b.wf(),
        c.wf(),
        a.le(b),
        b.le(c),
    ensures
        a.le(c),
{
    assert(a.num * c.den * b.den <= c.num * a.den * b.den) by (nonlinear_arith)
        requires
            a.num * b.den <= b.num * a.den,
            b.num * c.den <= c.num * b.den,
            a.den > 0,
            b.den > 0,
            c.den > 0,
    ;
    assert(a.num * c.den <= c.num * a.den) by (nonlinear_arith)
        requires
            a.num * c.den * b.den <= c.num * a.den * b.den,
            b.den > 0,
    ;
}

proof fn lemma_insert_pos(s: Seq<Event>, e: Event)
    ensures
        0 <= insert_pos(s, e) <= s.len(),
        insert_pos(s, e) > 0 ==> s[insert_pos(s, e) - 1].start.le(e.start),
        forall|j: int| insert_pos(s, e) <= j < s.len() ==> !(#[trigger] s[j]).start.le(e.start),
    decreases s.len(),
{
    if s.len() > 0 && !s.last().start.le(e.start) {
        let t = s.drop_last();
        lemma_insert_pos(t, e);
        assert forall|j: int| insert_pos(s, e) <= j < s.len() implies !(#[trigger] s[j]).start.le(
            e.start,
        ) by {
            if j < t.len() {
                assert(s[j] == t[j]);
            }
        }
        if insert_pos(s, e) > 0 {
            assert(s[insert_pos(s, e) - 1] == t[insert_pos(s, e) - 1]);
        }
    }
}

pub proof fn lemma_insert_sorted(s: Seq<Event>, e: Event)
    requires
        sorted_by_start(s),
        all_wf(s),
        e.wf(),
    ensures
        sorted_by_start(insert_sorted(s, e)),
        all_wf(insert_sorted(s, e)),
{
    lemma_insert_pos(s, e);
    let p = insert_pos(s, e);
    let t = insert_sorted(s, e);
    assert forall|i: int| 0 <= i < t.len() implies (#[trigger] t[i]).wf() by {
        if i < p {
            assert(t[i] == s[i]);
        } else if i > p {
            assert(t[i] == s[i - 1]);
        }
    }
    assert forall|i: int, j: int| 0 <= i < j < t.len() implies (#[trigger] t[i]).start.le(
        (#[trigger] t[j]).start,
    ) by {
        if j < p {
            assert(t[i] == s[i] && t[j] == s[j]);
        } else if j == p {
            assert(t[i] == s[i]);
            if i < p - 1 {
                lemma_le_trans(s[i].start, s[p - 1].start, e.start);
            }
        } else if i == p {
            assert(t[j] == s[j - 1]);
            assert(!s[j - 1].start.le(e.start));
        } else if i < p {
            assert(t[i] == s[i] && t[j] == s[j - 1]);
        } else {
            assert(t[i] == s[i - 1] && t[j] == s[j - 1]);
        }
    }
}

/// Sorting yields events in start order.
pub proof fn lemma_sort_sorted(s: Seq<Event>)
    requires
        all_wf(s),
    ensures
        sorted_by_start(sort_by_start(s)),
        all_wf(sort_by_start(s)),
    decreases s.len(),
{
    if s.len() > 0 {
        lemma_sort_sorted(s.drop_last());
        lemma_insert_sorted(sort_by_start(s.drop_last()), s.last());
    }
}

fn insert_event(out: &mut Vec<Event>, e: Event)
    ensures
        final(out)@ == insert_sorted(old(out)@, e),
{
    let ghost s = out@;
    let mut k = out.len();
    assert(s.subrange(0, k as int) =~= s);
    while k > 0 && !out[k - 1].start.less_eq(&e.start)
        invariant
            out@ == s,
            k <= s.len(),
            insert_pos(s, e) == insert_pos(s.subrange(0, k as int), e),
        decreases k,
    {
        assert(s.subrange(0, k as int).drop_last() =~= s.subrange(0, k - 1));
        k -= 1;
    }
    out.insert(k, e);
}

/// Orders events by start time, keeping the order of events that start together.
pub fn sort_events(v: &Vec<Event>) -> (r: Vec<Event>)
    ensures
        r@ == sort_by_start(v@),
{
    let mut out: Vec<Event> = Vec::new();
    let mut i: usize = 0;
    assert(v@.subrange(0, 0) =~= Seq::<Event>::empty());
    while i < v.len()
        invariant
            i <= v.len(),
            out@ == sort_by_start(v@.subrange(0, i as int)),
        decreases v.len() - i,
    {
        insert_event(&mut out, v[i]);
        i += 1;
        assert(v@.subrange(0, i as int).drop_last() =~= v@.subrange(0, i - 1));
    }
    assert(v@.subrange(0, i as int) =~= v@);
    out
}

} // verus!
