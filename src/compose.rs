//! Composing a music string: the executable counterpart of the meaning given in `cfg`.
use crate::cfg::{
    branches, compose_string, flatten, split_of, map_all, map_event, prepend, primitive_wf, repeat_all, split,
    string_wf, transform_wf, transformed, walk, CompositionError, EventMap, MetaControl,
    MusicPrimitive, MusicString, MusicTransform, Outcome, Placed, Symbol, Terminal, TerminalNote,
};
use crate::composition::{
    all_wf, lemma_sort_sorted, sort_by_start, sort_events, sorted_by_start, Composition, Event,
    Instrument, Track, TrackId, Volume,
};
use crate::time::TimeSignature;
use crate::frac::Frac;
use vstd::prelude::*;

verus! {

pub open spec fn placed_wf(s: Seq<Placed>) -> bool {
    forall|i: int| 0 <= i < s.len() ==> (#[trigger] s[i]).1.wf()
}

pub open spec fn event_map_wf(m: EventMap) -> bool {
    match m {
        EventMap::Shift(off) => off.wf(),
        EventMap::Transpose(_) => true,
        EventMap::Compress(f) => f.wf(),
    }
}

/// `r` is the executable form of the outcome `o`.
pub open spec fn result_matches(r: Result<(Vec<Placed>, Frac), CompositionError>, o: Outcome) -> bool {
    match r {
        Ok((v, d)) => o == Outcome::Done(v@, d) && placed_wf(v@) && d.wf(),
        Err(CompositionError::NonUniformSplit { durations }) => o == Outcome::NonUniform(durations@),
        Err(CompositionError::Overflow) => o == Outcome::Overflow,
    }
}

pub open spec fn glue(a: Seq<Placed>, o: Option<Seq<Placed>>) -> Option<Seq<Placed>> {
    match o {
        Some(r) => Some(a + r),
        None => None,
    }
}

fn map_one(m: EventMap, e: Event) -> (r: Option<Event>)
    requires
        e.wf(),
        event_map_wf(m),
    ensures
        r == map_event(m, e),
        r is Some ==> r.unwrap().wf(),
{
    match m {
        EventMap::Shift(off) => match e.start.add(off) {
            Some(s) => Some(Event { start: s, ..e }),
            None => None,
        },
        EventMap::Transpose(k) => match e.pitch.transpose(k) {
            Some(p) => Some(Event { pitch: p, ..e }),
            None => None,
        },
        EventMap::Compress(f) => match (e.start.mul(f), e.duration.mul(f)) {
            (Some(s), Some(d)) => Some(Event { start: s, duration: d, ..e }),
            _ => None,
        },
    }
}

proof fn lemma_map_all_prefix_none(m: EventMap, s: Seq<Placed>, k: int)
    requires
        0 <= k <= s.len(),
        map_all(m, s.subrange(0, k)) is None,
    ensures
        map_all(m, s) is None,
    decreases s.len() - k,
{
    if k < s.len() {
        assert(s.subrange(0, k + 1).drop_last() =~= s.subrange(0, k));
        lemma_map_all_prefix_none(m, s, k + 1);
    } else {
        assert(s.subrange(0, k) =~= s);
    }
}

/// Applies `m` to every event in order; `None` as soon as one leaves the number range.
pub fn map_events(m: EventMap, evs: &Vec<Placed>) -> (r: Option<Vec<Placed>>)
    requires
        placed_wf(evs@),
        event_map_wf(m),
    ensures
        r is Some ==> map_all(m, evs@) == Some(r.unwrap()@) && placed_wf(r.unwrap()@),
        r is None ==> map_all(m, evs@) is None,
{
    let mut out: Vec<Placed> = Vec::new();
    let mut i: usize = 0;
    assert(evs@.subrange(0, 0) =~= Seq::<Placed>::empty());
    while i < evs.len()
        invariant
            i <= evs.len(),
            placed_wf(evs@),
            event_map_wf(m),
            map_all(m, evs@.subrange(0, i as int)) == Some(out@),
            placed_wf(out@),
        decreases evs.len() - i,
    {
        let (inst, e) = evs[i];
        assert(evs@.subrange(0, i + 1).drop_last() =~= evs@.subrange(0, i as int));
        match map_one(m, e) {
            Some(x) => {
                out.push((inst, x));
            },
            None => {
                proof {
                    lemma_map_all_prefix_none(m, evs@, i + 1);
                }
                return None;
            },
        }
        i += 1;
    }
    assert(evs@.subrange(0, i as int) =~= evs@);
    Some(out)
}

/// `n` copies of `evs`, the first at `off` and each next one `d` later.
fn repeat_events(evs: &Vec<Placed>, d: Frac, n: usize, off: Frac) -> (r: Option<Vec<Placed>>)
    requires
        placed_wf(evs@),
        d.wf(),
        off.wf(),
    ensures
        r is Some ==> repeat_all(evs@, d, n as nat, off) == Some(r.unwrap()@) && placed_wf(
            r.unwrap()@,
        ),
        r is None ==> repeat_all(evs@, d, n as nat, off) is None,
{
    let mut out: Vec<Placed> = Vec::new();
    let mut cur = off;
    let mut k: usize = 0;
    assert(Seq::<Placed>::empty() + repeat_all(evs@, d, n as nat, off).unwrap_or(Seq::empty())
        =~= repeat_all(evs@, d, n as nat, off).unwrap_or(Seq::empty()));
    while k < n
        invariant
            k <= n,
            placed_wf(evs@),
            placed_wf(out@),
            d.wf(),
            cur.wf(),
            repeat_all(evs@, d, n as nat, off) == glue(
                out@,
                repeat_all(evs@, d, (n - k) as nat, cur),
            ),
        decreases n - k,
    {
        let shifted = map_events(EventMap::Shift(cur), evs);
        let next = cur.add(d);
        match (shifted, next) {
            (Some(mut first), Some(nx)) => {
                proof {
                    let rest = repeat_all(evs@, d, (n - k - 1) as nat, nx);
                    match rest {
                        Some(x) => {
                            assert(out@ + (first@ + x) =~= (out@ + first@) + x);
                        },
                        None => {},
                    }
                }
                out.append(&mut first);
                cur = nx;
            },
            _ => {
                return None;
            },
        }
        k += 1;
    }
    assert(out@ + Seq::<Placed>::empty() =~= out@);
    Some(out)
}

/// Composes `ms` from time zero with the default instrument and volume: its events
/// and its total length.
#[verifier::rlimit(100)]
pub fn compose_events(ms: &MusicString) -> (r: Result<(Vec<Placed>, Frac), CompositionError>)
    requires
        string_wf(*ms),
    ensures
        result_matches(r, compose_string(*ms)),
    decreases ms, 0int,
{
    let ghost ps = ms.0@;
    let mut acc: Vec<Placed> = Vec::new();
    let mut cursor = Frac::zero();
    let mut inst = Instrument::SineWave;
    let mut vol = Volume(50);
    let mut i: usize = 0;
    assert(prepend(Seq::empty(), walk(ps, 0, cursor, inst, vol)) == walk(ps, 0, cursor, inst, vol))
        by {
        match walk(ps, 0, cursor, inst, vol) {
            Outcome::Done(rest, end) => {
                assert(Seq::<Placed>::empty() + rest =~= rest);
            },
            _ => {},
        }
    }
    while i < ms.0.len()
        invariant
            ps == ms.0@,
            string_wf(*ms),
            i <= ps.len(),
            cursor.wf(),
            placed_wf(acc@),
            compose_string(*ms) == prepend(acc@, walk(ps, i as int, cursor, inst, vol)),
        decreases ps.len() - i,
    {
        proof {
            lemma_prepend_assoc_all(acc@);
        }
        assert(primitive_wf(ps[i as int]));
        match &ms.0[i] {
            MusicPrimitive::Simple(Symbol::NT(_)) => {},
            MusicPrimitive::Simple(Symbol::T(Terminal::Meta(MetaControl::ChangeInstrument(j)))) => {
                inst = *j;
            },
            MusicPrimitive::Simple(Symbol::T(Terminal::Meta(MetaControl::ChangeVolume(v)))) => {
                vol = *v;
            },
            MusicPrimitive::Simple(Symbol::T(Terminal::Music { duration, note })) => {
                match cursor.add(*duration) {
                    Some(next) => {
                        match note {
                            TerminalNote::Note { pitch } => {
                                let x = (
                                    inst,
                                    Event {
                                        start: cursor,
                                        duration: *duration,
                                        volume: vol,
                                        pitch: *pitch,
                                    },
                                );
                                assert(acc@.push(x) =~= acc@ + seq![x]);
                                acc.push(x);
                            },
                            TerminalNote::Rest => {
                                assert(acc@ + Seq::<Placed>::empty() =~= acc@);
                            },
                        }
                        cursor = next;
                    },
                    None => {
                        return Err(CompositionError::Overflow);
                    },
                }
            },
            MusicPrimitive::Split { branches } => {
                proof {
                    assert(decreases_to!(ms => ms.0));
                    assert(decreases_to!(ms.0 => ms.0@));
                    assert(decreases_to!(ms.0@ => ms.0@[i as int]));
                    assert(decreases_to!(ms.0@[i as int] => *branches));
                    assert(decreases_to!(*branches => branches@));
                }
                match compose_split(branches, cursor) {
                    Ok((mut evs, d)) => {
                        match cursor.add(d) {
                            Some(next) => {
                                acc.append(&mut evs);
                                cursor = next;
                            },
                            None => {
                                return Err(CompositionError::Overflow);
                            },
                        }
                    },
                    Err(e) => {
                        return Err(e);
                    },
                }
            },
            MusicPrimitive::Transform { transform, content } => {
                proof {
                    assert(decreases_to!(ms => ms.0));
                    assert(decreases_to!(ms.0 => ms.0@));
                    assert(decreases_to!(ms.0@ => ms.0@[i as int]));
                    assert(decreases_to!(ms.0@[i as int] => *content));
                }
                match compose_transform(*transform, content, cursor) {
                    Ok((mut evs, d)) => {
                        match cursor.add(d) {
                            Some(next) => {
                                acc.append(&mut evs);
                                cursor = next;
                            },
                            None => {
                                return Err(CompositionError::Overflow);
                            },
                        }
                    },
                    Err(e) => {
                        return Err(e);
                    },
                }
            },
        }
        i += 1;
    }
    proof {
        assert(acc@ + Seq::<Placed>::empty() =~= acc@);
    }
    Ok((acc, cursor))
}

proof fn lemma_prepend_assoc(a: Seq<Placed>, b: Seq<Placed>, o: Outcome)
    ensures
        prepend(a, prepend(b, o)) == prepend(a + b, o),
{
    match o {
        Outcome::Done(rest, end) => {
            assert(a + (b + rest) =~= (a + b) + rest);
        },
        _ => {},
    }
}

/// Folding one more step of the walk into the accumulated events keeps the overall outcome.
proof fn lemma_prepend_assoc_all(acc: Seq<Placed>)
    ensures
        forall|b: Seq<Placed>, o: Outcome| #[trigger] prepend(acc, prepend(b, o)) == prepend(acc + b, o),
{
    assert forall|b: Seq<Placed>, o: Outcome| #[trigger] prepend(acc, prepend(b, o)) == prepend(acc + b, o) by {
        lemma_prepend_assoc(acc, b, o);
    }
}

pub open spec fn view_results(s: Seq<(Vec<Placed>, Frac)>) -> Seq<(Seq<Placed>, Frac)> {
    s.map_values(|r: (Vec<Placed>, Frac)| (r.0@, r.1))
}

pub open spec fn glue_results(
    a: Seq<(Seq<Placed>, Frac)>,
    r: Result<Seq<(Seq<Placed>, Frac)>, Outcome>,
) -> Result<Seq<(Seq<Placed>, Frac)>, Outcome> {
    match r {
        Ok(x) => Ok(a + x),
        Err(o) => Err(o),
    }
}

fn append_copy(out: &mut Vec<Placed>, src: &Vec<Placed>)
    ensures
        final(out)@ == old(out)@ + src@,
{
    let mut i: usize = 0;
    while i < src.len()
        invariant
            i <= src.len(),
            out@ == old(out)@ + src@.subrange(0, i as int),
        decreases src.len() - i,
    {
        out.push(src[i]);
        i += 1;
        assert(out@ =~= old(out)@ + src@.subrange(0, i as int));
    }
    assert(src@.subrange(0, i as int) =~= src@);
}

/// Composes each branch from zero, in order, stopping at the first failure.
fn compose_branches(bs: &Vec<MusicString>) -> (r: Result<Vec<(Vec<Placed>, Frac)>, CompositionError>)
    requires
        forall|j: int| 0 <= j < bs@.len() ==> string_wf(#[trigger] bs@[j]),
    ensures
        match r {
            Ok(rs) => branches(bs@, 0) == Ok::<Seq<(Seq<Placed>, Frac)>, Outcome>(view_results(rs@))
                && forall|k: int| 0 <= k < rs@.len() ==> placed_wf((#[trigger] rs@[k]).0@)
                && rs@[k].1.wf(),
            Err(e) => exists|o: Outcome| branches(bs@, 0) == Err::<Seq<(Seq<Placed>, Frac)>, Outcome>(o)
                && result_matches(Err(e), o),
        },
    decreases bs@, bs@.len() + 1,
{
    let mut rs: Vec<(Vec<Placed>, Frac)> = Vec::new();
    let mut j: usize = 0;
    assert(glue_results(view_results(rs@), branches(bs@, 0)) == branches(bs@, 0)) by {
        match branches(bs@, 0) {
            Ok(x) => {
                assert(view_results(rs@) + x =~= x);
            },
            Err(_) => {},
        }
    }
    while j < bs.len()
        invariant
            j <= bs@.len(),
            forall|k: int| 0 <= k < bs@.len() ==> string_wf(#[trigger] bs@[k]),
            branches(bs@, 0) == glue_results(view_results(rs@), branches(bs@, j as int)),
            forall|k: int| 0 <= k < rs@.len() ==> placed_wf((#[trigger] rs@[k]).0@) && rs@[k].1.wf(),
        decreases bs@.len() - j,
    {
        proof {
            assert(decreases_to!(bs@ => bs@[j as int]));
        }
        match compose_events(&bs[j]) {
            Ok((v, d)) => {
                proof {
                    let x = (v@, d);
                    match branches(bs@, j + 1) {
                        Ok(rest) => {
                            assert(view_results(rs@) + (seq![x] + rest) =~= view_results(
                                rs@.push((v, d)),
                            ) + rest);
                        },
                        Err(_) => {},
                    }
                }
                rs.push((v, d));
            },
            Err(e) => {
                assert(branches(bs@, 0) == Err::<Seq<(Seq<Placed>, Frac)>, Outcome>(compose_string(bs@[j as int])));
                return Err(e);
            },
        }
        j += 1;
    }
    let ghost view = view_results(rs@);
    assert(branches(bs@, 0) == Ok::<Seq<(Seq<Placed>, Frac)>, Outcome>(view)) by {
        assert(view + Seq::<(Seq<Placed>, Frac)>::empty() =~= view);
    }
    Ok(rs)
}

/// Composes each branch from zero and plays them together from `cursor`.
pub fn compose_split(bs: &Vec<MusicString>, cursor: Frac) -> (r: Result<
    (Vec<Placed>, Frac),
    CompositionError,
>)
    requires
        forall|j: int| 0 <= j < bs@.len() ==> string_wf(#[trigger] bs@[j]),
        cursor.wf(),
    ensures
        result_matches(r, split(bs@, cursor)),
    decreases bs@, bs@.len() + 2,
{
    match compose_branches(bs) {
        Ok(rs) => join_branches(rs, cursor),
        Err(e) => Err(e),
    }
}

/// Plays composed branches together from `cursor`, provided they all last equally long.
fn join_branches(rs: Vec<(Vec<Placed>, Frac)>, cursor: Frac) -> (r: Result<
    (Vec<Placed>, Frac),
    CompositionError,
>)
    requires
        forall|k: int| 0 <= k < rs@.len() ==> placed_wf((#[trigger] rs@[k]).0@) && rs@[k].1.wf(),
        cursor.wf(),
    ensures
        result_matches(r, split_of(view_results(rs@), cursor)),
{
    let ghost view = view_results(rs@);
    if rs.len() == 0 {
        return Ok((Vec::new(), Frac::zero()));
    }
    let d0 = rs[0].1;
    let mut all = true;
    let mut k: usize = 0;
    while k < rs.len()
        invariant
            k <= rs@.len(),
            view == view_results(rs@),
            rs@.len() > 0,
            d0 == view[0].1,
            all == (forall|m: int| 0 <= m < k ==> (#[trigger] view[m]).1.same(view[0].1)),
        decreases rs@.len() - k,
    {
        assert(view[k as int].1 == rs@[k as int].1);
        if !rs[k].1.same_value(&d0) {
            all = false;
        }
        k += 1;
    }
    if !all {
        let mut durations: Vec<Frac> = Vec::new();
        let mut k: usize = 0;
        while k < rs.len()
            invariant
                k <= rs@.len(),
                view == view_results(rs@),
                durations@ == view.subrange(0, k as int).map_values(
                    |r: (Seq<Placed>, Frac)| r.1,
                ),
            decreases rs@.len() - k,
        {
            durations.push(rs[k].1);
            k += 1;
            assert(durations@ =~= view.subrange(0, k as int).map_values(
                |r: (Seq<Placed>, Frac)| r.1,
            ));
        }
        assert(view.subrange(0, k as int) =~= view);
        return Err(CompositionError::NonUniformSplit { durations });
    }
    let mut flat: Vec<Placed> = Vec::new();
    let mut k: usize = 0;
    while k < rs.len()
        invariant
            k <= rs@.len(),
            view == view_results(rs@),
            flat@ == flatten(view.subrange(0, k as int)),
            placed_wf(flat@),
            forall|m: int| 0 <= m < rs@.len() ==> placed_wf((#[trigger] rs@[m]).0@) && rs@[m].1.wf(),
        decreases rs@.len() - k,
    {
        let ghost before = flat@;
        append_copy(&mut flat, &rs[k].0);
        k += 1;
        assert(view.subrange(0, k as int).drop_last() =~= view.subrange(0, k - 1));
        assert(placed_wf(flat@)) by {
            assert(placed_wf(rs@[k - 1].0@));
            assert forall|i: int| 0 <= i < flat@.len() implies (#[trigger] flat@[i]).1.wf() by {
                if i >= before.len() {
                    assert(flat@[i] == rs@[k - 1].0@[i - before.len()]);
                }
            }
        }
    }
    assert(view.subrange(0, k as int) =~= view);
    match map_events(EventMap::Shift(cursor), &flat) {
        Some(out) => Ok((out, d0)),
        None => Err(CompositionError::Overflow),
    }
}

/// Composes `content` from zero, applies the transform, and places the result at `cursor`.
pub fn compose_transform(t: MusicTransform, content: &MusicString, cursor: Frac) -> (r: Result<
    (Vec<Placed>, Frac),
    CompositionError,
>)
    requires
        transform_wf(t),
        string_wf(*content),
        cursor.wf(),
    ensures
        result_matches(r, transformed(t, *content, cursor)),
    decreases *content, 1int,
{
    match compose_events(content) {
        Err(e) => Err(e),
        Ok((evs, d)) => match t {
            MusicTransform::Repeat { num } => {
                if num as u64 > i64::MAX as u64 {
                    Err(CompositionError::Overflow)
                } else {
                    match (repeat_events(&evs, d, num, cursor), d.mul(Frac::whole(num as i64))) {
                        (Some(out), Some(total)) => Ok((out, total)),
                        _ => Err(CompositionError::Overflow),
                    }
                }
            },
            MusicTransform::Transpose { semitones } => match map_events(
                EventMap::Transpose(semitones),
                &evs,
            ) {
                Some(moved) => match map_events(EventMap::Shift(cursor), &moved) {
                    Some(out) => Ok((out, d)),
                    None => Err(CompositionError::Overflow),
                },
                None => Err(CompositionError::Overflow),
            },
            MusicTransform::Compression { factor } => match (
                map_events(EventMap::Compress(factor), &evs),
                factor.mul(d),
            ) {
                (Some(scaled), Some(total)) => match map_events(EventMap::Shift(cursor), &scaled) {
                    Some(out) => Ok((out, total)),
                    None => Err(CompositionError::Overflow),
                },
                _ => Err(CompositionError::Overflow),
            },
        },
    }
}

/// The instruments of the events, each once, in the order in which they first play.
pub open spec fn instruments_of(s: Seq<Placed>) -> Seq<Instrument>
    decreases s.len(),
{
    if s.len() == 0 {
        Seq::empty()
    } else {
        let p = instruments_of(s.drop_last());
        if p.contains(s.last().0) {
            p
        } else {
            p.push(s.last().0)
        }
    }
}

/// The events that `inst` plays, in their order in `s`.
pub open spec fn events_of(s: Seq<Placed>, inst: Instrument) -> Seq<Event>
    decreases s.len(),
{
    if s.len() == 0 {
        Seq::empty()
    } else {
        let p = events_of(s.drop_last(), inst);
        if s.last().0 == inst {
            p.push(s.last().1)
        } else {
            p
        }
    }
}

/// `c` holds one track per instrument of `evs`, in order of first appearance, each with
/// that instrument's events sorted by start time.
pub open spec fn tracks_match(c: Composition, evs: Seq<Placed>, ts: TimeSignature) -> bool {
    &&& c.time_signature == ts
    &&& c.tracks@.len() == instruments_of(evs).len()
    &&& forall|k: int|
        0 <= k < c.tracks@.len() ==> {
            let inst = instruments_of(evs)[k];
            &&& (#[trigger] c.tracks@[k]).instrument == inst
            &&& c.tracks@[k].identifier == TrackId::Instrument(inst)
            &&& c.tracks@[k].events@ == sort_by_start(events_of(evs, inst))
        }
}

/// The meaning of composing `ms` under `ts`.
pub open spec fn composed(ms: MusicString, ts: TimeSignature, r: Result<Composition, CompositionError>) -> bool {
    match compose_string(ms) {
        Outcome::Done(evs, _) => r is Ok && tracks_match(r.unwrap(), evs, ts),
        Outcome::NonUniform(ds) => match r {
            Err(CompositionError::NonUniformSplit { durations }) => durations@ == ds,
            _ => false,
        },
        Outcome::Overflow => r is Err && r->Err_0 is Overflow,
    }
}

fn contains_instrument(v: &Vec<Instrument>, x: Instrument) -> (r: bool)
    ensures
        r == v@.contains(x),
{
    let mut i: usize = 0;
    while i < v.len()
        invariant
            i <= v.len(),
            forall|j: int| 0 <= j < i ==> v@[j] != x,
        decreases v.len() - i,
    {
        if v[i] == x {
            return true;
        }
        i += 1;
    }
    false
}

fn instruments_in(evs: &Vec<Placed>) -> (r: Vec<Instrument>)
    ensures
        r@ == instruments_of(evs@),
{
    let mut out: Vec<Instrument> = Vec::new();
    let mut i: usize = 0;
    assert(evs@.subrange(0, 0) =~= Seq::<Placed>::empty());
    while i < evs.len()
        invariant
            i <= evs.len(),
            out@ == instruments_of(evs@.subrange(0, i as int)),
        decreases evs.len() - i,
    {
        assert(evs@.subrange(0, i + 1).drop_last() =~= evs@.subrange(0, i as int));
        if !contains_instrument(&out, evs[i].0) {
            out.push(evs[i].0);
        }
        i += 1;
    }
    assert(evs@.subrange(0, i as int) =~= evs@);
    out
}

fn events_for(evs: &Vec<Placed>, inst: Instrument) -> (r: Vec<Event>)
    requires
        placed_wf(evs@),
    ensures
        r@ == events_of(evs@, inst),
        all_wf(r@),
{
    let mut out: Vec<Event> = Vec::new();
    let mut i: usize = 0;
    assert(evs@.subrange(0, 0) =~= Seq::<Placed>::empty());
    while i < evs.len()
        invariant
            i <= evs.len(),
            placed_wf(evs@),
            out@ == events_of(evs@.subrange(0, i as int), inst),
            all_wf(out@),
        decreases evs.len() - i,
    {
        assert(evs@.subrange(0, i + 1).drop_last() =~= evs@.subrange(0, i as int));
        if evs[i].0 == inst {
            out.push(evs[i].1);
        }
        i += 1;
    }
    assert(evs@.subrange(0, i as int) =~= evs@);
    out
}

impl MusicString {
    /// Composes the string into tracks of timed events, one track per instrument.
    pub fn compose(&self, time_signature: TimeSignature) -> (r: Result<Composition, CompositionError>)
        requires
            string_wf(*self),
        ensures
            composed(*self, time_signature, r),
            r is Ok ==> forall|k: int|
                0 <= k < r.unwrap().tracks@.len() ==> sorted_by_start(
                    (#[trigger] r.unwrap().tracks@[k]).events@,
                ),
    {
        match compose_events(self) {
            Err(e) => Err(e),
            Ok((evs, _d)) => {
                let insts = instruments_in(&evs);
                let mut tracks: Vec<Track> = Vec::new();
                let mut k: usize = 0;
                while k < insts.len()
                    invariant
                        k <= insts@.len(),
                        insts@ == instruments_of(evs@),
                        placed_wf(evs@),
                        tracks@.len() == k,
                        forall|m: int|
                            0 <= m < k ==> {
                                let inst = insts@[m];
                                &&& (#[trigger] tracks@[m]).instrument == inst
                                &&& tracks@[m].identifier == TrackId::Instrument(inst)
                                &&& tracks@[m].events@ == sort_by_start(events_of(evs@, inst))
                                &&& sorted_by_start(tracks@[m].events@)
                            },
                    decreases insts@.len() - k,
                {
                    let inst = insts[k];
                    let mine = events_for(&evs, inst);
                    let events = sort_events(&mine);
                    proof {
                        lemma_sort_sorted(mine@);
                    }
                    tracks.push(Track { identifier: TrackId::Instrument(inst), instrument: inst, events });
                    k += 1;
                }
                Ok(Composition { tracks, time_signature })
            },
        }
    }
}

} // verus!
