//! Algebraic laws of composition, proved over the meaning given in `cfg`, both for a
//! transform or split placed at any cursor and for a string made of it alone.
use crate::cfg::{
    branches, compose_string, default_volume, map_all, map_event, split, transformed, uniform,
    walk, EventMap, MetaControl, MusicPrimitive, MusicString, MusicTransform, Outcome, Placed,
    Symbol, Terminal,
};
use crate::compose::composed;
use crate::composition::{midi_of, spec_transpose, Composition, Instrument, Pitch, Volume};
use crate::cfg::CompositionError;
use crate::frac::{abs, frac_add, frac_of, gcd, lemma_gcd_divides, lemma_reduce_same, Frac};
use crate::time::TimeSignature;
use vstd::arithmetic::div_mod::lemma_fundamental_div_mod;
use vstd::prelude::*;

verus! {

/// The length of a string that composes, measured from time zero.
pub open spec fn duration_of(ms: MusicString) -> Frac {
    match compose_string(ms) {
        Outcome::Done(_, d) => d,
        _ => Frac { num: 0, den: 1 },
    }
}

pub open spec fn composes(ms: MusicString) -> bool {
    compose_string(ms) is Done
}

proof fn lemma_frac_of_value(n: int, d: int, r: Frac)
    requires
        d > 0,
        frac_of(n, d) == Some(r),
    ensures
        r.num * d == n * r.den,
        r.den > 0,
{
    lemma_reduce_same(n, d);
}

/// Applying a map to every event keeps the instruments and maps each event on its own.
pub proof fn lemma_map_all_pointwise(m: EventMap, evs: Seq<Placed>, out: Seq<Placed>)
    requires
        map_all(m, evs) == Some(out),
    ensures
        out.len() == evs.len(),
        forall|i: int|
            0 <= i < evs.len() ==> (#[trigger] out[i]).0 == evs[i].0 && map_event(m, evs[i].1)
                == Some(out[i].1),
    decreases evs.len(),
{
    if evs.len() > 0 {
        let prev = map_all(m, evs.drop_last()).unwrap();
        lemma_map_all_pointwise(m, evs.drop_last(), prev);
        assert forall|i: int| 0 <= i < evs.len() implies (#[trigger] out[i]).0 == evs[i].0
            && map_event(m, evs[i].1) == Some(out[i].1) by {
            if i < evs.len() - 1 {
                assert(out[i] == prev[i]);
                assert(evs[i] == evs.drop_last()[i]);
            }
        }
    }
}

/// Transposing by `k` semitones moves the MIDI note number by exactly `k`.
pub proof fn transpose_moves_midi(p: Pitch, k: i64)
    requires
        spec_transpose(p, k) is Some,
    ensures
        midi_of(spec_transpose(p, k).unwrap()) == midi_of(p) + k,
        spec_transpose(p, k).unwrap().wf(),
{
    let total = p.0 * 12 + p.1 + k;
    lemma_fundamental_div_mod(total, 12);
}

proof fn lemma_branches_ok(bs: Seq<MusicString>, j: int)
    requires
        0 <= j <= bs.len(),
        forall|m: int| 0 <= m < bs.len() ==> composes(#[trigger] bs[m]),
    ensures
        branches(bs, j) is Ok,
        branches(bs, j)->Ok_0.len() == bs.len() - j,
        forall|m: int|
            0 <= m < bs.len() - j ==> (#[trigger] branches(bs, j)->Ok_0[m]).1 == duration_of(
                bs[j + m],
            ),
    decreases bs.len() - j,
{
    if j < bs.len() {
        assert(composes(bs[j]));
        lemma_branches_ok(bs, j + 1);
        let rest = branches(bs, j + 1)->Ok_0;
        let all = branches(bs, j)->Ok_0;
        assert forall|m: int| 0 <= m < bs.len() - j implies (#[trigger] all[m]).1 == duration_of(
            bs[j + m],
        ) by {
            if m > 0 {
                assert(all[m] == rest[m - 1]);
            }
        }
    }
}

/// A split of branches that all compose is refused for differing lengths exactly when some
/// branch does not last as long as the first one.
pub proof fn split_uniformity(bs: Seq<MusicString>, cursor: Frac)
    requires
        forall|m: int| 0 <= m < bs.len() ==> composes(#[trigger] bs[m]),
    ensures
        split(bs, cursor) is NonUniform <==> exists|j: int|
            0 <= j < bs.len() && !(#[trigger] duration_of(bs[j])).same(duration_of(bs[0])),
{
    lemma_branches_ok(bs, 0);
    let rs = branches(bs, 0)->Ok_0;
    if bs.len() > 0 {
        if uniform(rs) {
            assert forall|j: int| 0 <= j < bs.len() implies (#[trigger] duration_of(bs[j])).same(
                duration_of(bs[0]),
            ) by {
                assert(rs[j].1.same(rs[0].1));
            }
        } else {
            let j = choose|j: int| 0 <= j < rs.len() && !(#[trigger] rs[j]).1.same(rs[0].1);
            assert(!duration_of(bs[j]).same(duration_of(bs[0])));
        }
    }
}

/// A repeat lasts `n` times as long as its content.
pub proof fn repeat_duration(n: usize, content: MusicString, cursor: Frac)
    requires
        transformed(MusicTransform::Repeat { num: n }, content, cursor) is Done,
        cursor.wf(),
    ensures
        composes(content),
        ({
            let total = transformed(MusicTransform::Repeat { num: n }, content, cursor)->Done_1;
            let d = duration_of(content);
            total.num * d.den == n * d.num * total.den
        }),
{
    let t = MusicTransform::Repeat { num: n };
    let total = transformed(t, content, cursor)->Done_1;
    let d = duration_of(content);
    lemma_composed_duration_wf(content);
    lemma_frac_of_value(d.num * n, d.den as int, total);
    assert(total.num * d.den == n * d.num * total.den) by (nonlinear_arith)
        requires
            total.num * d.den == (d.num * n) * total.den,
    ;
}

/// Compression by `f` makes the content last `f` times as long and keeps every pitch
/// and instrument.
pub proof fn compression_law(f: Frac, content: MusicString, cursor: Frac)
    requires
        transformed(MusicTransform::Compression { factor: f }, content, cursor) is Done,
        f.wf(),
        cursor.wf(),
    ensures
        composes(content),
        ({
            let total = transformed(MusicTransform::Compression { factor: f }, content, cursor)->Done_1;
            let d = duration_of(content);
            total.num * (f.den * d.den) == (f.num * d.num) * total.den
        }),
        ({
            let out = transformed(MusicTransform::Compression { factor: f }, content, cursor)->Done_0;
            let evs = compose_string(content)->Done_0;
            &&& out.len() == evs.len()
            &&& forall|i: int|
                0 <= i < evs.len() ==> (#[trigger] out[i]).1.pitch == evs[i].1.pitch && out[i].0
                    == evs[i].0
        }),
{
    let t = MusicTransform::Compression { factor: f };
    let total = transformed(t, content, cursor)->Done_1;
    let d = duration_of(content);
    lemma_composed_duration_wf(content);
    assert(f.den * d.den > 0) by (nonlinear_arith)
        requires
            f.den > 0,
            d.den > 0,
    ;
    lemma_frac_of_value(f.num * d.num, f.den * d.den, total);
    let evs = compose_string(content)->Done_0;
    let scaled = map_all(EventMap::Compress(f), evs).unwrap();
    let out = transformed(t, content, cursor)->Done_0;
    lemma_map_all_pointwise(EventMap::Compress(f), evs, scaled);
    lemma_map_all_pointwise(EventMap::Shift(cursor), scaled, out);
    assert forall|i: int| 0 <= i < evs.len() implies (#[trigger] out[i]).1.pitch == evs[i].1.pitch
        && out[i].0 == evs[i].0 by {
        assert(out[i].1.pitch == scaled[i].1.pitch);
    }
}

/// Transposing by `k` moves every MIDI note by exactly `k`, keeps every duration and
/// instrument, places each event at its start in the content plus `cursor`, and keeps the
/// content's length.
pub proof fn transpose_law(k: i64, content: MusicString, cursor: Frac)
    requires
        transformed(MusicTransform::Transpose { semitones: k }, content, cursor) is Done,
        cursor.wf(),
    ensures
        composes(content),
        transformed(MusicTransform::Transpose { semitones: k }, content, cursor)->Done_1
            == duration_of(content),
        ({
            let out = transformed(MusicTransform::Transpose { semitones: k }, content, cursor)->Done_0;
            let evs = compose_string(content)->Done_0;
            &&& out.len() == evs.len()
            &&& forall|i: int|
                0 <= i < evs.len() ==> {
                    &&& midi_of((#[trigger] out[i]).1.pitch) == midi_of(evs[i].1.pitch) + k
                    &&& out[i].1.duration == evs[i].1.duration
                    &&& out[i].0 == evs[i].0
                    &&& crate::frac::frac_add(evs[i].1.start, cursor) == Some(out[i].1.start)
                }
        }),
{
    let t = MusicTransform::Transpose { semitones: k };
    let evs = compose_string(content)->Done_0;
    let moved = map_all(EventMap::Transpose(k), evs).unwrap();
    let out = transformed(t, content, cursor)->Done_0;
    lemma_map_all_pointwise(EventMap::Transpose(k), evs, moved);
    lemma_map_all_pointwise(EventMap::Shift(cursor), moved, out);
    assert forall|i: int| 0 <= i < evs.len() implies {
        &&& midi_of((#[trigger] out[i]).1.pitch) == midi_of(evs[i].1.pitch) + k
        &&& out[i].1.duration == evs[i].1.duration
        &&& out[i].0 == evs[i].0
        &&& crate::frac::frac_add(evs[i].1.start, cursor) == Some(out[i].1.start)
    } by {
        assert(map_event(EventMap::Transpose(k), evs[i].1) == Some(moved[i].1));
        assert(map_event(EventMap::Shift(cursor), moved[i].1) == Some(out[i].1));
        transpose_moves_midi(evs[i].1.pitch, k);
    }
}

proof fn lemma_walk_end_wf(
    ps: Seq<MusicPrimitive>,
    i: int,
    cursor: Frac,
    inst: Instrument,
    vol: Volume,
)
    requires
        cursor.wf(),
    ensures
        walk(ps, i, cursor, inst, vol) is Done ==> walk(ps, i, cursor, inst, vol)->Done_1.wf(),
    decreases ps.len() - i,
{
    if 0 <= i < ps.len() {
        match ps[i] {
            MusicPrimitive::Simple(Symbol::NT(_)) => lemma_walk_end_wf(ps, i + 1, cursor, inst, vol),
            MusicPrimitive::Simple(Symbol::T(Terminal::Meta(MetaControl::ChangeInstrument(j)))) => {
                lemma_walk_end_wf(ps, i + 1, cursor, j, vol)
            },
            MusicPrimitive::Simple(Symbol::T(Terminal::Meta(MetaControl::ChangeVolume(v)))) => {
                lemma_walk_end_wf(ps, i + 1, cursor, inst, v)
            },
            MusicPrimitive::Simple(Symbol::T(Terminal::Music { duration, note })) => {
                if let Some(next) = frac_add(cursor, duration) {
                    lemma_walk_end_wf(ps, i + 1, next, inst, vol);
                }
            },
            MusicPrimitive::Split { branches } => {
                if let Outcome::Done(_, d) = split(branches@, cursor) {
                    if let Some(next) = frac_add(cursor, d) {
                        lemma_walk_end_wf(ps, i + 1, next, inst, vol);
                    }
                }
            },
            MusicPrimitive::Transform { transform, content } => {
                if let Outcome::Done(_, d) = transformed(transform, content, cursor) {
                    if let Some(next) = frac_add(cursor, d) {
                        lemma_walk_end_wf(ps, i + 1, next, inst, vol);
                    }
                }
            },
        }
    }
}

proof fn lemma_composed_duration_wf(ms: MusicString)
    ensures
        composes(ms) ==> duration_of(ms).wf(),
{
    lemma_walk_end_wf(ms.0@, 0, Frac { num: 0, den: 1 }, Instrument::SineWave, default_volume());
}

/// Composing is a function of the string and the time signature: two compositions of equal
/// inputs have the same tracks in the same order.
pub proof fn composition_determinism(
    a: MusicString,
    b: MusicString,
    ts: TimeSignature,
    r1: Result<Composition, CompositionError>,
    r2: Result<Composition, CompositionError>,
)
    requires
        a == b,
        composed(a, ts, r1),
        composed(b, ts, r2),
    ensures
        r1 is Ok <==> r2 is Ok,
        r1 is Ok ==> {
            let (c1, c2) = (r1.unwrap(), r2.unwrap());
            &&& c1.time_signature == c2.time_signature
            &&& c1.tracks@.len() == c2.tracks@.len()
            &&& forall|k: int|
                0 <= k < c1.tracks@.len() ==> (#[trigger] c1.tracks@[k]).instrument
                    == c2.tracks@[k].instrument && c1.tracks@[k].events@ == c2.tracks@[k].events@
        },
{
}

/// What a single split or transform does at time zero.
pub open spec fn at_zero(p: MusicPrimitive) -> Outcome {
    match p {
        MusicPrimitive::Split { branches } => split(branches@, Frac { num: 0, den: 1 }),
        MusicPrimitive::Transform { transform, content } => transformed(
            transform,
            content,
            Frac { num: 0, den: 1 },
        ),
        _ => Outcome::Overflow,
    }
}

proof fn lemma_add_zero(d: Frac)
    requires
        d.wf(),
    ensures
        frac_add(Frac { num: 0, den: 1 }, d) is Some,
        frac_add(Frac { num: 0, den: 1 }, d).unwrap().same(d),
{
    assert(0 * d.den + d.num * 1 == d.num);
    assert(1 * d.den == d.den);
    lemma_reduce_same(d.num as int, d.den as int);
    lemma_gcd_divides(abs(d.num as int), d.den as nat);
    let g = gcd(abs(d.num as int), d.den as nat);
    assert(((abs(d.num as int) as int) / (g as int)) <= abs(d.num as int)) by (nonlinear_arith)
        requires
            g > 0,
    ;
    assert((d.den as int) / (g as int) <= d.den) by (nonlinear_arith)
        requires
            g > 0,
            d.den > 0,
    ;
}

/// A string made of one split or one transform composes to what that primitive gives at
/// time zero: the same events, and a length equal to it, or the same failure.
pub proof fn single_primitive(ms: MusicString)
    requires
        ms.0@.len() == 1,
        ms.0@[0] is Split || ms.0@[0] is Transform,
        cursor_free(at_zero(ms.0@[0])),
    ensures
        at_zero(ms.0@[0]) is Done ==> composes(ms) && compose_string(ms)->Done_0 == at_zero(
            ms.0@[0],
        )->Done_0 && duration_of(ms).same(at_zero(ms.0@[0])->Done_1),
        !(at_zero(ms.0@[0]) is Done) ==> compose_string(ms) == at_zero(ms.0@[0]),
{
    let ps = ms.0@;
    let zero = Frac { num: 0, den: 1 };
    let o = at_zero(ps[0]);
    if let Outcome::Done(evs, d) = o {
        lemma_add_zero(d);
        let next = frac_add(zero, d).unwrap();
        assert(walk(ps, 1, next, Instrument::SineWave, default_volume()) == Outcome::Done(
            Seq::<Placed>::empty(),
            next,
        ));
        assert(evs + Seq::<Placed>::empty() =~= evs);
    }
}

/// The length of an outcome that succeeds has a positive denominator.
pub open spec fn cursor_free(o: Outcome) -> bool {
    o is Done ==> o->Done_1.wf()
}

proof fn lemma_transformed_wf(t: MusicTransform, c: MusicString, cursor: Frac)
    ensures
        transformed(t, c, cursor) is Done ==> transformed(t, c, cursor)->Done_1.wf(),
{
    lemma_composed_duration_wf(c);
}

/// A repeat, composed on its own, lasts `n` times as long as its content.
pub proof fn repeat_law(ms: MusicString, n: usize, content: MusicString)
    requires
        ms.0@ == seq![MusicPrimitive::Transform { transform: MusicTransform::Repeat { num: n }, content }],
        composes(ms),
    ensures
        composes(content),
        duration_of(ms).num * duration_of(content).den == n * duration_of(content).num
            * duration_of(ms).den,
{
    let zero = Frac { num: 0, den: 1 };
    let t = MusicTransform::Repeat { num: n };
    assert(at_zero(ms.0@[0]) == transformed(t, content, zero));
    lemma_transformed_wf(t, content, zero);
    single_primitive(ms);
    repeat_duration(n, content, zero);
    let e = duration_of(ms);
    let total = transformed(t, content, zero)->Done_1;
    let d = duration_of(content);
    lemma_composed_duration_wf(content);
    lemma_composed_duration_wf(ms);
    assert(e.num * d.den == n * d.num * e.den) by (nonlinear_arith)
        requires
            e.num * total.den == total.num * e.den,
            total.num * d.den == n * d.num * total.den,
            total.den > 0,
            e.den > 0,
    ;
}

/// A compression by `f`, composed on its own, lasts `f` times as long as its content and
/// keeps every pitch and instrument.
pub proof fn compression_law_composed(ms: MusicString, f: Frac, content: MusicString)
    requires
        ms.0@ == seq![MusicPrimitive::Transform { transform: MusicTransform::Compression { factor: f }, content }],
        composes(ms),
        f.wf(),
    ensures
        composes(content),
        duration_of(ms).num * (f.den * duration_of(content).den) == (f.num * duration_of(
            content,
        ).num) * duration_of(ms).den,
        ({
            let out = compose_string(ms)->Done_0;
            let evs = compose_string(content)->Done_0;
            &&& out.len() == evs.len()
            &&& forall|i: int|
                0 <= i < evs.len() ==> (#[trigger] out[i]).1.pitch == evs[i].1.pitch && out[i].0
                    == evs[i].0
        }),
{
    let zero = Frac { num: 0, den: 1 };
    let t = MusicTransform::Compression { factor: f };
    assert(at_zero(ms.0@[0]) == transformed(t, content, zero));
    lemma_transformed_wf(t, content, zero);
    single_primitive(ms);
    compression_law(f, content, zero);
    let e = duration_of(ms);
    let total = transformed(t, content, zero)->Done_1;
    let d = duration_of(content);
    lemma_composed_duration_wf(content);
    lemma_composed_duration_wf(ms);
    assert(e.num * (f.den * d.den) == (f.num * d.num) * e.den) by (nonlinear_arith)
        requires
            e.num * total.den == total.num * e.den,
            total.num * (f.den * d.den) == (f.num * d.num) * total.den,
            total.den > 0,
            e.den > 0,
    ;
}

/// A transposition by `k`, composed on its own, moves every MIDI note by exactly `k` and
/// keeps every start, duration and instrument of its content, and its length.
pub proof fn transpose_law_composed(ms: MusicString, k: i64, content: MusicString)
    requires
        ms.0@ == seq![MusicPrimitive::Transform { transform: MusicTransform::Transpose { semitones: k }, content }],
        composes(ms),
    ensures
        composes(content),
        duration_of(ms).same(duration_of(content)),
        ({
            let out = compose_string(ms)->Done_0;
            let evs = compose_string(content)->Done_0;
            &&& out.len() == evs.len()
            &&& forall|i: int|
                0 <= i < evs.len() ==> {
                    &&& midi_of((#[trigger] out[i]).1.pitch) == midi_of(evs[i].1.pitch) + k
                    &&& out[i].1.duration == evs[i].1.duration
                    &&& out[i].0 == evs[i].0
                    &&& frac_add(evs[i].1.start, Frac { num: 0, den: 1 }) == Some(out[i].1.start)
                }
        }),
{
    let zero = Frac { num: 0, den: 1 };
    let t = MusicTransform::Transpose { semitones: k };
    assert(at_zero(ms.0@[0]) == transformed(t, content, zero));
    lemma_transformed_wf(t, content, zero);
    single_primitive(ms);
    transpose_law(k, content, zero);
    lemma_composed_duration_wf(content);
    lemma_add_zero(duration_of(content));
}

/// A split, composed on its own, is refused for differing lengths exactly when some
/// branch does not last as long as the first one (all branches composing).
pub proof fn split_law(ms: MusicString, bs: Vec<MusicString>)
    requires
        ms.0@ == seq![MusicPrimitive::Split { branches: bs }],
        forall|m: int| 0 <= m < bs@.len() ==> composes(#[trigger] bs@[m]),
    ensures
        compose_string(ms) is NonUniform <==> exists|j: int|
            0 <= j < bs@.len() && !(#[trigger] duration_of(bs@[j])).same(duration_of(bs@[0])),
{
    let zero = Frac { num: 0, den: 1 };
    assert(at_zero(ms.0@[0]) == split(bs@, zero));
    lemma_branches_ok(bs@, 0);
    if bs@.len() > 0 {
        lemma_composed_duration_wf(bs@[0]);
    }
    single_primitive(ms);
    split_uniformity(bs@, zero);
}

} // verus!
