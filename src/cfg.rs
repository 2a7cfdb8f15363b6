//! The music-string syntax tree and its meaning as a flat list of timed events.
use crate::composition::{Event, Instrument, Pitch, Volume, spec_transpose};
use crate::frac::{frac_add, frac_mul, Frac};
use crate::time::MusicTime;
use vstd::prelude::*;

verus! {

#[derive(Clone, Debug)]
pub enum NonTerminal {
    Custom(String),
}

#[derive(Clone, Copy, Debug, PartialEq, Eq, Structural)]
pub enum TerminalNote {
    Note { pitch: Pitch },
    Rest,
}

#[derive(Clone, Copy, Debug, PartialEq, Eq, Structural)]
pub enum MetaControl {
    ChangeInstrument(Instrument),
    ChangeVolume(Volume),
}

#[derive(Clone, Copy, Debug, PartialEq, Eq, Structural)]
pub enum Terminal {
    Music { duration: MusicTime, note: TerminalNote },
    Meta(MetaControl),
}

#[derive(Clone, Debug)]
pub enum Symbol {
    NT(NonTerminal),
    T(Terminal),
}

#[derive(Clone, Copy, Debug, PartialEq, Eq, Structural)]
pub enum MusicTransform {
    Repeat { num: usize },
    Transpose { semitones: i64 },
    /// Scales time by `factor`: `>>2` in the text gives `factor == 1/2`.
    Compression { factor: Frac },
}

#[derive(Debug)]
pub enum MusicPrimitive {
    Simple(Symbol),
    Split { branches: Vec<MusicString> },
    Transform { transform: MusicTransform, content: MusicString },
}

#[derive(Debug)]
pub struct MusicString(pub Vec<MusicPrimitive>);

#[derive(Debug)]
pub struct Production(pub NonTerminal, pub MusicString);

#[derive(Debug)]
pub struct Grammar {
    pub start: NonTerminal,
    pub productions: Vec<Production>,
}

/// An event together with the instrument that plays it.
pub type Placed = (Instrument, Event);

/// What composing a piece of music yields: its events and its length, or why it failed.
pub enum Outcome {
    Done(Seq<Placed>, Frac),
    NonUniform(Seq<Frac>),
    Overflow,
}

#[derive(Debug)]
pub enum CompositionError {
    /// The branches of a split have these different lengths.
    NonUniformSplit { durations: Vec<Frac> },
    /// A time or a pitch left the range of the machine numbers.
    Overflow,
}

pub open spec fn terminal_wf(t: Terminal) -> bool {
    match t {
        Terminal::Music { duration, note } => duration.wf() && match note {
            TerminalNote::Note { pitch } => pitch.wf(),
            TerminalNote::Rest => true,
        },
        Terminal::Meta(MetaControl::ChangeVolume(v)) => v.wf(),
        Terminal::Meta(MetaControl::ChangeInstrument(_)) => true,
    }
}

pub open spec fn transform_wf(t: MusicTransform) -> bool {
    match t {
        MusicTransform::Compression { factor } => factor.wf(),
        _ => true,
    }
}

/// Every fraction in the tree has a positive denominator and every pitch and volume is in range.
pub open spec fn string_wf(ms: MusicString) -> bool
    decreases ms,
{
    forall|i: int| 0 <= i < ms.0@.len() ==> primitive_wf(#[trigger] ms.0@[i])
}

pub open spec fn primitive_wf(p: MusicPrimitive) -> bool
    decreases p,
{
    match p {
        MusicPrimitive::Simple(Symbol::T(t)) => terminal_wf(t),
        MusicPrimitive::Simple(Symbol::NT(_)) => true,
        MusicPrimitive::Split { branches } => forall|j: int|
            0 <= j < branches@.len() ==> string_wf(#[trigger] branches@[j]),
        MusicPrimitive::Transform { transform, content } => transform_wf(transform) && string_wf(
            content,
        ),
    }
}

pub open spec fn prepend(evs: Seq<Placed>, o: Outcome) -> Outcome {
    match o {
        Outcome::Done(rest, end) => Outcome::Done(evs + rest, end),
        _ => o,
    }
}

pub open spec fn shift_event(e: Event, off: Frac) -> Option<Event> {
    match frac_add(e.start, off) {
        Some(s) => Some(Event { start: s, ..e }),
        None => None,
    }
}

pub open spec fn transpose_event(e: Event, k: i64) -> Option<Event> {
    match spec_transpose(e.pitch, k) {
        Some(p) => Some(Event { pitch: p, ..e }),
        None => None,
    }
}

pub open spec fn compress_event(e: Event, f: Frac) -> Option<Event> {
    match (frac_mul(e.start, f), frac_mul(e.duration, f)) {
        (Some(s), Some(d)) => Some(Event { start: s, duration: d, ..e }),
        _ => None,
    }
}

/// What an event becomes under a transform that keeps its place in time.
#[derive(Clone, Copy)]
pub enum EventMap {
    Shift(Frac),
    Transpose(i64),
    Compress(Frac),
}

pub open spec fn map_event(m: EventMap, e: Event) -> Option<Event> {
    match m {
        EventMap::Shift(off) => shift_event(e, off),
        EventMap::Transpose(k) => transpose_event(e, k),
        EventMap::Compress(f) => compress_event(e, f),
    }
}

/// Applies `m` to every event, or `None` when one of them leaves the number range.
pub open spec fn map_all(m: EventMap, evs: Seq<Placed>) -> Option<Seq<Placed>>
    decreases evs.len(),
{
    if evs.len() == 0 {
        Some(Seq::empty())
    } else {
        match (map_all(m, evs.drop_last()), map_event(m, evs.last().1)) {
            (Some(s), Some(e)) => Some(s.push((evs.last().0, e))),
            _ => None,
        }
    }
}

/// `n` copies of `evs`, the `k`-th shifted by `off + k * d` (the offsets summed one by one).
pub open spec fn repeat_all(evs: Seq<Placed>, d: Frac, n: nat, off: Frac) -> Option<Seq<Placed>>
    decreases n,
{
    if n == 0 {
        Some(Seq::empty())
    } else {
        match (map_all(EventMap::Shift(off), evs), frac_add(off, d)) {
            (Some(first), Some(next)) => match repeat_all(evs, d, (n - 1) as nat, next) {
                Some(rest) => Some(first + rest),
                None => None,
            },
            _ => None,
        }
    }
}

pub open spec fn default_volume() -> Volume {
    Volume(50)
}

/// Composes the string from time zero with the default instrument and volume.
pub open spec fn compose_string(ms: MusicString) -> Outcome
    decreases ms, 0int,
{
    walk(ms.0@, 0, Frac { num: 0, den: 1 }, Instrument::SineWave, default_volume())
}

/// The events of `ps[i..]` placed from `cursor` on, and the time at which they end.
pub open spec fn walk(
    ps: Seq<MusicPrimitive>,
    i: int,
    cursor: Frac,
    inst: Instrument,
    vol: Volume,
) -> Outcome
    decreases ps, ps.len() - i,
{
    if i < 0 || i >= ps.len() {
        Outcome::Done(Seq::empty(), cursor)
    } else {
        match ps[i] {
            MusicPrimitive::Simple(Symbol::NT(_)) => walk(ps, i + 1, cursor, inst, vol),
            MusicPrimitive::Simple(Symbol::T(Terminal::Meta(MetaControl::ChangeInstrument(j)))) => walk(
                ps,
                i + 1,
                cursor,
                j,
                vol,
            ),
            MusicPrimitive::Simple(Symbol::T(Terminal::Meta(MetaControl::ChangeVolume(v)))) => walk(
                ps,
                i + 1,
                cursor,
                inst,
                v,
            ),
            MusicPrimitive::Simple(Symbol::T(Terminal::Music { duration, note })) => match frac_add(
                cursor,
                duration,
            ) {
                Some(next) => {
                    let here = match note {
                        TerminalNote::Note { pitch } => seq![
                            (inst, Event { start: cursor, duration, volume: vol, pitch }),
                        ],
                        TerminalNote::Rest => Seq::empty(),
                    };
                    prepend(here, walk(ps, i + 1, next, inst, vol))
                },
                None => Outcome::Overflow,
            },
            MusicPrimitive::Split { branches } => match split(branches@, cursor) {
                Outcome::Done(evs, d) => match frac_add(cursor, d) {
                    Some(next) => prepend(evs, walk(ps, i + 1, next, inst, vol)),
                    None => Outcome::Overflow,
                },
                o => o,
            },
            MusicPrimitive::Transform { transform, content } => match transformed(
                transform,
                content,
                cursor,
            ) {
                Outcome::Done(evs, d) => match frac_add(cursor, d) {
                    Some(next) => prepend(evs, walk(ps, i + 1, next, inst, vol)),
                    None => Outcome::Overflow,
                },
                o => o,
            },
        }
    }
}

/// The branches `bs[j..]` each composed from zero: their events and lengths, or the first failure.
pub open spec fn branches(bs: Seq<MusicString>, j: int) -> Result<Seq<(Seq<Placed>, Frac)>, Outcome>
    decreases bs, bs.len() - j,
{
    if j < 0 || j >= bs.len() {
        Ok(Seq::empty())
    } else {
        match compose_string(bs[j]) {
            Outcome::Done(evs, d) => match branches(bs, j + 1) {
                Ok(rest) => Ok(seq![(evs, d)] + rest),
                Err(o) => Err(o),
            },
            o => Err(o),
        }
    }
}

pub open spec fn flatten(rs: Seq<(Seq<Placed>, Frac)>) -> Seq<Placed>
    decreases rs.len(),
{
    if rs.len() == 0 {
        Seq::empty()
    } else {
        flatten(rs.drop_last()) + rs.last().0
    }
}

pub open spec fn uniform(rs: Seq<(Seq<Placed>, Frac)>) -> bool {
    forall|j: int| 0 <= j < rs.len() ==> (#[trigger] rs[j]).1.same(rs[0].1)
}

/// The branches `bs` played together from `cursor`; they must all last equally long.
pub open spec fn split(bs: Seq<MusicString>, cursor: Frac) -> Outcome
    decreases bs, bs.len() + 1,
{
    match branches(bs, 0) {
        Err(o) => o,
        Ok(rs) => split_of(rs, cursor),
    }
}

/// Composed branches played together from `cursor`; they must all last equally long.
pub open spec fn split_of(rs: Seq<(Seq<Placed>, Frac)>, cursor: Frac) -> Outcome {
    if rs.len() == 0 {
            Outcome::Done(Seq::empty(), Frac { num: 0, den: 1 })
        } else if uniform(rs) {
            match map_all(EventMap::Shift(cursor), flatten(rs)) {
                Some(evs) => Outcome::Done(evs, rs[0].1),
                None => Outcome::Overflow,
            }
        } else {
            Outcome::NonUniform(rs.map_values(|r: (Seq<Placed>, Frac)| r.1))
        }
}

/// The content composed from zero, transformed, and placed at `cursor`.
pub open spec fn transformed(t: MusicTransform, content: MusicString, cursor: Frac) -> Outcome
    decreases content, 1int,
{
    match compose_string(content) {
        Outcome::Done(evs, d) => match t {
            MusicTransform::Repeat { num } => if num > i64::MAX {
                Outcome::Overflow
            } else {
                match (repeat_all(evs, d, num as nat, cursor), frac_mul(d, Frac { num: num as i64, den: 1 })) {
                    (Some(out), Some(total)) => Outcome::Done(out, total),
                    _ => Outcome::Overflow,
                }
            },
            MusicTransform::Transpose { semitones } => match map_all(EventMap::Transpose(semitones), evs) {
                Some(moved) => match map_all(EventMap::Shift(cursor), moved) {
                    Some(out) => Outcome::Done(out, d),
                    None => Outcome::Overflow,
                },
                None => Outcome::Overflow,
            },
            MusicTransform::Compression { factor } => match (
                map_all(EventMap::Compress(factor), evs),
                frac_mul(factor, d),
            ) {
                (Some(scaled), Some(total)) => match map_all(EventMap::Shift(cursor), scaled) {
                    Some(out) => Outcome::Done(out, total),
                    None => Outcome::Overflow,
                },
                _ => Outcome::Overflow,
            },
        },
        o => o,
    }
}

} // verus!
