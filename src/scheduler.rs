//! Real-time dispatch of a composition: each tick hands out the events that start within the
//! look-ahead window and moves every track's cursor to the end of that window.
use crate::composition::{all_wf, sorted_by_start, Composition, Event, Instrument, Pitch, Track, Volume};
use crate::frac::{frac_add, frac_mul, frac_of, frac_sub, from_wide, Frac};
use crate::time::{MusicTime, Seconds, TimeSignature};
use vstd::prelude::*;

verus! {

pub type Cursor = MusicTime;

pub struct Scheduler {
    /// Beats per minute, a beat being `1 / den` of a whole note.
    pub bpm: Frac,
    pub time_signature: TimeSignature,
    pub tracks: Vec<(Track, Cursor)>,
    pub lookahead: MusicTime,
    pub looped: bool,
    pub loop_time: MusicTime,
}

/// A sound due at `time` seconds after playback started, lasting `duration` seconds.
#[derive(Clone, Copy, Debug, PartialEq, Eq, Structural)]
pub struct ScheduledSound {
    pub time: Seconds,
    pub duration: Seconds,
    pub volume: Volume,
    pub instrument: Instrument,
    pub pitch: Pitch,
}

#[derive(Debug)]
pub enum SchedulerError {
    /// Looping was asked for with a loop length that is not positive.
    InvalidLoop,
    /// A time left the range of the machine numbers.
    Overflow,
}

pub open spec fn in_window(e: Event, lo: Frac, hi: Frac) -> bool {
    lo.le(e.start) && e.start.lt(hi)
}

/// The events whose start lies in `[lo, hi)`, in their order.
pub open spec fn select(evs: Seq<Event>, lo: Frac, hi: Frac) -> Seq<Event>
    decreases evs.len(),
{
    if evs.len() == 0 {
        Seq::empty()
    } else {
        let p = select(evs.drop_last(), lo, hi);
        if in_window(evs.last(), lo, hi) {
            p.push(evs.last())
        } else {
            p
        }
    }
}

/// `t` minus as many whole `period`s as fit in it.
pub open spec fn spec_wrap(t: Frac, period: Frac) -> Option<Frac> {
    if t.num < 0 || period.num <= 0 {
        None
    } else {
        let k = (t.num * period.den) / (t.den * period.num);
        frac_of(t.num * period.den - k * period.num * t.den, t.den * period.den)
    }
}

pub open spec fn spec_to_seconds(t: MusicTime, ts: TimeSignature, bpm: Frac) -> Option<Seconds> {
    match frac_mul(t, Frac { num: (ts.den * 60) as i64, den: 1 }) {
        Some(x) => frac_mul(x, Frac { num: bpm.den, den: bpm.num }),
        None => None,
    }
}

pub open spec fn spec_from_seconds(s: Seconds, ts: TimeSignature, bpm: Frac) -> Option<MusicTime> {
    match frac_mul(s, bpm) {
        Some(x) => frac_mul(x, Frac { num: 1, den: (ts.den * 60) as i64 }),
        None => None,
    }
}

/// Moves a time that lies before `now` forward by the fewest whole `period`s that bring it
/// to `now` or later.
pub open spec fn spec_project(time: Seconds, now: Seconds, period: Seconds) -> Option<Seconds> {
    if time.lt(now) {
        match frac_sub(now, time) {
            Some(diff) => {
                let qn = diff.num * period.den;
                let qd = diff.den * period.num;
                let k = (qn + qd - 1) / qd;
                if qd <= 0 || qn < 0 || k > i64::MAX {
                    None
                } else {
                    match frac_mul(period, Frac { num: k as i64, den: 1 }) {
                        Some(step) => frac_add(time, step),
                        None => None,
                    }
                }
            },
            None => None,
        }
    } else {
        Some(time)
    }
}

pub open spec fn nine_tenths() -> Frac {
    Frac { num: 9, den: 10 }
}

impl Scheduler {
    pub open spec fn wf(self) -> bool {
        &&& self.bpm.wf()
        &&& self.bpm.num > 0
        &&& self.time_signature.wf()
        &&& self.lookahead.wf()
        &&& self.loop_time.wf()
        &&& (self.looped ==> self.loop_time.num > 0)
        &&& forall|k: int|
            0 <= k < self.tracks@.len() ==> tracks_entry_wf(#[trigger] self.tracks@[k])
    }

    /// The window of this tick: where it starts, where it ends, and whether it wraps around
    /// the end of the loop.
    pub open spec fn spec_window(self, now: Seconds) -> Option<(Frac, Frac, bool)> {
        match spec_from_seconds(now, self.time_signature, self.bpm) {
            None => None,
            Some(c0) => {
                let cur = if self.looped {
                    spec_wrap(c0, self.loop_time)
                } else {
                    Some(c0)
                };
                match cur {
                    None => None,
                    Some(c) => match frac_add(c, self.lookahead) {
                        None => None,
                        Some(e0) => if self.looped && self.loop_time.lt(e0) {
                            match spec_wrap(e0, self.loop_time) {
                                Some(e) => Some((c, e, true)),
                                None => None,
                            }
                        } else {
                            Some((c, e0, false))
                        },
                    },
                }
            },
        }
    }

    /// The events of a track that this tick hands out.
    pub open spec fn spec_due(self, evs: Seq<Event>, cursor: Frac, end: Frac, looping: bool) -> Seq<
        Event,
    > {
        if looping {
            select(evs, cursor, self.loop_time) + select(evs, Frac { num: 0, den: 1 }, end)
        } else {
            select(evs, cursor, end)
        }
    }

    /// The sound that an event becomes when handed out at `now`.
    pub open spec fn spec_sound(self, e: Event, inst: Instrument, now: Seconds) -> Option<
        ScheduledSound,
    > {
        let ts = self.time_signature;
        match (
            spec_to_seconds(e.start, ts, self.bpm),
            spec_to_seconds(e.duration, ts, self.bpm),
            spec_to_seconds(self.loop_time, ts, self.bpm),
        ) {
            (Some(t), Some(d), Some(period)) => match frac_mul(d, nine_tenths()) {
                Some(held) => {
                    let time = if self.looped {
                        spec_project(t, now, period)
                    } else {
                        Some(t)
                    };
                    match time {
                        Some(at) => Some(
                            ScheduledSound {
                                time: at,
                                duration: held,
                                volume: e.volume,
                                instrument: inst,
                                pitch: e.pitch,
                            },
                        ),
                        None => None,
                    }
                },
                None => None,
            },
            _ => None,
        }
    }

    pub open spec fn spec_sounds_of(self, evs: Seq<Event>, inst: Instrument, now: Seconds) -> Option<
        Seq<ScheduledSound>,
    >
        decreases evs.len(),
    {
        if evs.len() == 0 {
            Some(Seq::empty())
        } else {
            match (self.spec_sounds_of(evs.drop_last(), inst, now), self.spec_sound(evs.last(), inst, now)) {
                (Some(s), Some(x)) => Some(s.push(x)),
                _ => None,
            }
        }
    }

    /// The sounds of the tracks `tracks`, track after track, unsorted.
    pub open spec fn spec_gather(
        self,
        tracks: Seq<(Track, Cursor)>,
        now: Seconds,
        end: Frac,
        looping: bool,
    ) -> Option<Seq<ScheduledSound>>
        decreases tracks.len(),
    {
        if tracks.len() == 0 {
            Some(Seq::empty())
        } else {
            let (t, c) = tracks.last();
            match (
                self.spec_gather(tracks.drop_last(), now, end, looping),
                self.spec_sounds_of(self.spec_due(t.events@, c, end, looping), t.instrument, now),
            ) {
                (Some(a), Some(b)) => Some(a + b),
                _ => None,
            }
        }
    }
}

pub open spec fn tracks_entry_wf(entry: (Track, Cursor)) -> bool {
    &&& entry.1.wf()
    &&& forall|i: int| 0 <= i < entry.0.events@.len() ==> (#[trigger] entry.0.events@[i]).wf()
}

pub open spec fn sound_before(a: ScheduledSound, b: ScheduledSound) -> bool {
    a.time.le(b.time)
}

pub open spec fn sound_insert_pos(s: Seq<ScheduledSound>, x: ScheduledSound) -> int
    decreases s.len(),
{
    if s.len() == 0 {
        0
    } else if s.last().time.le(x.time) {
        s.len() as int
    } else {
        sound_insert_pos(s.drop_last(), x)
    }
}

/// The sounds ordered by time; sounds due together keep their order.
pub open spec fn sort_by_time(s: Seq<ScheduledSound>) -> Seq<ScheduledSound>
    decreases s.len(),
{
    if s.len() == 0 {
        Seq::empty()
    } else {
        let p = sort_by_time(s.drop_last());
        p.insert(sound_insert_pos(p, s.last()), s.last())
    }
}

fn insert_sound(out: &mut Vec<ScheduledSound>, x: ScheduledSound)
    ensures
        final(out)@ == old(out)@.insert(sound_insert_pos(old(out)@, x), x),
{
    let ghost s = out@;
    let mut k = out.len();
    assert(s.subrange(0, k as int) =~= s);
    while k > 0 && !out[k - 1].time.less_eq(&x.time)
        invariant
            out@ == s,
            k <= s.len(),
            sound_insert_pos(s, x) == sound_insert_pos(s.subrange(0, k as int), x),
        decreases k,
    {
        assert(s.subrange(0, k as int).drop_last() =~= s.subrange(0, k - 1));
        k -= 1;
    }
    out.insert(k, x);
}

fn sort_sounds(v: &Vec<ScheduledSound>) -> (r: Vec<ScheduledSound>)
    ensures
        r@ == sort_by_time(v@),
{
    let mut out: Vec<ScheduledSound> = Vec::new();
    let mut i: usize = 0;
    assert(v@.subrange(0, 0) =~= Seq::<ScheduledSound>::empty());
    while i < v.len()
        invariant
            i <= v.len(),
            out@ == sort_by_time(v@.subrange(0, i as int)),
        decreases v.len() - i,
    {
        insert_sound(&mut out, v[i]);
        i += 1;
        assert(v@.subrange(0, i as int).drop_last() =~= v@.subrange(0, i - 1));
    }
    assert(v@.subrange(0, i as int) =~= v@);
    out
}

fn select_events(evs: &Vec<Event>, lo: Frac, hi: Frac) -> (r: Vec<Event>)
    ensures
        r@ == select(evs@, lo, hi),
{
    let mut out: Vec<Event> = Vec::new();
    let mut i: usize = 0;
    assert(evs@.subrange(0, 0) =~= Seq::<Event>::empty());
    while i < evs.len()
        invariant
            i <= evs.len(),
            out@ == select(evs@.subrange(0, i as int), lo, hi),
        decreases evs.len() - i,
    {
        assert(evs@.subrange(0, i + 1).drop_last() =~= evs@.subrange(0, i as int));
        if lo.less_eq(&evs[i].start) && evs[i].start.less_than(&hi) {
            out.push(evs[i]);
        }
        i += 1;
    }
    assert(evs@.subrange(0, i as int) =~= evs@);
    out
}

/// `t` minus as many whole `period`s as fit in it.
pub fn wrap(t: Frac, period: Frac) -> (r: Option<Frac>)
    requires
        t.wf(),
        period.wf(),
    ensures
        r == spec_wrap(t, period),
{
    if t.num < 0 || period.num <= 0 {
        return None;
    }
    proof {
        assert(0 <= t.num * period.den <= 0x7fff_ffff_ffff_ffff * 0x7fff_ffff_ffff_ffff)
            by (nonlinear_arith)
            requires
                0 <= t.num <= 0x7fff_ffff_ffff_ffff,
                0 < period.den <= 0x7fff_ffff_ffff_ffff,
        ;
        assert(0 < t.den * period.num <= 0x7fff_ffff_ffff_ffff * 0x7fff_ffff_ffff_ffff)
            by (nonlinear_arith)
            requires
                0 < t.den <= 0x7fff_ffff_ffff_ffff,
                0 < period.num <= 0x7fff_ffff_ffff_ffff,
        ;
        assert(0 < t.den * period.den <= 0x7fff_ffff_ffff_ffff * 0x7fff_ffff_ffff_ffff)
            by (nonlinear_arith)
            requires
                0 < t.den <= 0x7fff_ffff_ffff_ffff,
                0 < period.den <= 0x7fff_ffff_ffff_ffff,
        ;
    }
    let a: i128 = t.num as i128 * period.den as i128;
    let b: i128 = t.den as i128 * period.num as i128;
    let k: i128 = a / b;
    proof {
        assert(0 <= k <= a) by (nonlinear_arith)
            requires
                k == a / b,
                a >= 0,
                b >= 1,
        ;
        assert(0 <= a - k * b < b) by (nonlinear_arith)
            requires
                k == a / b,
                b > 0,
                a >= 0,
        ;
        assert(k * period.num * t.den == k * b) by (nonlinear_arith)
            requires
                b == t.den * period.num,
        ;
    }
    from_wide(a - k * b, t.den as i128 * period.den as i128)
}

pub fn to_seconds(t: MusicTime, ts: TimeSignature, bpm: Frac) -> (r: Option<Seconds>)
    requires
        t.wf(),
        bpm.wf(),
        bpm.num > 0,
    ensures
        r == spec_to_seconds(t, ts, bpm),
{
    match t.mul(Frac::whole(ts.den as i64 * 60)) {
        Some(x) => x.mul(Frac { num: bpm.den, den: bpm.num }),
        None => None,
    }
}

pub fn from_seconds(s: Seconds, ts: TimeSignature, bpm: Frac) -> (r: Option<MusicTime>)
    requires
        s.wf(),
        bpm.wf(),
        ts.wf(),
    ensures
        r == spec_from_seconds(s, ts, bpm),
{
    match s.mul(bpm) {
        Some(x) => x.mul(Frac { num: 1, den: ts.den as i64 * 60 }),
        None => None,
    }
}

fn project(time: Seconds, now: Seconds, period: Seconds) -> (r: Option<Seconds>)
    requires
        time.wf(),
        now.wf(),
        period.wf(),
    ensures
        r == spec_project(time, now, period),
{
    if time.less_than(&now) {
        match now.sub(time) {
            Some(diff) => {
                proof {
                    crate::frac::lemma_mul_bound_signed(diff.num as int, period.den as int);
                    crate::frac::lemma_mul_bound_signed(diff.den as int, period.num as int);
                }
                let qn: i128 = diff.num as i128 * period.den as i128;
                let qd: i128 = diff.den as i128 * period.num as i128;
                if qd <= 0 || qn < 0 {
                    return None;
                }
                assert(qn <= 0x4000_0000_0000_0000_0000_0000_0000_0000);
                assert(qd <= 0x4000_0000_0000_0000_0000_0000_0000_0000);
                let k = (qn + (qd - 1)) / qd;
                if k > i64::MAX as i128 {
                    None
                } else {
                    match period.mul(Frac::whole(k as i64)) {
                        Some(step) => time.add(step),
                        None => None,
                    }
                }
            },
            None => None,
        }
    } else {
        Some(time)
    }
}

/// The index of the event that starts latest (the last of them where several do); in a
/// track sorted by start, the last event.
pub open spec fn latest_index(evs: Seq<Event>) -> int
    decreases evs.len(),
{
    if evs.len() <= 1 {
        0
    } else {
        let k = latest_index(evs.drop_last());
        if evs[k].start.le(evs.last().start) {
            evs.len() - 1
        } else {
            k
        }
    }
}

/// The cursor has passed the end of the track's last event, the one that starts latest.
pub open spec fn track_done(entry: (Track, Cursor)) -> bool {
    let evs = entry.0.events@;
    let last = evs[latest_index(evs)];
    evs.len() == 0 || match frac_add(last.start, last.duration) {
        Some(end) => end.lt(entry.1),
        None => false,
    }
}

fn latest_event(evs: &Vec<Event>) -> (r: usize)
    requires
        evs@.len() > 0,
    ensures
        r == latest_index(evs@),
        r < evs@.len(),
{
    let mut k: usize = 0;
    let mut i: usize = 1;
    assert(evs@.subrange(0, 1).len() == 1);
    while i < evs.len()
        invariant
            1 <= i <= evs@.len(),
            k < i,
            k == latest_index(evs@.subrange(0, i as int)),
        decreases evs@.len() - i,
    {
        let ghost sub = evs@.subrange(0, i + 1);
        assert(sub.drop_last() =~= evs@.subrange(0, i as int));
        assert(sub[k as int] == evs@[k as int]);
        assert(sub.last() == evs@[i as int]);
        if evs[k].start.less_eq(&evs[i].start) {
            k = i;
        }
        i += 1;
    }
    assert(evs@.subrange(0, i as int) =~= evs@);
    k
}

proof fn lemma_gather_prefix_none(
    s: Scheduler,
    tracks: Seq<(Track, Cursor)>,
    k: int,
    now: Seconds,
    end: Frac,
    looping: bool,
)
    requires
        0 <= k <= tracks.len(),
        s.spec_gather(tracks.subrange(0, k), now, end, looping) is None,
    ensures
        s.spec_gather(tracks, now, end, looping) is None,
    decreases tracks.len() - k,
{
    if k < tracks.len() {
        assert(tracks.subrange(0, k + 1).drop_last() =~= tracks.subrange(0, k));
        lemma_gather_prefix_none(s, tracks, k + 1, now, end, looping);
    } else {
        assert(tracks.subrange(0, k) =~= tracks);
    }
}

proof fn lemma_sounds_prefix_none(
    s: Scheduler,
    evs: Seq<Event>,
    k: int,
    inst: Instrument,
    now: Seconds,
)
    requires
        0 <= k <= evs.len(),
        s.spec_sounds_of(evs.subrange(0, k), inst, now) is None,
    ensures
        s.spec_sounds_of(evs, inst, now) is None,
    decreases evs.len() - k,
{
    if k < evs.len() {
        assert(evs.subrange(0, k + 1).drop_last() =~= evs.subrange(0, k));
        lemma_sounds_prefix_none(s, evs, k + 1, inst, now);
    } else {
        assert(evs.subrange(0, k) =~= evs);
    }
}

impl Scheduler {
    /// This tick's sounds, unsorted, and the end of its window.
    pub open spec fn spec_tick(self, now: Seconds) -> Option<(Seq<ScheduledSound>, Frac)> {
        match self.spec_window(now) {
            Some((_, end, looping)) => match self.spec_gather(self.tracks@, now, end, looping) {
                Some(sounds) => Some((sounds, end)),
                None => None,
            },
            None => None,
        }
    }

    /// The scheduler is well formed: positive tempo, a valid time signature, fractions with
    /// positive denominators, pitches in range, and a positive loop length when looping.
    pub fn is_valid(&self) -> (r: bool)
        ensures
            r == self.wf(),
    {
        if !(self.bpm.den > 0 && self.bpm.num > 0 && self.time_signature.num > 0
            && self.time_signature.den > 0 && self.lookahead.den > 0 && self.loop_time.den > 0) {
            return false;
        }
        if self.looped && self.loop_time.num <= 0 {
            return false;
        }
        let mut k: usize = 0;
        while k < self.tracks.len()
            invariant
                k <= self.tracks@.len(),
                forall|m: int| 0 <= m < k ==> tracks_entry_wf(#[trigger] self.tracks@[m]),
            decreases self.tracks@.len() - k,
        {
            let entry = &self.tracks[k];
            if entry.1.den <= 0 {
                assert(!tracks_entry_wf(self.tracks@[k as int]));
                return false;
            }
            let mut i: usize = 0;
            while i < entry.0.events.len()
                invariant
                    k < self.tracks@.len(),
                    *entry == self.tracks@[k as int],
                    entry.1.den > 0,
                    forall|m: int| 0 <= m < k ==> tracks_entry_wf(#[trigger] self.tracks@[m]),
                    i <= entry.0.events@.len(),
                    forall|j: int| 0 <= j < i ==> (#[trigger] entry.0.events@[j]).wf(),
                decreases entry.0.events@.len() - i,
            {
                let e = entry.0.events[i];
                if e.start.den <= 0 || e.duration.den <= 0 || e.pitch.1 >= 12 {
                    assert(!entry.0.events@[i as int].wf());
                    assert(!tracks_entry_wf(self.tracks@[k as int]));
                    return false;
                }
                i += 1;
            }
            k += 1;
        }
        true
    }

    /// A scheduler with no tracks yet. Looping needs a positive loop length.
    pub fn new(
        bpm: Frac,
        time_signature: TimeSignature,
        lookahead: MusicTime,
        looped: bool,
        loop_time: MusicTime,
    ) -> (r: Result<Scheduler, SchedulerError>)
        requires
            bpm.wf(),
            bpm.num > 0,
            time_signature.wf(),
            lookahead.wf(),
            loop_time.wf(),
        ensures
            r is Err <==> looped && loop_time.num <= 0,
            r is Err ==> r->Err_0 is InvalidLoop,
            r is Ok ==> ({
                let s = r.unwrap();
                &&& s.wf()
                &&& s.bpm == bpm
                &&& s.time_signature == time_signature
                &&& s.lookahead == lookahead
                &&& s.looped == looped
                &&& s.loop_time == loop_time
                &&& s.tracks@.len() == 0
            }),
    {
        if looped && loop_time.num <= 0 {
            return Err(SchedulerError::InvalidLoop);
        }
        Ok(Scheduler { bpm, time_signature, tracks: Vec::new(), lookahead, looped, loop_time })
    }

    /// Replaces the tracks by those of `composition`, each with its cursor at zero.
    pub fn set_composition(&mut self, composition: Composition)
        requires
            composition.time_signature.wf(),
            forall|k: int|
                0 <= k < composition.tracks@.len() ==> forall|i: int|
                    0 <= i < (#[trigger] composition.tracks@[k]).events@.len()
                        ==> (#[trigger] composition.tracks@[k].events@[i]).wf(),
        ensures
            final(self).time_signature == composition.time_signature,
            final(self).tracks@.len() == composition.tracks@.len(),
            forall|k: int|
                0 <= k < composition.tracks@.len() ==> #[trigger] final(self).tracks@[k] == (
                    composition.tracks@[k],
                    Frac { num: 0, den: 1 },
                ),
            final(self).bpm == old(self).bpm,
            final(self).lookahead == old(self).lookahead,
            final(self).looped == old(self).looped,
            final(self).loop_time == old(self).loop_time,
    {
        let ghost given = composition.tracks@;
        let mut rest = composition.tracks;
        let mut tracks: Vec<(Track, Cursor)> = Vec::new();
        while rest.len() > 0
            invariant
                tracks@.len() + rest@.len() == given.len(),
                rest@ == given.subrange(tracks@.len() as int, given.len() as int),
                forall|k: int|
                    0 <= k < tracks@.len() ==> #[trigger] tracks@[k] == (
                        given[k],
                        Frac { num: 0, den: 1 },
                    ),
            decreases rest@.len(),
        {
            let t = rest.remove(0);
            assert(t == given[tracks@.len() as int]);
            tracks.push((t, Frac::zero()));
            assert(rest@ =~= given.subrange(tracks@.len() as int, given.len() as int));
        }
        self.time_signature = composition.time_signature;
        self.tracks = tracks;
    }

    /// Playback has ended: the scheduler does not loop and every track's cursor has passed
    /// the end of its last event.
    pub fn ended(&self) -> (r: bool)
        requires
            self.wf(),
        ensures
            r == (!self.looped && forall|k: int|
                0 <= k < self.tracks@.len() ==> track_done(#[trigger] self.tracks@[k])),
    {
        if self.looped {
            return false;
        }
        let mut k: usize = 0;
        while k < self.tracks.len()
            invariant
                self.wf(),
                k <= self.tracks@.len(),
                forall|m: int| 0 <= m < k ==> track_done(#[trigger] self.tracks@[m]),
            decreases self.tracks@.len() - k,
        {
            let entry = &self.tracks[k];
            assert(tracks_entry_wf(self.tracks@[k as int]));
            let n = entry.0.events.len();
            if n > 0 {
                let last = entry.0.events[latest_event(&entry.0.events)];
                match last.start.add(last.duration) {
                    Some(end) => {
                        if !end.less_than(&entry.1) {
                            return false;
                        }
                    },
                    None => {
                        return false;
                    },
                }
            }
            k += 1;
        }
        true
    }

    fn window(&self, now: Seconds) -> (r: Option<(Frac, Frac, bool)>)
        requires
            self.wf(),
            now.wf(),
        ensures
            r == self.spec_window(now),
            r is Some ==> r.unwrap().1.wf(),
    {
        let c0 = match from_seconds(now, self.time_signature, self.bpm) {
            Some(c) => c,
            None => {
                return None;
            },
        };
        let c = if self.looped {
            match wrap(c0, self.loop_time) {
                Some(c) => c,
                None => {
                    return None;
                },
            }
        } else {
            c0
        };
        match c.add(self.lookahead) {
            None => None,
            Some(e0) => {
                if self.looped && self.loop_time.less_than(&e0) {
                    match wrap(e0, self.loop_time) {
                        Some(e) => Some((c, e, true)),
                        None => None,
                    }
                } else {
                    Some((c, e0, false))
                }
            },
        }
    }

    fn sound(&self, e: Event, inst: Instrument, now: Seconds) -> (r: Option<ScheduledSound>)
        requires
            self.wf(),
            e.wf(),
            now.wf(),
        ensures
            r == self.spec_sound(e, inst, now),
    {
        let ts = self.time_signature;
        let t = to_seconds(e.start, ts, self.bpm);
        let d = to_seconds(e.duration, ts, self.bpm);
        let period = to_seconds(self.loop_time, ts, self.bpm);
        match (t, d, period) {
            (Some(t), Some(d), Some(period)) => match d.mul(Frac { num: 9, den: 10 }) {
                Some(held) => {
                    let time = if self.looped {
                        project(t, now, period)
                    } else {
                        Some(t)
                    };
                    match time {
                        Some(at) => Some(
                            ScheduledSound {
                                time: at,
                                duration: held,
                                volume: e.volume,
                                instrument: inst,
                                pitch: e.pitch,
                            },
                        ),
                        None => None,
                    }
                },
                None => None,
            },
            _ => None,
        }
    }

    fn sounds_of(&self, evs: &Vec<Event>, inst: Instrument, now: Seconds) -> (r: Option<
        Vec<ScheduledSound>,
    >)
        requires
            self.wf(),
            now.wf(),
            forall|i: int| 0 <= i < evs@.len() ==> (#[trigger] evs@[i]).wf(),
        ensures
            r is Some <==> self.spec_sounds_of(evs@, inst, now) is Some,
            r is Some ==> self.spec_sounds_of(evs@, inst, now) == Some(r.unwrap()@),
    {
        let mut out: Vec<ScheduledSound> = Vec::new();
        let mut i: usize = 0;
        assert(evs@.subrange(0, 0) =~= Seq::<Event>::empty());
        while i < evs.len()
            invariant
                self.wf(),
                now.wf(),
                i <= evs.len(),
                forall|j: int| 0 <= j < evs@.len() ==> (#[trigger] evs@[j]).wf(),
                self.spec_sounds_of(evs@.subrange(0, i as int), inst, now) == Some(out@),
            decreases evs.len() - i,
        {
            assert(evs@.subrange(0, i + 1).drop_last() =~= evs@.subrange(0, i as int));
            match self.sound(evs[i], inst, now) {
                Some(x) => {
                    out.push(x);
                },
                None => {
                    proof {
                        lemma_sounds_prefix_none(*self, evs@, i + 1, inst, now);
                    }
                    return None;
                },
            }
            i += 1;
        }
        assert(evs@.subrange(0, i as int) =~= evs@);
        Some(out)
    }

    /// Hands out, sorted by time, the sounds of every event that starts in this tick's window,
    /// and moves every cursor to the end of the window. `now` is the time since playback
    /// started. Nothing changes when a time leaves the range of the machine numbers.
    pub fn get_next_events_and_update(&mut self, now: Seconds) -> (r: Result<
        Vec<ScheduledSound>,
        SchedulerError,
    >)
        requires
            old(self).wf(),
            now.wf(),
        ensures
            match old(self).spec_tick(now) {
                Some((sounds, end)) => {
                    &&& r is Ok
                    &&& r.unwrap()@ == sort_by_time(sounds)
                    &&& final(self).tracks@.len() == old(self).tracks@.len()
                    &&& forall|k: int|
                        0 <= k < old(self).tracks@.len() ==> #[trigger] final(self).tracks@[k] == (
                            old(self).tracks@[k].0,
                            end,
                        )
                    &&& final(self).bpm == old(self).bpm
                    &&& final(self).time_signature == old(self).time_signature
                    &&& final(self).lookahead == old(self).lookahead
                    &&& final(self).looped == old(self).looped
                    &&& final(self).loop_time == old(self).loop_time
                    &&& final(self).wf()
                },
                None => r is Err && r->Err_0 is Overflow && *final(self) == *old(self),
            },
            old(self).looped && r is Ok ==> forall|i: int|
                0 <= i < r.unwrap()@.len() ==> now.le((#[trigger] r.unwrap()@[i]).time),
    {
        let (_c, end, looping) = match self.window(now) {
            Some(w) => w,
            None => {
                return Err(SchedulerError::Overflow);
            },
        };
        let ghost w = (_c, end, looping);
        assert(self.spec_window(now) == Some(w));
        let mut all: Vec<ScheduledSound> = Vec::new();
        let mut k: usize = 0;
        let ghost tracks = self.tracks@;
        assert(tracks.subrange(0, 0) =~= Seq::<(Track, Cursor)>::empty());
        while k < self.tracks.len()
            invariant
                *self == *old(self),
                self.spec_window(now) == Some(w),
                w == (_c, end, looping),
                self.wf(),
                now.wf(),
                tracks == self.tracks@,
                k <= tracks.len(),
                self.spec_gather(tracks.subrange(0, k as int), now, end, looping) == Some(all@),
            decreases tracks.len() - k,
        {
            let entry = &self.tracks[k];
            assert(tracks_entry_wf(tracks[k as int]));
            let due = if looping {
                let mut a = select_events(&entry.0.events, entry.1, self.loop_time);
                let mut b = select_events(&entry.0.events, Frac::zero(), end);
                a.append(&mut b);
                a
            } else {
                select_events(&entry.0.events, entry.1, end)
            };
            assert(tracks.subrange(0, k + 1).drop_last() =~= tracks.subrange(0, k as int));
            assert(tracks.subrange(0, k + 1).last() == tracks[k as int]);
            assert(due@ == self.spec_due(entry.0.events@, entry.1, end, looping));
            proof {
                assert forall|i: int| 0 <= i < due@.len() implies (#[trigger] due@[i]).wf() by {
                    lemma_select_from(entry.0.events@, entry.1, self.loop_time);
                    lemma_select_from(entry.0.events@, Frac { num: 0, den: 1 }, end);
                    lemma_select_from(entry.0.events@, entry.1, end);
                }
            }
            match self.sounds_of(&due, entry.0.instrument, now) {
                Some(mut xs) => {
                    all.append(&mut xs);
                },
                None => {
                    proof {
                        lemma_gather_prefix_none(*self, tracks, k + 1, now, end, looping);
                    }
                    return Err(SchedulerError::Overflow);
                },
            }
            k += 1;
        }
        assert(tracks.subrange(0, k as int) =~= tracks);
        let sorted = sort_sounds(&all);
        proof {
            if self.looped {
                self.lemma_gather_not_before(tracks, now, end, looping);
                lemma_sort_not_before(all@, now);
            }
        }
        let mut rest: Vec<(Track, Cursor)> = Vec::new();
        std::mem::swap(&mut rest, &mut self.tracks);
        let mut moved: Vec<(Track, Cursor)> = Vec::new();
        while rest.len() > 0
            invariant
                moved@.len() + rest@.len() == tracks.len(),
                rest@ == tracks.subrange(moved@.len() as int, tracks.len() as int),
                end.wf(),
                forall|m: int| 0 <= m < tracks.len() ==> tracks_entry_wf(#[trigger] tracks[m]),
                forall|m: int| 0 <= m < moved@.len() ==> #[trigger] moved@[m] == (tracks[m].0, end),
            decreases rest@.len(),
        {
            let (t, _c) = rest.remove(0);
            assert(t == tracks[moved@.len() as int].0);
            moved.push((t, end));
            assert(rest@ =~= tracks.subrange(moved@.len() as int, tracks.len() as int));
        }
        self.tracks = moved;
        assert forall|m: int| 0 <= m < self.tracks@.len() implies tracks_entry_wf(
            #[trigger] self.tracks@[m],
        ) by {
            assert(tracks_entry_wf(tracks[m]));
        }
        Ok(sorted)
    }
}

/// What `select` picks comes from the events it looks at.
proof fn lemma_select_from(evs: Seq<Event>, lo: Frac, hi: Frac)
    ensures
        forall|i: int|
            0 <= i < select(evs, lo, hi).len() ==> evs.contains(#[trigger] select(evs, lo, hi)[i]),
    decreases evs.len(),
{
    if evs.len() > 0 {
        lemma_select_from(evs.drop_last(), lo, hi);
        let p = select(evs.drop_last(), lo, hi);
        assert forall|i: int| 0 <= i < select(evs, lo, hi).len() implies evs.contains(
            #[trigger] select(evs, lo, hi)[i],
        ) by {
            if i < p.len() {
                let j = choose|j: int| 0 <= j < evs.drop_last().len() && evs.drop_last()[j] == p[i];
                assert(evs[j] == p[i]);
            } else {
                assert(evs[evs.len() - 1] == evs.last());
            }
        }
    }
}

proof fn lemma_ceil(qn: int, qd: int)
    requires
        qd > 0,
        qn >= 0,
    ensures
        ((qn + qd - 1) / qd) * qd >= qn,
{
    vstd::arithmetic::div_mod::lemma_fundamental_div_mod(qn + qd - 1, qd);
    let k = (qn + qd - 1) / qd;
    let r = (qn + qd - 1) % qd;
    assert(r < qd) by {
        vstd::arithmetic::div_mod::lemma_mod_pos_bound(qn + qd - 1, qd);
    }
    assert(k * qd == qd * k) by (nonlinear_arith);
}

proof fn lemma_ring_a(td: int, nd: int, sn: int, dd: int, dn: int, sd: int)
    ensures
        td * nd * (sn * dd - dn * sd) == sn * td * nd * dd - sd * (dn * (nd * td)),
{
    assert(td * nd * (sn * dd - dn * sd) == td * nd * (sn * dd) - td * nd * (dn * sd)) by {
        vstd::arithmetic::mul::lemma_mul_is_distributive_sub(td * nd, sn * dd, dn * sd);
    }
    assert(td * nd * (sn * dd) == sn * td * nd * dd) by (nonlinear_arith);
    assert(td * nd * (dn * sd) == sd * (dn * (nd * td))) by (nonlinear_arith);
}

proof fn lemma_ring_e(tn: int, sd: int, nd: int, sn: int, td: int, nn: int, dd: int)
    ensures
        (tn * sd * nd + sn * td * nd - nn * td * sd) * dd == sn * td * nd * dd - sd * ((nn * td
            - tn * nd) * dd),
{
    let p = tn * sd * nd;
    let q = sn * td * nd;
    let r = nn * td * sd;
    assert((p + q - r) * dd == p * dd + q * dd - r * dd) by (nonlinear_arith);
    assert(sd * ((nn * td - tn * nd) * dd) == r * dd - p * dd) by (nonlinear_arith)
        requires
            p == tn * sd * nd,
            r == nn * td * sd,
    ;
    assert(q * dd == sn * td * nd * dd);
}

proof fn lemma_ring_x(tn: int, sd: int, sn: int, td: int, xd: int, nd: int, nn: int)
    ensures
        (tn * sd + sn * td) * xd * nd - nn * xd * (td * sd) == xd * (tn * sd * nd + sn * td * nd
            - nn * td * sd),
{
    assert((tn * sd + sn * td) * xd * nd == xd * (tn * sd * nd) + xd * (sn * td * nd))
        by (nonlinear_arith);
    assert(nn * xd * (td * sd) == xd * (nn * td * sd)) by (nonlinear_arith);
    assert(xd * (tn * sd * nd + sn * td * nd - nn * td * sd) == xd * (tn * sd * nd) + xd * (sn
        * td * nd) - xd * (nn * td * sd)) by (nonlinear_arith);
}

/// A projected time is never before `now`.
pub proof fn lemma_project_not_before(time: Seconds, now: Seconds, period: Seconds)
    requires
        time.wf(),
        now.wf(),
        period.wf(),
        spec_project(time, now, period) is Some,
    ensures
        now.le(spec_project(time, now, period).unwrap()),
{
    let x = spec_project(time, now, period).unwrap();
    if time.lt(now) {
        let d = frac_sub(now, time).unwrap();
        crate::frac::lemma_reduce_same(now.num * time.den - time.num * now.den, now.den * time.den);
        let qn = d.num * period.den;
        let qd = d.den * period.num;
        let k = (qn + qd - 1) / qd;
        lemma_ceil(qn, qd);
        let st = frac_mul(period, Frac { num: k as i64, den: 1 }).unwrap();
        crate::frac::lemma_reduce_same(period.num * k, period.den * 1);
        assert(time.den * st.den > 0) by (nonlinear_arith)
            requires
                time.den > 0,
                st.den > 0,
        ;
        crate::frac::lemma_reduce_same(time.num * st.den + st.num * time.den, time.den * st.den);
        let (tn, td, sn, sd) = (time.num as int, time.den as int, st.num as int, st.den as int);
        let (nn, nd, dn, dd) = (now.num as int, now.den as int, d.num as int, d.den as int);
        let (pn, pd, xn, xd) = (period.num as int, period.den as int, x.num as int, x.den as int);
        // the step reaches at least as far as the gap: st >= d
        let a = sn * dd - dn * sd;
        assert(sn * pd == pn * k * sd);
        let lhs = sn * pd;
        let rhs = pn * k * sd;
        assert(lhs * dd == rhs * dd);
        assert(a * pd == lhs * dd - dn * pd * sd) by (nonlinear_arith)
            requires
                a == sn * dd - dn * sd,
                lhs == sn * pd,
        ;
        assert(rhs * dd == sd * (k * qd)) by (nonlinear_arith)
            requires
                rhs == pn * k * sd,
                qd == dd * pn,
        ;
        assert(dn * pd * sd == sd * qn) by (nonlinear_arith)
            requires
                qn == dn * pd,
        ;
        assert(a * pd == sd * (k * qd - qn)) by (nonlinear_arith)
            requires
                a * pd == lhs * dd - dn * pd * sd,
                lhs * dd == rhs * dd,
                rhs * dd == sd * (k * qd),
                dn * pd * sd == sd * qn,
        ;
        assert(a >= 0) by (nonlinear_arith)
            requires
                a * pd == sd * (k * qd - qn),
                k * qd >= qn,
                sd > 0,
                pd > 0,
        ;
        // now + (st - d) == time + st
        let e = tn * sd * nd + sn * td * nd - nn * td * sd;
        let gap = nn * td - tn * nd;
        assert(dn * (nd * td) == gap * dd);
        lemma_ring_a(td, nd, sn, dd, dn, sd);
        assert(sd * (dn * (nd * td)) == sd * (gap * dd));
        lemma_ring_e(tn, sd, nd, sn, td, nn, dd);
        assert(e * dd == td * nd * a);
        assert(e >= 0) by (nonlinear_arith)
            requires
                e * dd == td * nd * a,
                a >= 0,
                dd > 0,
                td > 0,
                nd > 0,
        ;
        let sum = tn * sd + sn * td;
        assert(xn * (td * sd) == sum * xd);
        assert((xn * nd - nn * xd) * (td * sd) == xn * (td * sd) * nd - nn * xd * (td * sd))
            by (nonlinear_arith);
        lemma_ring_x(tn, sd, sn, td, xd, nd, nn);
        assert(xn * (td * sd) * nd == sum * xd * nd);
        assert((xn * nd - nn * xd) * (td * sd) == xd * e);
        assert(xn * nd - nn * xd >= 0) by (nonlinear_arith)
            requires
                (xn * nd - nn * xd) * (td * sd) == xd * e,
                e >= 0,
                xd > 0,
                td * sd > 0,
        ;
    }
}

impl Scheduler {
    proof fn lemma_sound_not_before(self, e: Event, inst: Instrument, now: Seconds)
        requires
            self.looped,
            now.wf(),
            self.spec_sound(e, inst, now) is Some,
        ensures
            now.le(self.spec_sound(e, inst, now).unwrap().time),
    {
        let ts = self.time_signature;
        let t = spec_to_seconds(e.start, ts, self.bpm).unwrap();
        let period = spec_to_seconds(self.loop_time, ts, self.bpm).unwrap();
        lemma_project_not_before(t, now, period);
    }

    proof fn lemma_sounds_of_not_before(self, evs: Seq<Event>, inst: Instrument, now: Seconds)
        requires
            self.looped,
            now.wf(),
            self.spec_sounds_of(evs, inst, now) is Some,
        ensures
            forall|i: int|
                0 <= i < self.spec_sounds_of(evs, inst, now).unwrap().len() ==> now.le(
                    (#[trigger] self.spec_sounds_of(evs, inst, now).unwrap()[i]).time,
                ),
        decreases evs.len(),
    {
        if evs.len() > 0 {
            self.lemma_sounds_of_not_before(evs.drop_last(), inst, now);
            self.lemma_sound_not_before(evs.last(), inst, now);
        }
    }

    proof fn lemma_gather_not_before(
        self,
        tracks: Seq<(Track, Cursor)>,
        now: Seconds,
        end: Frac,
        looping: bool,
    )
        requires
            self.looped,
            now.wf(),
            self.spec_gather(tracks, now, end, looping) is Some,
        ensures
            forall|i: int|
                0 <= i < self.spec_gather(tracks, now, end, looping).unwrap().len() ==> now.le(
                    (#[trigger] self.spec_gather(tracks, now, end, looping).unwrap()[i]).time,
                ),
        decreases tracks.len(),
    {
        if tracks.len() > 0 {
            let (t, c) = tracks.last();
            self.lemma_gather_not_before(tracks.drop_last(), now, end, looping);
            self.lemma_sounds_of_not_before(self.spec_due(t.events@, c, end, looping), t.instrument, now);
            let a = self.spec_gather(tracks.drop_last(), now, end, looping).unwrap();
            let b = self.spec_sounds_of(self.spec_due(t.events@, c, end, looping), t.instrument, now).unwrap();
            let all = self.spec_gather(tracks, now, end, looping).unwrap();
            assert forall|i: int| 0 <= i < all.len() implies now.le((#[trigger] all[i]).time) by {
                if i < a.len() {
                    assert(all[i] == a[i]);
                } else {
                    assert(all[i] == b[i - a.len()]);
                }
            }
        }
    }
}

/// Sorting keeps every sound that is due no earlier than `now` so.
proof fn lemma_sort_not_before(s: Seq<ScheduledSound>, now: Seconds)
    requires
        forall|i: int| 0 <= i < s.len() ==> now.le((#[trigger] s[i]).time),
    ensures
        forall|i: int| 0 <= i < sort_by_time(s).len() ==> now.le((#[trigger] sort_by_time(s)[i]).time),
    decreases s.len(),
{
    if s.len() > 0 {
        lemma_sort_not_before(s.drop_last(), now);
        let p = sort_by_time(s.drop_last());
        let q = sort_by_time(s);
        let k = sound_insert_pos(p, s.last());
        lemma_sound_insert_pos_range(p, s.last());
        assert forall|i: int| 0 <= i < q.len() implies now.le((#[trigger] q[i]).time) by {
            if i < k {
                assert(q[i] == p[i]);
            } else if i > k {
                assert(q[i] == p[i - 1]);
            }
        }
    }
}

proof fn lemma_sound_insert_pos_range(s: Seq<ScheduledSound>, x: ScheduledSound)
    ensures
        0 <= sound_insert_pos(s, x) <= s.len(),
    decreases s.len(),
{
    if s.len() > 0 {
        lemma_sound_insert_pos_range(s.drop_last(), x);
    }
}

/// What a non-looping scheduler hands out for one track over consecutive ticks whose
/// windows end at `ends`: the first window starts at zero and each next one where the one
/// before it ended.
pub open spec fn windows(evs: Seq<Event>, ends: Seq<Frac>) -> Seq<Event>
    decreases ends.len(),
{
    if ends.len() == 0 {
        Seq::empty()
    } else {
        let lo = if ends.len() == 1 {
            Frac { num: 0, den: 1 }
        } else {
            ends[ends.len() - 2]
        };
        windows(evs, ends.drop_last()) + select(evs, lo, ends.last())
    }
}

proof fn lemma_le_lt(a: Frac, b: Frac, c: Frac)
    requires
        a.wf(),
        b.wf(),
        c.wf(),
        a.le(b),
        b.lt(c),
    ensures
        a.lt(c),
{
    assert(a.num * c.den * b.den < c.num * a.den * b.den) by (nonlinear_arith)
        requires
            a.num * b.den <= b.num * a.den,
            b.num * c.den < c.num * b.den,
            a.den > 0,
            b.den > 0,
            c.den > 0,
    ;
    assert(a.num * c.den < c.num * a.den) by (nonlinear_arith)
        requires
            a.num * c.den * b.den < c.num * a.den * b.den,
            b.den > 0,
    ;
}

proof fn lemma_lt_le(a: Frac, b: Frac, c: Frac)
    requires
        a.wf(),
        b.wf(),
        c.wf(),
        a.lt(b),
        b.le(c),
    ensures
        a.lt(c),
{
    assert(a.num * c.den * b.den < c.num * a.den * b.den) by (nonlinear_arith)
        requires
            a.num * b.den < b.num * a.den,
            b.num * c.den <= c.num * b.den,
            a.den > 0,
            b.den > 0,
            c.den > 0,
    ;
    assert(a.num * c.den < c.num * a.den) by (nonlinear_arith)
        requires
            a.num * c.den * b.den < c.num * a.den * b.den,
            b.den > 0,
    ;
}

proof fn lemma_select_empty_below(evs: Seq<Event>, b: Frac, c: Frac)
    requires
        forall|i: int| 0 <= i < evs.len() ==> (#[trigger] evs[i]).start.lt(b),
    ensures
        select(evs, b, c) == Seq::<Event>::empty(),
    decreases evs.len(),
{
    if evs.len() > 0 {
        lemma_select_empty_below(evs.drop_last(), b, c);
        assert(evs.last().start.lt(b));
    }
}

/// Two adjacent windows over a sorted track pick what their union picks.
proof fn lemma_select_join(evs: Seq<Event>, a: Frac, b: Frac, c: Frac)
    requires
        sorted_by_start(evs),
        all_wf(evs),
        a.wf(),
        b.wf(),
        c.wf(),
        a.le(b),
        b.le(c),
    ensures
        select(evs, a, b) + select(evs, b, c) == select(evs, a, c),
    decreases evs.len(),
{
    if evs.len() > 0 {
        let s = evs.drop_last();
        let x = evs.last();
        assert(sorted_by_start(s)) by {
            assert forall|i: int, j: int| 0 <= i < j < s.len() implies (#[trigger] s[i]).start.le(
                (#[trigger] s[j]).start,
            ) by {
                assert(s[i] == evs[i] && s[j] == evs[j]);
            }
        }
        assert(all_wf(s)) by {
            assert forall|i: int| 0 <= i < s.len() implies (#[trigger] s[i]).wf() by {
                assert(s[i] == evs[i]);
            }
        }
        assert(x.wf()) by {
            assert(evs[evs.len() - 1] == x);
        }
        lemma_select_join(s, a, b, c);
        let sab = select(s, a, b);
        let sbc = select(s, b, c);
        if a.le(x.start) && x.start.lt(b) {
            lemma_lt_le(x.start, b, c);
            assert forall|i: int| 0 <= i < s.len() implies (#[trigger] s[i]).start.lt(b) by {
                assert(s[i] == evs[i]);
                assert(evs[i].start.le(evs[evs.len() - 1].start));
                lemma_le_lt(s[i].start, x.start, b);
            }
            lemma_select_empty_below(s, b, c);
            assert(sab.push(x) + sbc =~= (sab + sbc).push(x));
        } else if b.le(x.start) && x.start.lt(c) {
            crate::composition::lemma_le_trans(a, b, x.start);
            assert(sab + sbc.push(x) =~= (sab + sbc).push(x));
        } else if !a.le(x.start) {
            assert(!b.le(x.start)) by {
                if b.le(x.start) {
                    crate::composition::lemma_le_trans(a, b, x.start);
                }
            }
        } else {
            assert(!x.start.lt(c)) by {
                if x.start.lt(c) {
                    assert(!x.start.lt(b));
                }
            }
        }
    }
}

proof fn lemma_select_all(evs: Seq<Event>, e: Frac)
    requires
        forall|i: int|
            0 <= i < evs.len() ==> (Frac { num: 0, den: 1 }).le((#[trigger] evs[i]).start)
                && evs[i].start.lt(e),
    ensures
        select(evs, Frac { num: 0, den: 1 }, e) == evs,
    decreases evs.len(),
{
    if evs.len() > 0 {
        lemma_select_all(evs.drop_last(), e);
        assert(evs.drop_last().push(evs.last()) =~= evs);
    }
}

proof fn lemma_windows_prefix(evs: Seq<Event>, ends: Seq<Frac>)
    requires
        sorted_by_start(evs),
        all_wf(evs),
        ends.len() > 0,
        forall|j: int| 0 <= j < ends.len() ==> (#[trigger] ends[j]).wf() && (Frac { num: 0, den: 1 }).le(ends[j]),
        forall|j: int| 0 < j < ends.len() ==> (#[trigger] ends[j - 1]).le(ends[j]),
    ensures
        windows(evs, ends) == select(evs, Frac { num: 0, den: 1 }, ends.last()),
    decreases ends.len(),
{
    let zero = Frac { num: 0, den: 1 };
    if ends.len() == 1 {
        assert(windows(evs, ends.drop_last()) == Seq::<Event>::empty());
        assert(Seq::<Event>::empty() + select(evs, zero, ends.last()) =~= select(evs, zero, ends.last()));
    } else {
        let prev = ends.drop_last();
        assert forall|j: int| 0 < j < prev.len() implies (#[trigger] prev[j - 1]).le(prev[j]) by {
            assert(prev[j - 1] == ends[j - 1] && prev[j] == ends[j]);
        }
        lemma_windows_prefix(evs, prev);
        let n = ends.len() as int;
        assert(ends[n - 2].le(ends[n - 1]));
        lemma_select_join(evs, zero, ends[n - 2], ends[n - 1]);
        assert(prev.last() == ends[n - 2]);
        assert(ends.last() == ends[n - 1]);
    }
}

/// Ticks of a non-looping scheduler whose windows follow each other from zero hand out
/// every event of a sorted track exactly once and in order of start, as soon as the last
/// window ends after the last start.
pub proof fn scheduler_completeness(evs: Seq<Event>, ends: Seq<Frac>)
    requires
        sorted_by_start(evs),
        all_wf(evs),
        ends.len() > 0,
        forall|j: int| 0 <= j < ends.len() ==> (#[trigger] ends[j]).wf() && (Frac { num: 0, den: 1 }).le(ends[j]),
        forall|j: int| 0 < j < ends.len() ==> (#[trigger] ends[j - 1]).le(ends[j]),
        forall|i: int|
            0 <= i < evs.len() ==> (Frac { num: 0, den: 1 }).le((#[trigger] evs[i]).start)
                && evs[i].start.lt(ends.last()),
    ensures
        windows(evs, ends) == evs,
{
    lemma_windows_prefix(evs, ends);
    lemma_select_all(evs, ends.last());
}

/// A sound as a player takes it: when it starts and how long it lasts, in seconds.
#[derive(Clone, Copy, Debug, PartialEq, Eq, Structural)]
pub struct AtomicSound {
    pub start: Seconds,
    pub duration: Seconds,
    pub volume: Volume,
    pub pitch: Pitch,
    pub instrument: Instrument,
}

impl ScheduledSound {
    pub fn to_atomic(self) -> (r: AtomicSound)
        ensures
            r == (AtomicSound {
                start: self.time,
                duration: self.duration,
                volume: self.volume,
                pitch: self.pitch,
                instrument: self.instrument,
            }),
    {
        AtomicSound {
            start: self.time,
            duration: self.duration,
            volume: self.volume,
            pitch: self.pitch,
            instrument: self.instrument,
        }
    }
}

} // verus!
