use music_turtles::cfg::{CompositionError, Grammar, MusicString};
use music_turtles::composition::{Composition, Instrument, Pitch, TrackId};
use music_turtles::frac::Frac;
use music_turtles::time::{split_measures, TimeSignature};

fn compose(text: &str) -> Result<Composition, CompositionError> {
    MusicString::parse(text).unwrap().compose(TimeSignature::common())
}

fn at(t: Frac) -> (i64, Frac) {
    split_measures(t, TimeSignature::common()).unwrap()
}

#[test]
fn simple_sequence() {
    let c = compose(":4c<1> :4d :4e").unwrap();
    assert_eq!(c.tracks.len(), 1);
    let track = &c.tracks[0];
    assert_eq!(track.instrument, Instrument::SineWave);
    assert_eq!(track.identifier, TrackId::Instrument(Instrument::SineWave));
    let starts: Vec<(i64, Frac)> = track.events.iter().map(|e| at(e.start)).collect();
    assert_eq!(
        starts,
        vec![(0, Frac::new(0, 1)), (0, Frac::new(1, 4)), (0, Frac::new(2, 4))]
    );
    for e in &track.events {
        assert_eq!(e.duration, Frac::new(1, 4));
        assert_eq!(e.volume.0, 50);
    }
    let pitches: Vec<Pitch> = track.events.iter().map(|e| e.pitch).collect();
    assert_eq!(pitches, vec![Pitch(4, 3), Pitch(4, 5), Pitch(4, 7)]);
}

#[test]
fn repeat_three_times() {
    let c = compose("[x3][:4c<1>]").unwrap();
    assert_eq!(c.tracks.len(), 1);
    let starts: Vec<(i64, Frac)> = c.tracks[0].events.iter().map(|e| at(e.start)).collect();
    assert_eq!(
        starts,
        vec![(0, Frac::new(0, 4)), (0, Frac::new(1, 4)), (0, Frac::new(2, 4))]
    );
    assert!(c.tracks[0].events.iter().all(|e| e.pitch == Pitch(4, 3)));
}

#[test]
fn split_plays_together() {
    let c = compose("{:4c<1>|:4e<1>}").unwrap();
    assert_eq!(c.tracks.len(), 1);
    let events = &c.tracks[0].events;
    assert_eq!(events.len(), 2);
    assert!(events.iter().all(|e| e.start == Frac::new(0, 1) && e.duration == Frac::new(1, 4)));
    assert_eq!(events[0].pitch, Pitch(4, 3));
    assert_eq!(events[1].pitch, Pitch(4, 7));
}

#[test]
fn split_mismatch() {
    match compose("{:4c<1>|:4e<2>}") {
        Err(CompositionError::NonUniformSplit { durations }) => {
            assert_eq!(durations, vec![Frac::new(1, 4), Frac::new(1, 2)]);
        }
        _ => panic!("expected a non-uniform split"),
    }
}

#[test]
fn transpose_two() {
    let c = compose("[T2][:4c<1>]").unwrap();
    let e = c.tracks[0].events[0];
    assert_eq!(e.pitch, Pitch(4, 5));
    assert_eq!(e.pitch.to_midi_note(), Pitch(4, 3).to_midi_note() + 2);
}

#[test]
fn transpose_carries_octave() {
    let c = compose("[T-5][:4c<1>]").unwrap();
    assert_eq!(c.tracks[0].events[0].pitch, Pitch(3, 10));
}

#[test]
fn compression_halves() {
    let c = compose("[>>2][:4c<1> :4c<1>]").unwrap();
    let events = &c.tracks[0].events;
    assert_eq!(events.len(), 2);
    assert_eq!(events[0].start, Frac::new(0, 1));
    assert_eq!(events[1].start, Frac::new(1, 8));
    assert!(events.iter().all(|e| e.duration == Frac::new(1, 8)));
}

#[test]
fn repeat_after_cursor_and_duration() {
    // the repeat starts after the first note and the note after it follows all copies
    let c = compose(":4c<1> [x2][:4d<1>] :4e<1>").unwrap();
    let starts: Vec<Frac> = c.tracks[0].events.iter().map(|e| e.start).collect();
    assert_eq!(
        starts,
        vec![Frac::new(0, 1), Frac::new(1, 4), Frac::new(1, 2), Frac::new(3, 4)]
    );
}

#[test]
fn grammar_expansion() {
    let g = Grammar::parse("start S\nS = :4c<1> B\nB = :4d<1>").unwrap();
    let expanded = g.expand().unwrap();
    let a = expanded.compose(TimeSignature::common()).unwrap();
    let b = compose(":4c<1> :4d<1>").unwrap();
    assert_eq!(a, b);
}

#[test]
fn grammar_undefined_non_terminal() {
    let g = Grammar::parse("start S\nS = :4c<1> Missing").unwrap();
    assert!(g.expand().is_err());
}

#[test]
fn grammar_recursion_is_cut() {
    let g = Grammar::parse("start S\nS = :4c<1> S").unwrap();
    assert!(g.expand().is_err());
}

#[test]
fn grammar_without_start() {
    assert!(Grammar::parse("S = :4c<1>").is_err());
    assert!(Grammar::parse("// only a comment\n\n").is_err());
}

#[test]
fn instruments_get_own_tracks_sorted() {
    let c = compose(":4c<1> ::i=piano :4d<1> ::i=sine :4e<1>").unwrap();
    assert_eq!(c.tracks.len(), 2);
    assert_eq!(c.tracks[0].instrument, Instrument::SineWave);
    assert_eq!(c.tracks[1].instrument, Instrument::Piano);
    assert_eq!(c.tracks[0].events.len(), 2);
    assert_eq!(c.tracks[1].events[0].start, Frac::new(1, 4));
}

#[test]
fn volume_applies_to_later_notes() {
    let c = compose("::v=80 :4c<1>").unwrap();
    assert_eq!(c.tracks[0].events[0].volume.0, 80);
    assert!(MusicString::parse("::v=101 :4c").is_err());
}

#[test]
fn events_sorted_by_start() {
    let c = compose("{[x2][:4c<1>] | :4e<1/2>} :4f<1>").unwrap();
    let events = &c.tracks[0].events;
    for w in events.windows(2) {
        assert!(w[0].start.less_eq(&w[1].start));
    }
}

#[test]
fn empty_string_composes_to_nothing() {
    let c = compose("").unwrap();
    assert!(c.tracks.is_empty());
}

#[test]
fn rest_advances_time() {
    let c = compose(":_<2> :4c").unwrap();
    assert_eq!(c.tracks[0].events[0].start, Frac::new(1, 2));
}

#[test]
fn unbalanced_brackets_fail() {
    assert!(MusicString::parse("{:4c<1>").is_err());
    assert!(MusicString::parse("[x2][:4c").is_err());
    assert!(MusicString::parse("::i=kazoo").is_err());
}

#[test]
fn composing_twice_gives_the_same() {
    let text = "{[x2][:4c<1>] | :4e<1/2>} ::i=piano [T3][:4f<1>]";
    let ms = MusicString::parse(text).unwrap();
    let a = ms.compose(TimeSignature::common()).unwrap();
    let b = ms.compose(TimeSignature::common()).unwrap();
    assert_eq!(a, b);
}

#[test]
fn transpose_out_of_range_overflows() {
    match compose("[T9223372036854775807][:4c<1>]") {
        Err(CompositionError::Overflow) => {}
        other => panic!("expected an overflow, got {other:?}"),
    }
}

#[test]
fn repeat_duration_is_multiplied() {
    // the note after the repeat starts after three copies of a half note
    let c = compose("[x3][:4c<1/2>] :4d<1>").unwrap();
    let last = c.tracks[0].events.last().unwrap();
    assert_eq!(last.start, Frac::new(3, 2));
}

#[test]
fn compression_keeps_pitches() {
    let c = compose("[>>3][:4c<1> :4e<1>]").unwrap();
    let events = &c.tracks[0].events;
    assert_eq!(events[0].pitch, Pitch(4, 3));
    assert_eq!(events[1].pitch, Pitch(4, 7));
    assert_eq!(events[1].start, Frac::new(1, 12));
    assert_eq!(events[1].duration, Frac::new(1, 12));
}
