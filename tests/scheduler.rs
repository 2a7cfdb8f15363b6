use music_turtles::composition::{Composition, Event, Instrument, Pitch, Track, TrackId, Volume};
use music_turtles::frac::Frac;
use music_turtles::scheduler::{ScheduledSound, Scheduler, SchedulerError};
use music_turtles::time::{measures, MusicTime, Seconds, TimeSignature};

fn comp_template(events: Vec<Event>) -> Composition {
    Composition {
        tracks: vec![Track {
            identifier: TrackId::Custom(0),
            instrument: Instrument::SineWave,
            events,
        }],
        time_signature: TimeSignature::common(),
    }
}

fn event(start: MusicTime, pitch: Pitch) -> Event {
    Event { start, duration: Frac::whole(1), volume: Volume(100), pitch }
}

fn simulate_play_collect_events(
    mut scheduler: Scheduler,
    ticks: u64,
    interval: Seconds,
) -> Vec<ScheduledSound> {
    let mut emitted_sounds = vec![];
    for i in 0..ticks {
        let elapsed = Frac::new(i as i64 * interval.num, interval.den);
        let sounds = scheduler.get_next_events_and_update(elapsed).unwrap();
        emitted_sounds.extend(sounds);
    }
    emitted_sounds
}

fn scheduler_at_120() -> Scheduler {
    Scheduler {
        bpm: Frac::whole(120),
        time_signature: TimeSignature::common(),
        tracks: vec![],
        lookahead: measures(1, TimeSignature::common()),
        looped: false,
        loop_time: measures(4, TimeSignature::common()),
    }
}

#[test]
fn test_scheduler_1() {
    let comp = comp_template(vec![
        event(Frac::whole(0), Pitch(4, 0)),
        event(Frac::whole(1), Pitch(4, 1)),
        event(Frac::whole(2), Pitch(4, 2)),
        event(Frac::whole(3), Pitch(4, 3)),
    ]);
    let mut scheduler = scheduler_at_120();
    scheduler.set_composition(comp);
    // five seconds in ticks of 0.05 s
    let sounds = simulate_play_collect_events(scheduler, 100, Frac::new(1, 20));
    assert_eq!(sounds.len(), 4);
    assert_eq!(
        sounds.iter().map(|s| s.pitch).collect::<Vec<_>>(),
        vec![Pitch(4, 0), Pitch(4, 1), Pitch(4, 2), Pitch(4, 3)]
    );
}

#[test]
fn test_scheduler_2() {
    let comp = comp_template(vec![
        event(Frac::whole(0), Pitch(4, 0)),
        event(Frac::whole(3), Pitch(4, 3)),
        event(Frac::whole(2), Pitch(4, 2)),
        event(Frac::whole(1), Pitch(4, 1)),
    ]);
    let mut scheduler = scheduler_at_120();
    scheduler.set_composition(comp);
    let sounds = simulate_play_collect_events(scheduler, 100, Frac::new(1, 20));
    assert_eq!(sounds.len(), 4);
    assert_eq!(
        sounds.iter().map(|s| s.pitch).collect::<Vec<_>>(),
        vec![Pitch(4, 0), Pitch(4, 1), Pitch(4, 2), Pitch(4, 3)]
    );
}

#[test]
fn seconds_and_release_gap() {
    let mut scheduler = scheduler_at_120();
    scheduler.set_composition(comp_template(vec![Event {
        start: Frac::new(1, 4),
        duration: Frac::new(1, 4),
        volume: Volume(50),
        pitch: Pitch(4, 3),
    }]));
    let sounds = scheduler.get_next_events_and_update(Frac::whole(0)).unwrap();
    assert_eq!(sounds.len(), 1);
    // a quarter note at 120 beats per minute lasts half a second
    assert_eq!(sounds[0].time, Frac::new(1, 2));
    assert_eq!(sounds[0].duration, Frac::new(9, 20));
}

#[test]
fn ended_after_last_event() {
    let mut scheduler = scheduler_at_120();
    scheduler.set_composition(comp_template(vec![event(Frac::whole(0), Pitch(4, 0))]));
    assert!(!scheduler.ended());
    scheduler.get_next_events_and_update(Frac::whole(0)).unwrap();
    assert!(!scheduler.ended());
    scheduler.get_next_events_and_update(Frac::whole(2)).unwrap();
    assert!(scheduler.ended());
}

#[test]
fn looped_never_ends_and_bad_loop_is_refused() {
    let ts = TimeSignature::common();
    let s = Scheduler::new(Frac::whole(120), ts, measures(1, ts), true, measures(1, ts)).unwrap();
    assert!(!s.ended());
    match Scheduler::new(Frac::whole(120), ts, measures(1, ts), true, Frac::whole(0)) {
        Err(SchedulerError::InvalidLoop) => {}
        _ => panic!("a loop of length zero must be refused"),
    }
}

fn looped_quarters() -> Scheduler {
    let ts = TimeSignature::common();
    let mut s = Scheduler::new(Frac::whole(120), ts, Frac::new(1, 4), true, measures(1, ts)).unwrap();
    s.set_composition(comp_template(
        (0..4)
            .map(|k| Event {
                start: Frac::new(k, 4),
                duration: Frac::new(1, 4),
                volume: Volume(50),
                pitch: Pitch(4, k as u8),
            })
            .collect(),
    ));
    s
}

#[test]
fn scheduler_looping() {
    // one measure lasts two seconds; a tick shortly before the loop's end sees the first
    // event of the next pass at the loop length, not at zero
    let mut s = looped_quarters();
    s.get_next_events_and_update(Frac::new(15, 10)).unwrap();
    let sounds = s.get_next_events_and_update(Frac::new(19, 10)).unwrap();
    let first = sounds.iter().find(|x| x.pitch == Pitch(4, 0)).unwrap();
    assert_eq!(first.time, Frac::whole(2));
}

#[test]
fn looped_sounds_never_lie_in_the_past() {
    let mut s = looped_quarters();
    for k in 0..40 {
        let now = Frac::new(k, 10);
        for sound in s.get_next_events_and_update(now).unwrap() {
            assert!(now.less_eq(&sound.time));
        }
    }
}

#[test]
fn unsorted_track_ends_after_its_latest_event() {
    let mut scheduler = scheduler_at_120();
    scheduler.set_composition(comp_template(vec![
        event(Frac::whole(0), Pitch(4, 0)),
        event(Frac::whole(3), Pitch(4, 3)),
        event(Frac::whole(1), Pitch(4, 1)),
    ]));
    assert!(scheduler.is_valid());
    // after the event at 1 has ended, the one at 3 is still due
    scheduler.get_next_events_and_update(Frac::whole(4)).unwrap();
    assert!(!scheduler.ended());
    scheduler.get_next_events_and_update(Frac::whole(8)).unwrap();
    assert!(scheduler.ended());
}
