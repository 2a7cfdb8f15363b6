use music_turtles::composition::{Instrument, Pitch, Volume};
use music_turtles::frac::Frac;
use music_turtles::midi::{note_message, note_messages, velocity, PlayerError};
use music_turtles::scheduler::AtomicSound;

fn sound(instrument: Instrument, pitch: Pitch, volume: u8) -> AtomicSound {
    AtomicSound {
        start: Frac::whole(0),
        duration: Frac::new(1, 2),
        volume: Volume(volume),
        pitch,
        instrument,
    }
}

#[test]
fn note_on_and_off_bytes() {
    assert_eq!(note_message(3, 60, 100, true), vec![0x93, 60, 100]);
    assert_eq!(note_message(0, 61, 0, false), vec![0x80, 61, 0]);
    assert_eq!(note_message(15, 127, 127, true), vec![0x9f, 127, 127]);
}

#[test]
fn velocity_rounds() {
    assert_eq!(velocity(Volume(100)), 127);
    assert_eq!(velocity(Volume(50)), 64);
    assert_eq!(velocity(Volume(0)), 0);
}

#[test]
fn messages_for_a_sound() {
    let routes = vec![(Instrument::Piano, 1, 2), (Instrument::SineWave, 0, 9)];
    let (port, on, off) = note_messages(&routes, &sound(Instrument::Piano, Pitch(4, 0), 100)).unwrap();
    assert_eq!(port, 1);
    assert_eq!(on, vec![0x92, 60, 127]);
    assert_eq!(off, vec![0x82, 60, 127]);
}

#[test]
fn unknown_instrument_is_refused() {
    let routes = vec![(Instrument::Piano, 1, 2)];
    match note_messages(&routes, &sound(Instrument::Organ, Pitch(4, 0), 50)) {
        Err(PlayerError::UnknownInstrument(Instrument::Organ)) => {}
        other => panic!("expected an unknown instrument, got {other:?}"),
    }
    let bad_channel = vec![(Instrument::Organ, 0, 16)];
    assert!(matches!(
        note_messages(&bad_channel, &sound(Instrument::Organ, Pitch(4, 0), 50)),
        Err(PlayerError::InvalidChannel(Instrument::Organ))
    ));
    assert!(matches!(
        note_messages(&routes, &sound(Instrument::Piano, Pitch(20, 0), 50)),
        Err(PlayerError::NoteOutOfRange(_))
    ));
}
