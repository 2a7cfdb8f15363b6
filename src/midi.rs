//! What the MIDI output sends for a sound: the port and channel of its instrument, and the
//! Note On and Note Off messages.
use crate::composition::{midi_of, Instrument, Volume};
use crate::scheduler::AtomicSound;
use midly::live::LiveEvent;
use midly::MidiMessage;
use vstd::prelude::*;

verus! {

/// Relies on midly's `LiveEvent::write` for a Note On: the status byte `0x9` in the high
/// nibble with the channel in the low one, then the key and the velocity. Writing into a
/// `Vec` cannot fail.
#[verifier::external_body]
fn note_on_bytes(channel: u8, key: u8, vel: u8) -> (r: Vec<u8>)
    requires
        channel < 16,
        key < 128,
        vel < 128,
    ensures
        r@ == seq![(0x90 + channel) as u8, key, vel],
{
    let message = MidiMessage::NoteOn { key: key.into(), vel: vel.into() };
    let mut buf = Vec::new();
    let _ = LiveEvent::Midi { channel: channel.into(), message }.write(&mut buf);
    buf
}

/// Relies on midly's `LiveEvent::write` for a Note Off: the status byte `0x8` in the high
/// nibble with the channel in the low one, then the key and the velocity. Writing into a
/// `Vec` cannot fail.
#[verifier::external_body]
fn note_off_bytes(channel: u8, key: u8, vel: u8) -> (r: Vec<u8>)
    requires
        channel < 16,
        key < 128,
        vel < 128,
    ensures
        r@ == seq![(0x80 + channel) as u8, key, vel],
{
    let message = MidiMessage::NoteOff { key: key.into(), vel: vel.into() };
    let mut buf = Vec::new();
    let _ = LiveEvent::Midi { channel: channel.into(), message }.write(&mut buf);
    buf
}

/// The live MIDI message that starts (`on`) or stops a note.
pub fn note_message(channel: u8, key: u8, vel: u8, on: bool) -> (r: Vec<u8>)
    requires
        channel < 16,
        key < 128,
        vel < 128,
    ensures
        r@ == seq![(if on { 0x90 + channel } else { 0x80 + channel }) as u8, key, vel],
{
    if on {
        note_on_bytes(channel, key, vel)
    } else {
        note_off_bytes(channel, key, vel)
    }
}

/// `round(volume / 100 * 127)`, in integers.
pub fn velocity(volume: Volume) -> (r: u8)
    requires
        volume.wf(),
    ensures
        r == (127 * volume.0 + 50) / 100,
        r < 128,
{
    ((127 * volume.0 as u32 + 50) / 100) as u8
}

#[derive(Debug)]
pub enum PlayerError {
    /// No MIDI port and channel are known for this instrument.
    UnknownInstrument(Instrument),
    /// The channel given for this instrument is not one of the sixteen.
    InvalidChannel(Instrument),
    /// The pitch has no MIDI note number.
    NoteOutOfRange(i64),
}

/// The port and channel of the first route for `inst`.
pub open spec fn spec_route(routes: Seq<(Instrument, u8, u8)>, inst: Instrument) -> Option<(u8, u8)>
    decreases routes.len(),
{
    if routes.len() == 0 {
        None
    } else if routes[0].0 == inst {
        Some((routes[0].1, routes[0].2))
    } else {
        spec_route(routes.drop_first(), inst)
    }
}

/// The port and channel of the first route for `inst`, or `None` when there is none.
pub fn route(routes: &Vec<(Instrument, u8, u8)>, inst: Instrument) -> (r: Option<(u8, u8)>)
    ensures
        r == spec_route(routes@, inst),
{
    let mut i: usize = 0;
    assert(routes@.subrange(0, routes@.len() as int) =~= routes@);
    while i < routes.len()
        invariant
            i <= routes@.len(),
            spec_route(routes@, inst) == spec_route(routes@.subrange(i as int, routes@.len() as int), inst),
        decreases routes@.len() - i,
    {
        let ghost rest = routes@.subrange(i as int, routes@.len() as int);
        assert(rest.drop_first() =~= routes@.subrange(i + 1, routes@.len() as int));
        if routes[i].0 == inst {
            return Some((routes[i].1, routes[i].2));
        }
        i += 1;
    }
    None
}

/// What a MIDI player sends for `sound`: the port, the Note On message and the Note Off
/// message; or why it cannot play it.
pub fn note_messages(routes: &Vec<(Instrument, u8, u8)>, sound: &AtomicSound) -> (r: Result<
    (u8, Vec<u8>, Vec<u8>),
    PlayerError,
>)
    requires
        sound.volume.wf(),
    ensures
        match spec_route(routes@, sound.instrument) {
            None => r is Err && r->Err_0 == PlayerError::UnknownInstrument(sound.instrument),
            Some((port, channel)) => if channel >= 16 {
                r is Err && r->Err_0 == PlayerError::InvalidChannel(sound.instrument)
            } else if midi_of(sound.pitch) < 0 || midi_of(sound.pitch) >= 128 {
                r is Err && r->Err_0 == PlayerError::NoteOutOfRange(midi_of(sound.pitch) as i64)
            } else {
                let key = midi_of(sound.pitch) as u8;
                let vel = ((127 * sound.volume.0 + 50) / 100) as u8;
                &&& r is Ok
                &&& r->Ok_0.0 == port
                &&& r->Ok_0.1@ == seq![(0x90 + channel) as u8, key, vel]
                &&& r->Ok_0.2@ == seq![(0x80 + channel) as u8, key, vel]
            },
        },
{
    let (port, channel) = match route(routes, sound.instrument) {
        Some(x) => x,
        None => {
            return Err(PlayerError::UnknownInstrument(sound.instrument));
        },
    };
    if channel >= 16 {
        return Err(PlayerError::InvalidChannel(sound.instrument));
    }
    let note = sound.pitch.to_midi_note();
    if note < 0 || note >= 128 {
        return Err(PlayerError::NoteOutOfRange(note));
    }
    let vel = velocity(sound.volume);
    let on = note_message(channel, note as u8, vel, true);
    let off = note_message(channel, note as u8, vel, false);
    Ok((port, on, off))
}

} // verus!
