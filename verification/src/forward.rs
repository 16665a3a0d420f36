//! The forward translation: a parsed SMF becomes a beat-timed MTXT record
//! stream.
//!
//! Each track is scanned once: note-on and note-off events are paired per
//! `(channel, key)`, channel-voice events become controller and voice
//! records, and meta events become global or channel-scoped annotations.
//! The merged events are sorted by tick, ticks become beats through the
//! pulses-per-quarter resolution, and a final stable sort puts the file
//! prologue before the timed records.

use vstd::prelude::*;

use crate::beat_time::BeatTime;
use crate::errors::MtxtError;
use crate::escape::{escape_string, spec_escape};
use crate::names::{midi_cc_to_name, midi_key_signature_to_string, spec_cc_name,
    spec_key_signature_text};
use crate::notes::{midi_key_to_note, spec_note_of_key, Note, NoteTarget};
use crate::ratio::Ratio;
use crate::records::{
    spec_record_model, spec_records_model, MtxtFile, MtxtRecord, NoteTargetModel, RecordModel,
    TimeSignature, Version,
};
use crate::smf::{
    ChannelMessage, SmfData, SmfEventKind, SmfFormat, SmfMetaMessage, SmfTiming, SmfTrackEvent,
};
use crate::text::{
    bytes_to_hex, push_char, push_decimal_u64, spec_bytes_hex, spec_byte_hex, spec_nat_digits,
    u64_to_string,
};

verus! {

/// The fallback resolution when the timing is SMPTE timecode or degenerate.
pub const FALLBACK_PPQ: u16 = 480;

/// One event placed on the tick timeline: a paired note, or any other
/// record at a single tick.
pub enum TickEvent {
    Note { start_tick: u64, end_tick: u64, note: Note, velocity: u8, off_velocity: u8, channel: u16 },
    Other { tick: u64, record: MtxtRecord },
}

/// The model of a tick event.
pub enum TickEventModel {
    Note { start_tick: u64, end_tick: u64, note: Note, velocity: u8, off_velocity: u8, channel: u16 },
    Other { tick: u64, record: RecordModel },
}

/// The model of one tick event.
pub open spec fn spec_tick_event_model(e: TickEvent) -> TickEventModel {
    match e {
        TickEvent::Note { start_tick, end_tick, note, velocity, off_velocity, channel } => {
            TickEventModel::Note { start_tick, end_tick, note, velocity, off_velocity, channel }
        },
        TickEvent::Other { tick, record } => TickEventModel::Other {
            tick,
            record: spec_record_model(record),
        },
    }
}

/// The model of a tick event list.
pub open spec fn spec_tick_events_model(s: Seq<TickEvent>) -> Seq<TickEventModel> {
    s.map_values(|e: TickEvent| spec_tick_event_model(e))
}

/// One open note awaiting its note-off: the combined `(channel, key)` slot,
/// the tick it started at, and its raw velocity.
#[derive(Debug, Clone, Copy, PartialEq, Eq, Structural)]
pub struct OpenNote {
    pub slot: u16,
    pub start_tick: u64,
    pub velocity: u8,
}

/// The combined open-note slot of a channel and key.
pub open spec fn spec_slot(channel: u8, key: u8) -> u16 {
    (channel * 128 + key) as u16
}

/// The first open-note entry for a slot, or -1.
pub open spec fn spec_open_find(open: Seq<OpenNote>, slot: u16) -> int
    decreases open.len(),
{
    if open.len() == 0 {
        -1
    } else if open[0].slot == slot {
        0
    } else {
        let r = spec_open_find(open.drop_first(), slot);
        if r < 0 {
            -1
        } else {
            1 + r
        }
    }
}

/// Characterizes `spec_open_find`: the first entry with the slot, or -1.
pub proof fn lemma_open_find(open: Seq<OpenNote>, slot: u16)
    ensures
        spec_open_find(open, slot) >= 0 ==> {
            &&& spec_open_find(open, slot) < open.len()
            &&& open[spec_open_find(open, slot)].slot == slot
            &&& forall|j: int| 0 <= j < spec_open_find(open, slot) ==> (#[trigger] open[j]).slot != slot
        },
        spec_open_find(open, slot) < 0 ==> spec_open_find(open, slot) == -1 && forall|j: int|
            0 <= j < open.len() ==> (#[trigger] open[j]).slot != slot,
    decreases open.len(),
{
    if open.len() > 0 && open[0].slot != slot {
        lemma_open_find(open.drop_first(), slot);
        let t = open.drop_first();
        let r = spec_open_find(t, slot);
        if r >= 0 {
            assert(open[1 + r] == t[r]);
            assert forall|j: int| 0 <= j < 1 + r implies (#[trigger] open[j]).slot != slot by {
                if j >= 1 {
                    assert(open[j] == t[j - 1]);
                }
            }
        } else {
            assert forall|j: int| 0 <= j < open.len() implies (#[trigger] open[j]).slot != slot by {
                if j >= 1 {
                    assert(open[j] == t[j - 1]);
                }
            }
        }
    }
}

/// Closes the open note in `slot` at `tick`, emitting the paired note; a
/// note-off with no open note is dropped.
pub open spec fn spec_close_note(
    open: Seq<OpenNote>,
    out: Seq<TickEventModel>,
    channel: u8,
    key: u8,
    tick: u64,
    off_velocity: u8,
) -> (Seq<OpenNote>, Seq<TickEventModel>) {
    let slot = spec_slot(channel, key);
    let idx = spec_open_find(open, slot);
    if idx >= 0 {
        (
            open.remove(idx),
            out.push(
                TickEventModel::Note {
                    start_tick: open[idx].start_tick,
                    end_tick: tick,
                    note: spec_note_of_key(key),
                    velocity: open[idx].velocity,
                    off_velocity,
                    channel: channel as u16,
                },
            ),
        )
    } else {
        (open, out)
    }
}

/// A control-change record at a tick (time is assigned later).
pub open spec fn spec_cc_record(controller: Seq<char>, value: Ratio, channel: u8) -> RecordModel {
    RecordModel::ControlChange {
        time: BeatTime { nanos: 0 },
        note: None,
        controller,
        value,
        channel: Some(channel as u16),
        transition_curve: None,
        transition_time: None,
        transition_interval: None,
    }
}

/// One channel-voice message's effect on the open notes and the emitted
/// tick events: note-ons open (or re-open) a slot, note-offs and silent
/// note-ons close it, and the remaining messages each emit one record.
pub open spec fn spec_midi_step(
    open: Seq<OpenNote>,
    out: Seq<TickEventModel>,
    channel: u8,
    message: ChannelMessage,
    tick: u64,
) -> (Seq<OpenNote>, Seq<TickEventModel>) {
    match message {
        ChannelMessage::NoteOn { key, vel } => {
            if vel > 0 {
                let slot = spec_slot(channel, key);
                let idx = spec_open_find(open, slot);
                let entry = OpenNote { slot, start_tick: tick, velocity: vel };
                if idx >= 0 {
                    (open.update(idx, entry), out)
                } else {
                    (open.push(entry), out)
                }
            } else {
                spec_close_note(open, out, channel, key, tick, 0)
            }
        },
        ChannelMessage::NoteOff { key, vel } => spec_close_note(open, out, channel, key, tick, vel),
        ChannelMessage::Controller { controller, value } => (
            open,
            out.push(
                TickEventModel::Other {
                    tick,
                    record: spec_cc_record(
                        spec_cc_name(controller),
                        Ratio { num: value as i64, den: 127 },
                        channel,
                    ),
                },
            ),
        ),
        ChannelMessage::ProgramChange { program } => (
            open,
            out.push(
                TickEventModel::Other {
                    tick,
                    record: RecordModel::Voice {
                        time: BeatTime { nanos: 0 },
                        voices: seq![spec_nat_digits(program as nat)],
                        channel: Some(channel as u16),
                    },
                },
            ),
        ),
        ChannelMessage::PitchBend { bend } => (
            open,
            out.push(
                TickEventModel::Other {
                    tick,
                    record: spec_cc_record(
                        "pitch"@,
                        Ratio { num: ((bend as int - 8192) * 12) as i64, den: 8192 },
                        channel,
                    ),
                },
            ),
        ),
        ChannelMessage::Aftertouch { key, vel } => (
            open,
            out.push(
                TickEventModel::Other {
                    tick,
                    record: spec_cc_record(
                        "aftertouch"@,
                        Ratio { num: vel as i64, den: 127 },
                        channel,
                    ),
                },
            ),
        ),
        ChannelMessage::ChannelAftertouch { vel } => (
            open,
            out.push(
                TickEventModel::Other {
                    tick,
                    record: spec_cc_record(
                        "aftertouch"@,
                        Ratio { num: vel as i64, den: 127 },
                        channel,
                    ),
                },
            ),
        ),
    }
}

/// The text a byte payload denotes, decoded leniently as UTF-8.
pub uninterp spec fn utf8_lossy_of(bytes: Seq<u8>) -> Seq<char>;

/// Relies on String::from_utf8_lossy: the lenient UTF-8 decoding of the
/// bytes, a pure function of the bytes alone.
#[verifier::external_body]
pub fn bytes_to_text(b: &Vec<u8>) -> (r: String)
    ensures
        r@ == utf8_lossy_of(b@),
{
    String::from_utf8_lossy(b).into_owned()
}

/// The escaped text of a meta payload.
pub open spec fn spec_meta_text(bytes: Seq<u8>) -> Seq<char> {
    spec_escape(utf8_lossy_of(bytes))
}

/// The SMPTE offset as text, `hour:minute:second:frame:subframe`.
pub open spec fn spec_smpte_text(s: crate::smf::SmpteOffsetData) -> Seq<char> {
    spec_nat_digits(s.hour as nat) + seq![':'] + spec_nat_digits(s.minute as nat) + seq![':']
        + spec_nat_digits(s.second as nat) + seq![':'] + spec_nat_digits(s.frame as nat)
        + seq![':'] + spec_nat_digits(s.subframe as nat)
}

/// A channel-scoped meta record at the placeholder time.
pub open spec fn spec_meta_rec(
    channel: Option<u16>,
    meta_type: Seq<char>,
    value: Seq<char>,
) -> RecordModel {
    RecordModel::Meta { time: Some(BeatTime { nanos: 0 }), channel, meta_type, value }
}

/// The record a meta message becomes, if any: tempo and time signature
/// become their own records; text-bearing messages become global or
/// channel-scoped annotations by the table the forward translation uses;
/// an end-of-track is dropped.
pub open spec fn spec_meta_record(
    msg: SmfMetaMessage,
    current_tick: u64,
    is_first_track: bool,
    track_channel: Option<u8>,
) -> Option<RecordModel> {
    let tc16 = match track_channel {
        Some(c) => Some(c as u16),
        None => None,
    };
    match msg {
        SmfMetaMessage::Tempo(us) => Some(
            RecordModel::Tempo {
                time: BeatTime { nanos: 0 },
                bpm: Ratio { num: 60_000_000, den: (if us >= 1 { us } else { 1 }) as u64 },
                transition_curve: None,
                transition_time: None,
                transition_interval: None,
            },
        ),
        SmfMetaMessage::TimeSignature(num, den, clocks, thirty_seconds) => Some(
            RecordModel::TimeSignature {
                time: BeatTime { nanos: 0 },
                signature: TimeSignature { numerator: num, denominator: (1u8 << den) as u8 },
            },
        ),
        SmfMetaMessage::TrackName(text) => {
            if track_channel is None {
                if is_first_track {
                    Some(
                        RecordModel::GlobalMeta {
                            meta_type: "title"@,
                            value: spec_meta_text(text@),
                        },
                    )
                } else {
                    Some(
                        RecordModel::GlobalMeta { meta_type: "text"@, value: spec_meta_text(text@) },
                    )
                }
            } else {
                Some(spec_meta_rec(tc16, "name"@, spec_meta_text(text@)))
            }
        },
        SmfMetaMessage::Text(text) => {
            if track_channel is None {
                Some(RecordModel::GlobalMeta { meta_type: "text"@, value: spec_meta_text(text@) })
            } else {
                Some(spec_meta_rec(tc16, "text"@, spec_meta_text(text@)))
            }
        },
        SmfMetaMessage::Copyright(text) => Some(
            RecordModel::GlobalMeta { meta_type: "copyright"@, value: spec_meta_text(text@) },
        ),
        SmfMetaMessage::InstrumentName(text) => Some(
            spec_meta_rec(tc16, "instrument"@, spec_meta_text(text@)),
        ),
        SmfMetaMessage::Lyric(text) => Some(spec_meta_rec(tc16, "lyric"@, spec_meta_text(text@))),
        SmfMetaMessage::Marker(text) => Some(spec_meta_rec(tc16, "marker"@, spec_meta_text(text@))),
        SmfMetaMessage::CuePoint(text) => Some(spec_meta_rec(tc16, "cue"@, spec_meta_text(text@))),
        SmfMetaMessage::ProgramName(text) => Some(
            RecordModel::GlobalMeta { meta_type: "program"@, value: spec_meta_text(text@) },
        ),
        SmfMetaMessage::DeviceName(text) => Some(
            RecordModel::GlobalMeta { meta_type: "device"@, value: spec_meta_text(text@) },
        ),
        SmfMetaMessage::TrackNumber(track_num) => match track_num {
            Some(n) => Some(spec_meta_rec(None, "tracknumber"@, spec_nat_digits(n as nat))),
            None => None,
        },
        SmfMetaMessage::MidiChannel(c) => Some(
            spec_meta_rec(None, "midichannel"@, spec_nat_digits(c as nat)),
        ),
        SmfMetaMessage::MidiPort(p) => Some(
            spec_meta_rec(None, "midiport"@, spec_nat_digits(p as nat)),
        ),
        SmfMetaMessage::SmpteOffset(s) => Some(
            RecordModel::GlobalMeta { meta_type: "smpte"@, value: spec_smpte_text(s) },
        ),
        SmfMetaMessage::KeySignature(sharps_flats, minor) => {
            if current_tick == 0 {
                Some(
                    RecordModel::GlobalMeta {
                        meta_type: "key"@,
                        value: spec_key_signature_text(sharps_flats, minor),
                    },
                )
            } else {
                Some(
                    spec_meta_rec(
                        None,
                        "keysignature"@,
                        spec_key_signature_text(sharps_flats, minor),
                    ),
                )
            }
        },
        SmfMetaMessage::SequencerSpecific(data) => Some(
            spec_meta_rec(None, "sequencerspecific"@, spec_bytes_hex(data@)),
        ),
        SmfMetaMessage::Unknown(msg_type, data) => Some(
            spec_meta_rec(None, "unknown_"@ + spec_byte_hex(msg_type), spec_bytes_hex(data@)),
        ),
        SmfMetaMessage::EndOfTrack => None,
    }
}

/// Converts one channel-voice message, updating the open notes and the
/// emitted tick events exactly as `spec_midi_step` says.
pub fn convert_midi_message_to_tick_events(
    message: &ChannelMessage,
    channel: u8,
    note_on_events: &mut Vec<OpenNote>,
    current_tick: u64,
    tick_events: &mut Vec<TickEvent>,
)
    requires
        channel <= 15,
        match *message {
            ChannelMessage::NoteOn { key, vel } => key <= 127 && vel <= 127,
            ChannelMessage::NoteOff { key, vel } => key <= 127 && vel <= 127,
            _ => true,
        },
    ensures
        (final(note_on_events)@, spec_tick_events_model(final(tick_events)@)) == spec_midi_step(
            old(note_on_events)@,
            spec_tick_events_model(old(tick_events)@),
            channel,
            *message,
            current_tick,
        ),
{
    match message {
        ChannelMessage::NoteOn { key, vel } => {
            if *vel > 0 {
                let slot: u16 = (channel as u16) * 128 + (*key as u16);
                let entry = OpenNote { slot, start_tick: current_tick, velocity: *vel };
                match open_find(note_on_events, slot) {
                    Some(idx) => {
                        proof {
                            lemma_open_find(note_on_events@, slot);
                        }
                        note_on_events.remove(idx);
                        note_on_events.insert(idx, entry);
                        proof {
                            assert(note_on_events@ =~= old(note_on_events)@.update(
                                idx as int,
                                entry,
                            ));
                        }
                    },
                    None => {
                        note_on_events.push(entry);
                    },
                }
            } else {
                close_note(note_on_events, tick_events, channel, *key, current_tick, 0);
            }
        },
        ChannelMessage::NoteOff { key, vel } => {
            close_note(note_on_events, tick_events, channel, *key, current_tick, *vel);
        },
        ChannelMessage::Controller { controller, value } => {
            let name = midi_cc_to_name(*controller);
            let record = MtxtRecord::ControlChange {
                time: BeatTime::zero(),
                note: None,
                controller: name,
                value: Ratio { num: *value as i64, den: 127 },
                channel: Some(channel as u16),
                transition_curve: None,
                transition_time: None,
                transition_interval: None,
            };
            let ev = TickEvent::Other { tick: current_tick, record };
            proof {
                lemma_tick_events_model_push(tick_events@, ev);
            }
            tick_events.push(ev);
        },
        ChannelMessage::ProgramChange { program } => {
            let text = u64_to_string(*program as u64);
            let mut voices: Vec<String> = Vec::new();
            voices.push(text);
            proof {
                assert(voices@.map_values(|s: String| s@) =~= seq![
                    spec_nat_digits(*program as nat),
                ]);
            }
            let record = MtxtRecord::Voice {
                time: BeatTime::zero(),
                voices,
                channel: Some(channel as u16),
            };
            let ev = TickEvent::Other { tick: current_tick, record };
            proof {
                lemma_tick_events_model_push(tick_events@, ev);
            }
            tick_events.push(ev);
        },
        ChannelMessage::PitchBend { bend } => {
            let record = MtxtRecord::ControlChange {
                time: BeatTime::zero(),
                note: None,
                controller: String::from_str("pitch"),
                value: Ratio { num: (*bend as i64 - 8192) * 12, den: 8192 },
                channel: Some(channel as u16),
                transition_curve: None,
                transition_time: None,
                transition_interval: None,
            };
            let ev = TickEvent::Other { tick: current_tick, record };
            proof {
                lemma_tick_events_model_push(tick_events@, ev);
            }
            tick_events.push(ev);
        },
        ChannelMessage::Aftertouch { key, vel } => {
            let record = MtxtRecord::ControlChange {
                time: BeatTime::zero(),
                note: None,
                controller: String::from_str("aftertouch"),
                value: Ratio { num: *vel as i64, den: 127 },
                channel: Some(channel as u16),
                transition_curve: None,
                transition_time: None,
                transition_interval: None,
            };
            let ev = TickEvent::Other { tick: current_tick, record };
            proof {
                lemma_tick_events_model_push(tick_events@, ev);
            }
            tick_events.push(ev);
        },
        ChannelMessage::ChannelAftertouch { vel } => {
            let record = MtxtRecord::ControlChange {
                time: BeatTime::zero(),
                note: None,
                controller: String::from_str("aftertouch"),
                value: Ratio { num: *vel as i64, den: 127 },
                channel: Some(channel as u16),
                transition_curve: None,
                transition_time: None,
                transition_interval: None,
            };
            let ev = TickEvent::Other { tick: current_tick, record };
            proof {
                lemma_tick_events_model_push(tick_events@, ev);
            }
            tick_events.push(ev);
        },
    }
}

/// Appending one tick event appends its model.
proof fn lemma_tick_events_model_push(s: Seq<TickEvent>, e: TickEvent)
    ensures
        spec_tick_events_model(s.push(e)) == spec_tick_events_model(s).push(
            spec_tick_event_model(e),
        ),
{
    assert(spec_tick_events_model(s.push(e)) =~= spec_tick_events_model(s).push(
        spec_tick_event_model(e),
    ));
}

/// The first open-note entry for a slot.
fn open_find(open: &Vec<OpenNote>, slot: u16) -> (r: Option<usize>)
    ensures
        match r {
            Some(i) => spec_open_find(open@, slot) == i as int,
            None => spec_open_find(open@, slot) == -1,
        },
{
    proof {
        lemma_open_find(open@, slot);
    }
    let mut i: usize = 0;
    while i < open.len()
        invariant
            0 <= i <= open@.len(),
            forall|j: int| 0 <= j < i ==> (#[trigger] open@[j]).slot != slot,
        decreases open@.len() - i,
    {
        if open[i].slot == slot {
            proof {
                lemma_open_find(open@, slot);
                let f = spec_open_find(open@, slot);
                if f < 0 {
                    assert(open@[i as int].slot != slot);
                }
                if f >= 0 && f != i {
                    if f < i {
                        assert(open@[f].slot != slot);
                    } else {
                        assert(open@[i as int].slot != slot);
                    }
                }
            }
            return Some(i);
        }
        i = i + 1;
    }
    proof {
        lemma_open_find(open@, slot);
        let f = spec_open_find(open@, slot);
        if f >= 0 {
            assert(open@[f].slot != slot);
        }
    }
    None
}

/// Closes the open note for `(channel, key)` at `current_tick`.
fn close_note(
    note_on_events: &mut Vec<OpenNote>,
    tick_events: &mut Vec<TickEvent>,
    channel: u8,
    key: u8,
    current_tick: u64,
    off_velocity: u8,
)
    requires
        channel <= 15,
        key <= 127,
    ensures
        (final(note_on_events)@, spec_tick_events_model(final(tick_events)@)) == spec_close_note(
            old(note_on_events)@,
            spec_tick_events_model(old(tick_events)@),
            channel,
            key,
            current_tick,
            off_velocity,
        ),
{
    let slot: u16 = (channel as u16) * 128 + (key as u16);
    match open_find(note_on_events, slot) {
        Some(idx) => {
            proof {
                lemma_open_find(note_on_events@, slot);
            }
            let entry = note_on_events[idx];
            note_on_events.remove(idx);
            let note = match midi_key_to_note(key) {
                Ok(n) => n,
                Err(e) => {
                    proof {
                        assert(false);
                    }
                    return ;
                },
            };
            let ev = TickEvent::Note {
                start_tick: entry.start_tick,
                end_tick: current_tick,
                note,
                velocity: entry.velocity,
                off_velocity,
                channel: channel as u16,
            };
            proof {
                lemma_tick_events_model_push(tick_events@, ev);
            }
            tick_events.push(ev);
        },
        None => {},
    }
}

/// Converts one meta message to its record, exactly as `spec_meta_record`
/// says.
pub fn convert_meta_message(
    msg: &SmfMetaMessage,
    current_tick: u64,
    is_first_track: bool,
    track_channel: Option<u8>,
) -> (r: Option<MtxtRecord>)
    requires
        match *msg {
            SmfMetaMessage::TimeSignature(n, d, c, b) => d <= 7,
            _ => true,
        },
    ensures
        (match r {
            Some(rec) => Some(spec_record_model(rec)),
            None => None,
        }) == spec_meta_record(*msg, current_tick, is_first_track, track_channel),
{
    let tc16: Option<u16> = match track_channel {
        Some(c) => Some(c as u16),
        None => None,
    };
    match msg {
        SmfMetaMessage::Tempo(us) => {
            let den: u64 = if *us >= 1 {
                *us as u64
            } else {
                1
            };
            Some(
                MtxtRecord::Tempo {
                    time: BeatTime::zero(),
                    bpm: Ratio { num: 60_000_000, den },
                    transition_curve: None,
                    transition_time: None,
                    transition_interval: None,
                },
            )
        },
        SmfMetaMessage::TimeSignature(num, den, _clocks, _thirty_seconds) => Some(
            MtxtRecord::TimeSignature {
                time: BeatTime::zero(),
                signature: TimeSignature { numerator: *num, denominator: 1u8 << *den },
            },
        ),
        SmfMetaMessage::TrackName(text) => {
            let value = escape_meta_text(text);
            match track_channel {
                None => {
                    if is_first_track {
                        Some(
                            MtxtRecord::GlobalMeta { meta_type: String::from_str("title"), value },
                        )
                    } else {
                        Some(MtxtRecord::GlobalMeta { meta_type: String::from_str("text"), value })
                    }
                },
                Some(c) => Some(
                    MtxtRecord::Meta {
                        time: Some(BeatTime::zero()),
                        channel: tc16,
                        meta_type: String::from_str("name"),
                        value,
                    },
                ),
            }
        },
        SmfMetaMessage::Text(text) => {
            let value = escape_meta_text(text);
            match track_channel {
                None => Some(
                    MtxtRecord::GlobalMeta { meta_type: String::from_str("text"), value },
                ),
                Some(c) => Some(
                    MtxtRecord::Meta {
                        time: Some(BeatTime::zero()),
                        channel: tc16,
                        meta_type: String::from_str("text"),
                        value,
                    },
                ),
            }
        },
        SmfMetaMessage::Copyright(text) => Some(
            MtxtRecord::GlobalMeta {
                meta_type: String::from_str("copyright"),
                value: escape_meta_text(text),
            },
        ),
        SmfMetaMessage::InstrumentName(text) => Some(
            MtxtRecord::Meta {
                time: Some(BeatTime::zero()),
                channel: tc16,
                meta_type: String::from_str("instrument"),
                value: escape_meta_text(text),
            },
        ),
        SmfMetaMessage::Lyric(text) => Some(
            MtxtRecord::Meta {
                time: Some(BeatTime::zero()),
                channel: tc16,
                meta_type: String::from_str("lyric"),
                value: escape_meta_text(text),
            },
        ),
        SmfMetaMessage::Marker(text) => Some(
            MtxtRecord::Meta {
                time: Some(BeatTime::zero()),
                channel: tc16,
                meta_type: String::from_str("marker"),
                value: escape_meta_text(text),
            },
        ),
        SmfMetaMessage::CuePoint(text) => Some(
            MtxtRecord::Meta {
                time: Some(BeatTime::zero()),
                channel: tc16,
                meta_type: String::from_str("cue"),
                value: escape_meta_text(text),
            },
        ),
        SmfMetaMessage::ProgramName(text) => Some(
            MtxtRecord::GlobalMeta {
                meta_type: String::from_str("program"),
                value: escape_meta_text(text),
            },
        ),
        SmfMetaMessage::DeviceName(text) => Some(
            MtxtRecord::GlobalMeta {
                meta_type: String::from_str("device"),
                value: escape_meta_text(text),
            },
        ),
        SmfMetaMessage::TrackNumber(track_num) => match track_num {
            Some(n) => Some(
                MtxtRecord::Meta {
                    time: Some(BeatTime::zero()),
                    channel: None,
                    meta_type: String::from_str("tracknumber"),
                    value: u64_to_string(*n as u64),
                },
            ),
            None => None,
        },
        SmfMetaMessage::MidiChannel(c) => Some(
            MtxtRecord::Meta {
                time: Some(BeatTime::zero()),
                channel: None,
                meta_type: String::from_str("midichannel"),
                value: u64_to_string(*c as u64),
            },
        ),
        SmfMetaMessage::MidiPort(p) => Some(
            MtxtRecord::Meta {
                time: Some(BeatTime::zero()),
                channel: None,
                meta_type: String::from_str("midiport"),
                value: u64_to_string(*p as u64),
            },
        ),
        SmfMetaMessage::SmpteOffset(s) => {
            let mut value = String::new();
            push_decimal_u64(&mut value, s.hour as u64);
            push_char(&mut value, ':');
            push_decimal_u64(&mut value, s.minute as u64);
            push_char(&mut value, ':');
            push_decimal_u64(&mut value, s.second as u64);
            push_char(&mut value, ':');
            push_decimal_u64(&mut value, s.frame as u64);
            push_char(&mut value, ':');
            push_decimal_u64(&mut value, s.subframe as u64);
            proof {
                assert(value@ =~= spec_smpte_text(*s));
            }
            Some(MtxtRecord::GlobalMeta { meta_type: String::from_str("smpte"), value })
        },
        SmfMetaMessage::KeySignature(sharps_flats, minor) => {
            let value = midi_key_signature_to_string(*sharps_flats, *minor);
            if current_tick == 0 {
                Some(MtxtRecord::GlobalMeta { meta_type: String::from_str("key"), value })
            } else {
                Some(
                    MtxtRecord::Meta {
                        time: Some(BeatTime::zero()),
                        channel: None,
                        meta_type: String::from_str("keysignature"),
                        value,
                    },
                )
            }
        },
        SmfMetaMessage::SequencerSpecific(data) => Some(
            MtxtRecord::Meta {
                time: Some(BeatTime::zero()),
                channel: None,
                meta_type: String::from_str("sequencerspecific"),
                value: bytes_to_hex(data),
            },
        ),
        SmfMetaMessage::Unknown(msg_type, data) => {
            let mut meta_type = String::from_str("unknown_");
            push_char(&mut meta_type, crate::text::hex_char(*msg_type / 16));
            push_char(&mut meta_type, crate::text::hex_char(*msg_type % 16));
            proof {
                assert(meta_type@ =~= "unknown_"@ + spec_byte_hex(*msg_type));
            }
            Some(
                MtxtRecord::Meta {
                    time: Some(BeatTime::zero()),
                    channel: None,
                    meta_type,
                    value: bytes_to_hex(data),
                },
            )
        },
        SmfMetaMessage::EndOfTrack => None,
    }
}

/// The escaped text of a meta payload.
fn escape_meta_text(bytes: &Vec<u8>) -> (r: String)
    ensures
        r@ == spec_meta_text(bytes@),
{
    let text = bytes_to_text(bytes);
    escape_string(text.as_str())
}

/// The channel of the first channel-voice event at or after `i`, if any.
pub open spec fn spec_track_channel_from(track: Seq<SmfTrackEvent>, i: int) -> Option<u8>
    decreases track.len() - i,
{
    if i < 0 || i >= track.len() {
        None
    } else {
        match track[i].kind {
            SmfEventKind::Midi { channel, .. } => Some(channel),
            _ => spec_track_channel_from(track, i + 1),
        }
    }
}

/// The track channel heuristic: in a multi-track file, a track's meta
/// events belong to the channel of its first channel-voice event.
pub open spec fn spec_track_channel(track: Seq<SmfTrackEvent>, single_track: bool) -> Option<u8> {
    if single_track {
        None
    } else {
        spec_track_channel_from(track, 0)
    }
}

/// The channel a track's meta events belong to.
pub fn track_channel_of(track: &Vec<SmfTrackEvent>, single_track: bool) -> (r: Option<u8>)
    ensures
        r == spec_track_channel(track@, single_track),
{
    if single_track {
        return None;
    }
    let mut i: usize = 0;
    while i < track.len()
        invariant
            0 <= i <= track@.len(),
            !single_track,
            spec_track_channel_from(track@, 0) == spec_track_channel_from(track@, i as int),
        decreases track@.len() - i,
    {
        match &track[i].kind {
            SmfEventKind::Midi { channel, .. } => {
                return Some(*channel);
            },
            _ => {},
        }
        i = i + 1;
    }
    None
}

/// One track event's effect on the scan state: the open notes, the emitted
/// tick events, and the running absolute tick.
pub open spec fn spec_track_step(
    st: (Seq<OpenNote>, Seq<TickEventModel>, int),
    ev: SmfTrackEvent,
    is_first_track: bool,
    track_channel: Option<u8>,
) -> (Seq<OpenNote>, Seq<TickEventModel>, int) {
    let tick = st.2 + ev.delta;
    match ev.kind {
        SmfEventKind::Midi { channel, message } => {
            let r = spec_midi_step(st.0, st.1, channel, message, tick as u64);
            (r.0, r.1, tick)
        },
        SmfEventKind::Meta(m) => (
            st.0,
            match spec_meta_record(m, tick as u64, is_first_track, track_channel) {
                Some(rec) => st.1.push(TickEventModel::Other { tick: tick as u64, record: rec }),
                None => st.1,
            },
            tick,
        ),
        SmfEventKind::SysEx(d) => (
            st.0,
            st.1.push(
                TickEventModel::Other {
                    tick: tick as u64,
                    record: RecordModel::SysEx { time: BeatTime { nanos: 0 }, data: d@ },
                },
            ),
            tick,
        ),
        SmfEventKind::Escape(d) => (st.0, st.1, tick),
    }
}

/// The scan state after the first `i` events of a track.
pub open spec fn spec_track_prefix(
    track: Seq<SmfTrackEvent>,
    i: int,
    is_first_track: bool,
    track_channel: Option<u8>,
) -> (Seq<OpenNote>, Seq<TickEventModel>, int)
    decreases i,
{
    if i <= 0 {
        (Seq::empty(), Seq::empty(), 0)
    } else {
        spec_track_step(
            spec_track_prefix(track, i - 1, is_first_track, track_channel),
            track[i - 1],
            is_first_track,
            track_channel,
        )
    }
}

/// The notes still open at the end of a track, closed with a default
/// duration of one beat and a zero off-velocity.
pub open spec fn spec_leftover_events(open: Seq<OpenNote>, ppq: u16) -> Seq<TickEventModel>
    decreases open.len(),
{
    if open.len() == 0 {
        Seq::empty()
    } else {
        let e = open[0];
        seq![
            TickEventModel::Note {
                start_tick: e.start_tick,
                end_tick: crate::beat_time::spec_sat_add(e.start_tick, ppq as u64),
                note: spec_note_of_key((e.slot % 128) as u8),
                velocity: e.velocity,
                off_velocity: 0,
                channel: (e.slot / 128) as u16,
            },
        ] + spec_leftover_events(open.drop_first(), ppq)
    }
}

/// All tick events of one track: the scanned events, then the leftovers.
pub open spec fn spec_track_events(
    track: Seq<SmfTrackEvent>,
    is_first_track: bool,
    track_channel: Option<u8>,
    ppq: u16,
) -> Seq<TickEventModel> {
    let st = spec_track_prefix(track, track.len() as int, is_first_track, track_channel);
    st.1 + spec_leftover_events(st.0, ppq)
}

/// The merged tick events of all tracks from `t` on.
pub open spec fn spec_all_events(
    tracks: Seq<Vec<SmfTrackEvent>>,
    t: int,
    single_track: bool,
    ppq: u16,
) -> Seq<TickEventModel>
    decreases tracks.len() - t,
{
    if t < 0 || t >= tracks.len() {
        Seq::empty()
    } else {
        spec_track_events(
            tracks[t]@,
            t == 0,
            spec_track_channel(tracks[t]@, single_track),
            ppq,
        ) + spec_all_events(tracks, t + 1, single_track, ppq)
    }
}

/// The primary tick of a tick event: a note sorts by its start.
pub open spec fn spec_tick_key(e: TickEventModel) -> u64 {
    match e {
        TickEventModel::Note { start_tick, .. } => start_tick,
        TickEventModel::Other { tick, .. } => tick,
    }
}

/// Stable insertion into a tick-sorted event list: the new event goes after
/// every event at or before its tick.
pub open spec fn spec_insert_tick(s: Seq<TickEventModel>, x: TickEventModel) -> Seq<TickEventModel>
    decreases s.len(),
{
    if s.len() == 0 {
        seq![x]
    } else if spec_tick_key(s.last()) <= spec_tick_key(x) {
        s.push(x)
    } else {
        spec_insert_tick(s.drop_last(), x).push(s.last())
    }
}

/// The stable sort of tick events by primary tick.
pub open spec fn spec_sort_ticks(s: Seq<TickEventModel>) -> Seq<TickEventModel>
    decreases s.len(),
{
    if s.len() == 0 {
        Seq::empty()
    } else {
        spec_insert_tick(spec_sort_ticks(s.drop_last()), s.last())
    }
}

/// Stable insertion places the new event exactly at the boundary of the
/// trailing run of strictly later events.
proof fn lemma_insert_tick_at(s: Seq<TickEventModel>, x: TickEventModel, j: int)
    requires
        0 <= j <= s.len(),
        forall|k: int| j <= k < s.len() ==> spec_tick_key(#[trigger] s[k]) > spec_tick_key(x),
        j > 0 ==> spec_tick_key(s[j - 1]) <= spec_tick_key(x),
    ensures
        spec_insert_tick(s, x) == s.take(j) + seq![x] + s.skip(j),
    decreases s.len(),
{
    if j == s.len() {
        if s.len() == 0 {
            assert(spec_insert_tick(s, x) =~= s.take(j) + seq![x] + s.skip(j));
        } else {
            assert(spec_insert_tick(s, x) == s.push(x));
            assert(s.push(x) =~= s.take(j) + seq![x] + s.skip(j));
        }
    } else {
        assert(spec_tick_key(s.last()) > spec_tick_key(x)) by {
            assert(spec_tick_key(s[s.len() - 1]) > spec_tick_key(x));
        }
        let t = s.drop_last();
        assert forall|k: int| j <= k < t.len() implies spec_tick_key(#[trigger] t[k])
            > spec_tick_key(x) by {
            assert(t[k] == s[k]);
        }
        if j > 0 {
            assert(t[j - 1] == s[j - 1]);
        }
        lemma_insert_tick_at(t, x, j);
        assert(spec_insert_tick(s, x) == (t.take(j) + seq![x] + t.skip(j)).push(s.last()));
        assert((t.take(j) + seq![x] + t.skip(j)).push(s.last()) =~= s.take(j) + seq![x] + s.skip(
            j,
        ));
    }
}

/// The primary tick of an event.
fn tick_key(e: &TickEvent) -> (k: u64)
    ensures
        k == spec_tick_key(spec_tick_event_model(*e)),
{
    match e {
        TickEvent::Note { start_tick, .. } => *start_tick,
        TickEvent::Other { tick, .. } => *tick,
    }
}

/// Sorts tick events stably by primary tick.
fn sort_tick_events(events: Vec<TickEvent>) -> (r: Vec<TickEvent>)
    ensures
        spec_tick_events_model(r@) == spec_sort_ticks(spec_tick_events_model(events@)),
{
    let ghost orig = spec_tick_events_model(events@);
    let mut input = events;
    let mut out: Vec<TickEvent> = Vec::new();
    let ghost mut done: int = 0;
    proof {
        assert(orig.take(0) =~= Seq::<TickEventModel>::empty());
        assert(spec_tick_events_model(out@) =~= Seq::<TickEventModel>::empty());
        assert(spec_tick_events_model(input@) =~= orig.skip(0));
    }
    while input.len() > 0
        invariant
            0 <= done <= orig.len(),
            done + input@.len() == orig.len(),
            spec_tick_events_model(input@) == orig.skip(done),
            spec_tick_events_model(out@) == spec_sort_ticks(orig.take(done)),
        decreases input@.len(),
    {
        let ghost input_pre = input@;
        let x = input.remove(0);
        proof {
            assert(spec_tick_events_model(input@) =~= orig.skip(done + 1)) by {
                assert(input@ =~= input_pre.drop_first());
                assert(spec_tick_events_model(input_pre).drop_first() =~= spec_tick_events_model(
                    input_pre.drop_first(),
                ));
            }
            assert(spec_tick_event_model(x) == orig[done]) by {
                assert(spec_tick_events_model(input_pre)[0] == spec_tick_event_model(
                    input_pre[0],
                ));
            }
        }
        let key = tick_key(&x);
        let mut j: usize = out.len();
        while j > 0 && tick_key(&out[j - 1]) > key
            invariant
                0 <= j <= out@.len(),
                key == spec_tick_key(spec_tick_event_model(x)),
                forall|k: int|
                    j <= k < out@.len() ==> spec_tick_key(
                        #[trigger] spec_tick_events_model(out@)[k],
                    ) > key,
            decreases j,
        {
            proof {
                assert(spec_tick_events_model(out@)[j - 1] == spec_tick_event_model(
                    out@[j - 1],
                ));
            }
            j = j - 1;
        }
        proof {
            let models = spec_tick_events_model(out@);
            if j > 0 {
                assert(models[j - 1] == spec_tick_event_model(out@[j - 1]));
            }
            lemma_insert_tick_at(models, spec_tick_event_model(x), j as int);
        }
        let ghost out_pre = out@;
        out.insert(j, x);
        proof {
            assert(spec_tick_events_model(out@) =~= spec_tick_events_model(out_pre).take(j as int)
                + seq![spec_tick_event_model(x)] + spec_tick_events_model(out_pre).skip(j as int))
                by {
                assert(out@ =~= out_pre.take(j as int) + seq![x] + out_pre.skip(j as int));
            }
            assert(orig.take(done + 1).drop_last() =~= orig.take(done));
            assert(orig.take(done + 1).last() == orig[done]);
            assert(spec_tick_events_model(out@) == spec_sort_ticks(orig.take(done + 1)));
            done = done + 1;
        }
    }
    proof {
        assert(orig.take(orig.len() as int) =~= orig);
    }
    out
}

/// The sort key of a record in the final ordering: the file prologue first
/// (header and global annotations), then file-level annotations, then every
/// timed record by its beat position.
pub open spec fn spec_final_key(r: RecordModel) -> u128 {
    let timed_base: u128 = 0x2_0000_0000_0000_0000;
    match r {
        RecordModel::Header { .. } => 0,
        RecordModel::GlobalMeta { .. } => 0,
        RecordModel::Meta { time, .. } => match time {
            None => 0x1_0000_0000_0000_0000,
            Some(t) => (timed_base + t.nanos) as u128,
        },
        RecordModel::Note { time, .. } => (timed_base + time.nanos) as u128,
        RecordModel::NoteOn { time, .. } => (timed_base + time.nanos) as u128,
        RecordModel::NoteOff { time, .. } => (timed_base + time.nanos) as u128,
        RecordModel::ControlChange { time, .. } => (timed_base + time.nanos) as u128,
        RecordModel::Voice { time, .. } => (timed_base + time.nanos) as u128,
        RecordModel::Tempo { time, .. } => (timed_base + time.nanos) as u128,
        RecordModel::TimeSignature { time, .. } => (timed_base + time.nanos) as u128,
        RecordModel::SysEx { time, .. } => (timed_base + time.nanos) as u128,
    }
}

/// Stable insertion into a key-sorted record list.
pub open spec fn spec_insert_record(s: Seq<RecordModel>, x: RecordModel) -> Seq<RecordModel>
    decreases s.len(),
{
    if s.len() == 0 {
        seq![x]
    } else if spec_final_key(s.last()) <= spec_final_key(x) {
        s.push(x)
    } else {
        spec_insert_record(s.drop_last(), x).push(s.last())
    }
}

/// The stable sort of records by the final ordering key.
pub open spec fn spec_sort_records(s: Seq<RecordModel>) -> Seq<RecordModel>
    decreases s.len(),
{
    if s.len() == 0 {
        Seq::empty()
    } else {
        spec_insert_record(spec_sort_records(s.drop_last()), s.last())
    }
}

/// Stable insertion places the new record exactly at the boundary of the
/// trailing run of strictly later records.
proof fn lemma_insert_record_at(s: Seq<RecordModel>, x: RecordModel, j: int)
    requires
        0 <= j <= s.len(),
        forall|k: int| j <= k < s.len() ==> spec_final_key(#[trigger] s[k]) > spec_final_key(x),
        j > 0 ==> spec_final_key(s[j - 1]) <= spec_final_key(x),
    ensures
        spec_insert_record(s, x) == s.take(j) + seq![x] + s.skip(j),
    decreases s.len(),
{
    if j == s.len() {
        if s.len() == 0 {
            assert(spec_insert_record(s, x) =~= s.take(j) + seq![x] + s.skip(j));
        } else {
            assert(spec_insert_record(s, x) == s.push(x));
            assert(s.push(x) =~= s.take(j) + seq![x] + s.skip(j));
        }
    } else {
        assert(spec_final_key(s.last()) > spec_final_key(x)) by {
            assert(spec_final_key(s[s.len() - 1]) > spec_final_key(x));
        }
        let t = s.drop_last();
        assert forall|k: int| j <= k < t.len() implies spec_final_key(#[trigger] t[k])
            > spec_final_key(x) by {
            assert(t[k] == s[k]);
        }
        if j > 0 {
            assert(t[j - 1] == s[j - 1]);
        }
        lemma_insert_record_at(t, x, j);
        assert(spec_insert_record(s, x) == (t.take(j) + seq![x] + t.skip(j)).push(s.last()));
        assert((t.take(j) + seq![x] + t.skip(j)).push(s.last()) =~= s.take(j) + seq![x] + s.skip(
            j,
        ));
    }
}

/// The final ordering key of a record.
fn final_key(r: &MtxtRecord) -> (k: u128)
    ensures
        k == spec_final_key(spec_record_model(*r)),
{
    let timed_base: u128 = 0x2_0000_0000_0000_0000;
    match r {
        MtxtRecord::Header { .. } => 0,
        MtxtRecord::GlobalMeta { .. } => 0,
        MtxtRecord::Meta { time, .. } => match time {
            None => 0x1_0000_0000_0000_0000,
            Some(t) => timed_base + t.nanos as u128,
        },
        MtxtRecord::Note { time, .. } => timed_base + time.nanos as u128,
        MtxtRecord::NoteOn { time, .. } => timed_base + time.nanos as u128,
        MtxtRecord::NoteOff { time, .. } => timed_base + time.nanos as u128,
        MtxtRecord::ControlChange { time, .. } => timed_base + time.nanos as u128,
        MtxtRecord::Voice { time, .. } => timed_base + time.nanos as u128,
        MtxtRecord::Tempo { time, .. } => timed_base + time.nanos as u128,
        MtxtRecord::TimeSignature { time, .. } => timed_base + time.nanos as u128,
        MtxtRecord::SysEx { time, .. } => timed_base + time.nanos as u128,
    }
}

/// Appending one record appends its model.
proof fn lemma_records_model_push(s: Seq<MtxtRecord>, r: MtxtRecord)
    ensures
        spec_records_model(s.push(r)) == spec_records_model(s).push(spec_record_model(r)),
{
    assert(spec_records_model(s.push(r)) =~= spec_records_model(s).push(spec_record_model(r)));
}

/// Sorts records stably by the final ordering key.
fn sort_records(records: Vec<MtxtRecord>) -> (r: Vec<MtxtRecord>)
    ensures
        spec_records_model(r@) == spec_sort_records(spec_records_model(records@)),
{
    let ghost orig = spec_records_model(records@);
    let mut input = records;
    let mut out: Vec<MtxtRecord> = Vec::new();
    let ghost mut done: int = 0;
    proof {
        assert(orig.take(0) =~= Seq::<RecordModel>::empty());
        assert(spec_records_model(out@) =~= Seq::<RecordModel>::empty());
        assert(spec_records_model(input@) =~= orig.skip(0));
    }
    while input.len() > 0
        invariant
            0 <= done <= orig.len(),
            done + input@.len() == orig.len(),
            spec_records_model(input@) == orig.skip(done),
            spec_records_model(out@) == spec_sort_records(orig.take(done)),
        decreases input@.len(),
    {
        let ghost input_pre = input@;
        let x = input.remove(0);
        proof {
            assert(spec_records_model(input@) =~= orig.skip(done + 1)) by {
                assert(input@ =~= input_pre.drop_first());
                assert(spec_records_model(input_pre).drop_first() =~= spec_records_model(
                    input_pre.drop_first(),
                ));
            }
            assert(spec_record_model(x) == orig[done]) by {
                assert(spec_records_model(input_pre)[0] == spec_record_model(input_pre[0]));
            }
        }
        let key = final_key(&x);
        let mut j: usize = out.len();
        while j > 0 && final_key(&out[j - 1]) > key
            invariant
                0 <= j <= out@.len(),
                key == spec_final_key(spec_record_model(x)),
                forall|k: int|
                    j <= k < out@.len() ==> spec_final_key(
                        #[trigger] spec_records_model(out@)[k],
                    ) > key,
            decreases j,
        {
            proof {
                assert(spec_records_model(out@)[j - 1] == spec_record_model(out@[j - 1]));
            }
            j = j - 1;
        }
        proof {
            let models = spec_records_model(out@);
            if j > 0 {
                assert(models[j - 1] == spec_record_model(out@[j - 1]));
            }
            lemma_insert_record_at(models, spec_record_model(x), j as int);
        }
        let ghost out_pre = out@;
        out.insert(j, x);
        proof {
            assert(spec_records_model(out@) =~= spec_records_model(out_pre).take(j as int)
                + seq![spec_record_model(x)] + spec_records_model(out_pre).skip(j as int)) by {
                assert(out@ =~= out_pre.take(j as int) + seq![x] + out_pre.skip(j as int));
            }
            assert(orig.take(done + 1).drop_last() =~= orig.take(done));
            assert(orig.take(done + 1).last() == orig[done]);
            assert(spec_records_model(out@) == spec_sort_records(orig.take(done + 1)));
            done = done + 1;
        }
    }
    proof {
        assert(orig.take(orig.len() as int) =~= orig);
    }
    out
}

/// The beat position of a tick: ticks over the pulses-per-quarter
/// resolution, truncated to nanobeat resolution and saturating.
pub open spec fn spec_beat_nanos(tick: u64, ppq: u16) -> u64
    recommends
        ppq >= 1,
{
    let b = (tick as int) * 1_000_000_000 / (ppq as int);
    if b > u64::MAX {
        u64::MAX
    } else {
        b as u64
    }
}

/// The tick-to-beat map is monotone nondecreasing and sends tick zero to
/// beat zero: tempo never bends it, since beats are defined by the
/// resolution alone.
pub proof fn lemma_beat_map_monotone(t1: u64, t2: u64, ppq: u16)
    requires
        ppq >= 1,
        t1 <= t2,
    ensures
        spec_beat_nanos(t1, ppq) <= spec_beat_nanos(t2, ppq),
        spec_beat_nanos(0, ppq) == 0,
{
    assert((t1 as int) * 1_000_000_000 <= (t2 as int) * 1_000_000_000) by (nonlinear_arith)
        requires
            t1 <= t2,
    ;
    vstd::arithmetic::div_mod::lemma_div_is_ordered(
        (t1 as int) * 1_000_000_000,
        (t2 as int) * 1_000_000_000,
        ppq as int,
    );
    assert((t1 as int) * 1_000_000_000 >= 0) by (nonlinear_arith)
        requires
            t1 >= 0,
    ;
    assert(((t1 as int) * 1_000_000_000) / (ppq as int) >= 0);
}

/// The beat position of a tick.
fn tick_to_beat(tick: u64, ppq: u16) -> (r: BeatTime)
    requires
        ppq >= 1,
    ensures
        r.nanos == spec_beat_nanos(tick, ppq),
{
    let wide: u128 = (tick as u128) * 1_000_000_000u128 / (ppq as u128);
    if wide > u64::MAX as u128 {
        BeatTime::from_nanos(u64::MAX)
    } else {
        BeatTime::from_nanos(wide as u64)
    }
}

/// The record of a tick event once its beat position is known: a paired
/// note gets its start beat and duration; any other record gets its time
/// overwritten with the mapped beat, a meta record keeping no time when the
/// beat is zero (a file-level annotation).
pub open spec fn spec_timed_record(e: TickEventModel, ppq: u16) -> RecordModel {
    match e {
        TickEventModel::Note { start_tick, end_tick, note, velocity, off_velocity, channel } => {
            let start = spec_beat_nanos(start_tick, ppq);
            let end = spec_beat_nanos(end_tick, ppq);
            RecordModel::Note {
                time: BeatTime { nanos: start },
                note: NoteTargetModel::Note(note),
                duration: Some(BeatTime { nanos: crate::beat_time::spec_sat_sub(end, start) }),
                velocity: Some(Ratio { num: velocity as i64, den: 127 }),
                off_velocity: Some(Ratio { num: off_velocity as i64, den: 127 }),
                channel: Some(channel),
            }
        },
        TickEventModel::Other { tick, record } => {
            let beat = BeatTime { nanos: spec_beat_nanos(tick, ppq) };
            match record {
                RecordModel::Tempo { time, bpm, transition_curve, transition_time, transition_interval } => {
                    RecordModel::Tempo {
                        time: beat,
                        bpm,
                        transition_curve,
                        transition_time,
                        transition_interval,
                    }
                },
                RecordModel::ControlChange {
                    time,
                    note,
                    controller,
                    value,
                    channel,
                    transition_curve,
                    transition_time,
                    transition_interval,
                } => RecordModel::ControlChange {
                    time: beat,
                    note,
                    controller,
                    value,
                    channel,
                    transition_curve,
                    transition_time,
                    transition_interval,
                },
                RecordModel::TimeSignature { time, signature } => RecordModel::TimeSignature {
                    time: beat,
                    signature,
                },
                RecordModel::Voice { time, voices, channel } => RecordModel::Voice {
                    time: beat,
                    voices,
                    channel,
                },
                RecordModel::SysEx { time, data } => RecordModel::SysEx { time: beat, data },
                RecordModel::Meta { time, channel, meta_type, value } => RecordModel::Meta {
                    time: if beat.nanos == 0 {
                        None
                    } else {
                        Some(beat)
                    },
                    channel,
                    meta_type,
                    value,
                },
                other_record => other_record,
            }
        },
    }
}

/// The records of a tick event list.
pub open spec fn spec_timed_records(s: Seq<TickEventModel>, ppq: u16) -> Seq<RecordModel> {
    s.map_values(|e: TickEventModel| spec_timed_record(e, ppq))
}

/// Rewrites each sorted tick event to its record with beat times.
fn assign_beat_times(events: Vec<TickEvent>, ppq: u16) -> (r: Vec<MtxtRecord>)
    requires
        ppq >= 1,
    ensures
        spec_records_model(r@) == spec_timed_records(spec_tick_events_model(events@), ppq),
{
    let ghost orig = spec_tick_events_model(events@);
    let mut input = events;
    let mut out: Vec<MtxtRecord> = Vec::new();
    let ghost mut done: int = 0;
    proof {
        assert(spec_records_model(out@) =~= spec_timed_records(orig.take(0), ppq));
        assert(spec_tick_events_model(input@) =~= orig.skip(0));
    }
    while input.len() > 0
        invariant
            0 <= done <= orig.len(),
            done + input@.len() == orig.len(),
            ppq >= 1,
            spec_tick_events_model(input@) == orig.skip(done),
            spec_records_model(out@) == spec_timed_records(orig.take(done), ppq),
        decreases input@.len(),
    {
        let ghost input_pre = input@;
        let x = input.remove(0);
        proof {
            assert(spec_tick_events_model(input@) =~= orig.skip(done + 1)) by {
                assert(input@ =~= input_pre.drop_first());
                assert(spec_tick_events_model(input_pre).drop_first() =~= spec_tick_events_model(
                    input_pre.drop_first(),
                ));
            }
            assert(spec_tick_event_model(x) == orig[done]) by {
                assert(spec_tick_events_model(input_pre)[0] == spec_tick_event_model(
                    input_pre[0],
                ));
            }
        }
        let rec: MtxtRecord = match x {
            TickEvent::Note { start_tick, end_tick, note, velocity, off_velocity, channel } => {
                let start = tick_to_beat(start_tick, ppq);
                let end = tick_to_beat(end_tick, ppq);
                let duration = end.sub_sat(&start);
                MtxtRecord::Note {
                    time: start,
                    note: NoteTarget::Note(note),
                    duration: Some(duration),
                    velocity: Some(Ratio { num: velocity as i64, den: 127 }),
                    off_velocity: Some(Ratio { num: off_velocity as i64, den: 127 }),
                    channel: Some(channel),
                }
            },
            TickEvent::Other { tick, record } => {
                let beat = tick_to_beat(tick, ppq);
                match record {
                    MtxtRecord::Tempo {
                        time,
                        bpm,
                        transition_curve,
                        transition_time,
                        transition_interval,
                    } => MtxtRecord::Tempo {
                        time: beat,
                        bpm,
                        transition_curve,
                        transition_time,
                        transition_interval,
                    },
                    MtxtRecord::ControlChange {
                        time,
                        note,
                        controller,
                        value,
                        channel,
                        transition_curve,
                        transition_time,
                        transition_interval,
                    } => MtxtRecord::ControlChange {
                        time: beat,
                        note,
                        controller,
                        value,
                        channel,
                        transition_curve,
                        transition_time,
                        transition_interval,
                    },
                    MtxtRecord::TimeSignature { time, signature } => MtxtRecord::TimeSignature {
                        time: beat,
                        signature,
                    },
                    MtxtRecord::Voice { time, voices, channel } => MtxtRecord::Voice {
                        time: beat,
                        voices,
                        channel,
                    },
                    MtxtRecord::SysEx { time, data } => MtxtRecord::SysEx { time: beat, data },
                    MtxtRecord::Meta { time, channel, meta_type, value } => MtxtRecord::Meta {
                        time: if beat.nanos == 0 {
                            None
                        } else {
                            Some(beat)
                        },
                        channel,
                        meta_type,
                        value,
                    },
                    other_record => other_record,
                }
            },
        };
        proof {
            assert(spec_record_model(rec) == spec_timed_record(orig[done], ppq));
            lemma_records_model_push(out@, rec);
        }
        out.push(rec);
        proof {
            assert(spec_timed_records(orig.take(done + 1), ppq) =~= spec_timed_records(
                orig.take(done),
                ppq,
            ).push(spec_timed_record(orig[done], ppq)));
            done = done + 1;
        }
    }
    proof {
        assert(orig.take(orig.len() as int) =~= orig);
    }
    out
}

/// The effective resolution: the metrical pulses per quarter when present
/// and nonzero, else the documented fallback.
pub open spec fn spec_effective_ppq(timing: SmfTiming) -> u16 {
    match timing {
        SmfTiming::Metrical(p) => if p >= 1 {
            p
        } else {
            FALLBACK_PPQ
        },
        SmfTiming::Timecode => FALLBACK_PPQ,
    }
}

/// The whole forward translation: a version header, then all tracks'
/// events — notes paired, ticks mapped to beats — in the final stable
/// order: prologue first, then file-level annotations, then timed records
/// by beat.
pub open spec fn spec_convert_smf(smf: SmfData) -> Seq<RecordModel> {
    let ppq = spec_effective_ppq(smf.timing);
    seq![RecordModel::Header { version: Version { major: 1, minor: 0 } }] + spec_sort_records(
        spec_timed_records(
            spec_sort_ticks(
                spec_all_events(smf.tracks@, 0, smf.format == SmfFormat::SingleTrack, ppq),
            ),
            ppq,
        ),
    )
}

/// Whether every track is small enough for the tick arithmetic: a machine
/// bound, far beyond any real file.
pub open spec fn spec_tracks_sized(tracks: Seq<Vec<SmfTrackEvent>>) -> bool {
    forall|t: int| 0 <= t < tracks.len() ==> (#[trigger] tracks[t])@.len() <= 0x1_0000_0000
}

/// Whether a record list is ordered by the final key.
pub open spec fn spec_records_ordered(s: Seq<RecordModel>) -> bool {
    forall|i: int, j: int|
        0 <= i <= j < s.len() ==> spec_final_key(#[trigger] s[i]) <= spec_final_key(
            #[trigger] s[j],
        )
}

/// Every element of a stable insertion is the inserted record or one of the
/// originals.
proof fn lemma_insert_record_elems(s: Seq<RecordModel>, x: RecordModel)
    ensures
        forall|k: int|
            0 <= k < spec_insert_record(s, x).len() ==> (#[trigger] spec_insert_record(s, x)[k]
                == x || s.contains(spec_insert_record(s, x)[k])),
        spec_insert_record(s, x).len() == s.len() + 1,
    decreases s.len(),
{
    let r = spec_insert_record(s, x);
    if s.len() == 0 {
    } else if spec_final_key(s.last()) <= spec_final_key(x) {
        assert forall|k: int| 0 <= k < r.len() implies (#[trigger] r[k] == x || s.contains(
            r[k],
        )) by {
            if k < s.len() {
                assert(r[k] == s[k]);
            }
        }
    } else {
        let t = s.drop_last();
        lemma_insert_record_elems(t, x);
        let inner = spec_insert_record(t, x);
        assert forall|k: int| 0 <= k < r.len() implies (#[trigger] r[k] == x || s.contains(
            r[k],
        )) by {
            if k < inner.len() {
                assert(r[k] == inner[k]);
                if inner[k] != x {
                    assert(t.contains(inner[k]));
                    let w = choose|w: int| 0 <= w < t.len() && t[w] == inner[k];
                    assert(s[w] == inner[k]);
                }
            } else {
                assert(r[k] == s.last());
                assert(s[s.len() - 1] == s.last());
            }
        }
    }
}

/// Stable insertion keeps a record list ordered.
proof fn lemma_insert_record_ordered(s: Seq<RecordModel>, x: RecordModel)
    requires
        spec_records_ordered(s),
    ensures
        spec_records_ordered(spec_insert_record(s, x)),
    decreases s.len(),
{
    let r = spec_insert_record(s, x);
    if s.len() == 0 {
    } else if spec_final_key(s.last()) <= spec_final_key(x) {
        assert forall|i: int, j: int|
            0 <= i <= j < r.len() implies spec_final_key(#[trigger] r[i]) <= spec_final_key(
            #[trigger] r[j],
        ) by {
            if j < s.len() {
                assert(r[i] == s[i] && r[j] == s[j]);
            } else if i < s.len() {
                assert(r[i] == s[i] && r[j] == x);
                assert(spec_final_key(s[i]) <= spec_final_key(s[s.len() - 1]));
            }
        }
    } else {
        let t = s.drop_last();
        assert forall|i: int, j: int|
            0 <= i <= j < t.len() implies spec_final_key(#[trigger] t[i]) <= spec_final_key(
            #[trigger] t[j],
        ) by {
            assert(t[i] == s[i] && t[j] == s[j]);
        }
        lemma_insert_record_ordered(t, x);
        lemma_insert_record_elems(t, x);
        let inner = spec_insert_record(t, x);
        assert forall|i: int, j: int|
            0 <= i <= j < r.len() implies spec_final_key(#[trigger] r[i]) <= spec_final_key(
            #[trigger] r[j],
        ) by {
            if j < inner.len() {
                assert(r[i] == inner[i] && r[j] == inner[j]);
            } else {
                assert(r[j] == s.last());
                if i < inner.len() {
                    assert(r[i] == inner[i]);
                    if inner[i] == x {
                        assert(spec_final_key(x) <= spec_final_key(s.last()));
                    } else {
                        assert(t.contains(inner[i]));
                        let w = choose|w: int| 0 <= w < t.len() && t[w] == inner[i];
                        assert(spec_final_key(s[w]) <= spec_final_key(s[s.len() - 1]));
                    }
                }
            }
        }
    }
}

/// The record sort yields an ordered permutation of its input: every record
/// survives and the final order is by the prologue-then-time key.
pub proof fn lemma_sort_records_permutes_and_orders(s: Seq<RecordModel>)
    ensures
        spec_records_ordered(spec_sort_records(s)),
        spec_sort_records(s).to_multiset() == s.to_multiset(),
    decreases s.len(),
{
    broadcast use vstd::seq_lib::group_to_multiset_ensures;

    if s.len() == 0 {
        assert(spec_sort_records(s).to_multiset() =~= s.to_multiset());
    } else {
        let t = s.drop_last();
        lemma_sort_records_permutes_and_orders(t);
        let inner = spec_sort_records(t);
        lemma_insert_record_ordered(inner, s.last());
        lemma_insert_record_multiset(inner, s.last());
        assert(t.push(s.last()) =~= s);
        assert(t.push(s.last()).to_multiset() =~= t.to_multiset().insert(s.last()));
        assert(spec_sort_records(s).to_multiset() =~= s.to_multiset());
    }
}

/// Stable insertion adds exactly the inserted record to the multiset.
proof fn lemma_insert_record_multiset(s: Seq<RecordModel>, x: RecordModel)
    ensures
        spec_insert_record(s, x).to_multiset() == s.to_multiset().insert(x),
    decreases s.len(),
{
    broadcast use vstd::seq_lib::group_to_multiset_ensures;

    if s.len() == 0 {
        assert(spec_insert_record(s, x) =~= Seq::<RecordModel>::empty().push(x));
        assert(spec_insert_record(s, x).to_multiset() =~= s.to_multiset().insert(x));
    } else if spec_final_key(s.last()) <= spec_final_key(x) {
        assert(spec_insert_record(s, x).to_multiset() =~= s.to_multiset().insert(x));
    } else {
        let t = s.drop_last();
        lemma_insert_record_multiset(t, x);
        let inner = spec_insert_record(t, x);
        assert(inner.push(s.last()).to_multiset() =~= inner.to_multiset().insert(s.last()));
        assert(t.push(s.last()) =~= s);
        assert(t.push(s.last()).to_multiset() =~= t.to_multiset().insert(s.last()));
        assert(t.to_multiset().insert(x).insert(s.last()) =~= t.to_multiset().insert(
            s.last(),
        ).insert(x));
        assert(spec_insert_record(s, x).to_multiset() =~= s.to_multiset().insert(x));
    }
}

/// The forward translation's output order: the header stands first, and
/// every later record follows the stable prologue-then-time ordering.
pub proof fn lemma_forward_output_ordered(smf: SmfData)
    ensures
        spec_convert_smf(smf).len() >= 1,
        spec_convert_smf(smf)[0] == (RecordModel::Header {
            version: Version { major: 1, minor: 0 },
        }),
        forall|i: int, j: int|
            1 <= i <= j < spec_convert_smf(smf).len() ==> (spec_final_key(
                #[trigger] spec_convert_smf(smf)[i],
            ) <= spec_final_key(#[trigger] spec_convert_smf(smf)[j])),
{
    let ppq = spec_effective_ppq(smf.timing);
    let sorted = spec_sort_records(
        spec_timed_records(
            spec_sort_ticks(
                spec_all_events(smf.tracks@, 0, smf.format == SmfFormat::SingleTrack, ppq),
            ),
            ppq,
        ),
    );
    lemma_sort_records_permutes_and_orders(
        spec_timed_records(
            spec_sort_ticks(
                spec_all_events(smf.tracks@, 0, smf.format == SmfFormat::SingleTrack, ppq),
            ),
            ppq,
        ),
    );
    let whole = spec_convert_smf(smf);
    assert forall|i: int, j: int|
        1 <= i <= j < whole.len() implies spec_final_key(#[trigger] whole[i]) <= spec_final_key(
        #[trigger] whole[j],
    ) by {
        assert(whole[i] == sorted[i - 1]);
        assert(whole[j] == sorted[j - 1]);
    }
}

/// Whether every open-note slot is a valid combined `(channel, key)` pair.
pub open spec fn spec_open_slots_ok(open: Seq<OpenNote>) -> bool {
    forall|k: int| 0 <= k < open.len() ==> (#[trigger] open[k]).slot <= 2047
}

/// One channel-voice step keeps every open-note slot in range.
proof fn lemma_midi_step_slots(
    open: Seq<OpenNote>,
    out: Seq<TickEventModel>,
    channel: u8,
    message: ChannelMessage,
    tick: u64,
)
    requires
        channel <= 15,
        match message {
            ChannelMessage::NoteOn { key, vel } => key <= 127,
            ChannelMessage::NoteOff { key, vel } => key <= 127,
            _ => true,
        },
        spec_open_slots_ok(open),
    ensures
        spec_open_slots_ok(spec_midi_step(open, out, channel, message, tick).0),
{
    let open2 = spec_midi_step(open, out, channel, message, tick).0;
    match message {
        ChannelMessage::NoteOn { key, vel } => {
            let slot = spec_slot(channel, key);
            assert(slot <= 2047);
            if vel > 0 {
                let idx = spec_open_find(open, slot);
                lemma_open_find(open, slot);
                assert forall|k: int| 0 <= k < open2.len() implies (#[trigger] open2[k]).slot
                    <= 2047 by {
                    if idx >= 0 {
                        if k != idx {
                            assert(open2[k] == open[k]);
                        }
                    } else {
                        if k < open.len() {
                            assert(open2[k] == open[k]);
                        }
                    }
                }
            } else {
                let idx = spec_open_find(open, slot);
                lemma_open_find(open, slot);
                if idx >= 0 {
                    assert forall|k: int| 0 <= k < open2.len() implies (#[trigger] open2[k]).slot
                        <= 2047 by {
                        if k < idx {
                            assert(open2[k] == open[k]);
                        } else {
                            assert(open2[k] == open[k + 1]);
                        }
                    }
                }
            }
        },
        ChannelMessage::NoteOff { key, vel } => {
            let slot = spec_slot(channel, key);
            let idx = spec_open_find(open, slot);
            lemma_open_find(open, slot);
            if idx >= 0 {
                assert forall|k: int| 0 <= k < open2.len() implies (#[trigger] open2[k]).slot
                    <= 2047 by {
                    if k < idx {
                        assert(open2[k] == open[k]);
                    } else {
                        assert(open2[k] == open[k + 1]);
                    }
                }
            }
        },
        _ => {
            assert(open2 == open);
        },
    }
}

/// Model of a concatenation of tick-event lists.
proof fn lemma_tick_events_model_concat(a: Seq<TickEvent>, b: Seq<TickEvent>)
    ensures
        spec_tick_events_model(a + b) == spec_tick_events_model(a) + spec_tick_events_model(b),
{
    assert(spec_tick_events_model(a + b) =~= spec_tick_events_model(a) + spec_tick_events_model(
        b,
    ));
}

/// Model of a concatenation of record lists.
proof fn lemma_records_model_concat(a: Seq<MtxtRecord>, b: Seq<MtxtRecord>)
    ensures
        spec_records_model(a + b) == spec_records_model(a) + spec_records_model(b),
{
    assert(spec_records_model(a + b) =~= spec_records_model(a) + spec_records_model(b));
}

/// Translates a parsed SMF to its MTXT record stream. On well-formed input
/// the translation always succeeds, and the records are exactly what
/// `spec_convert_smf` describes: a version header followed by the merged,
/// paired and beat-timed events in the final stable order.
#[verifier::rlimit(100)]
pub fn convert_smf_to_mtxt(smf: &SmfData) -> (r: Result<MtxtFile, MtxtError>)
    requires
        crate::smf::spec_smf_valid(*smf),
        spec_tracks_sized(smf.tracks@),
    ensures
        r is Ok,
        spec_records_model(r->Ok_0.records@) == spec_convert_smf(*smf),
{
    let ppq: u16 = match smf.timing {
        SmfTiming::Metrical(p) => if p >= 1 {
            p
        } else {
            FALLBACK_PPQ
        },
        SmfTiming::Timecode => FALLBACK_PPQ,
    };
    let single_track: bool = match smf.format {
        SmfFormat::SingleTrack => true,
        _ => false,
    };
    proof {
        assert(ppq == spec_effective_ppq(smf.timing));
        assert(single_track == (smf.format == SmfFormat::SingleTrack));
    }
    let mut all_events: Vec<TickEvent> = Vec::new();
    let mut t: usize = 0;
    proof {
        assert(spec_tick_events_model(all_events@) =~= Seq::<TickEventModel>::empty());
    }
    while t < smf.tracks.len()
        invariant
            0 <= t <= smf.tracks@.len(),
            crate::smf::spec_smf_valid(*smf),
            spec_tracks_sized(smf.tracks@),
            ppq >= 1,
            ppq == spec_effective_ppq(smf.timing),
            single_track == (smf.format == SmfFormat::SingleTrack),
            spec_all_events(smf.tracks@, 0, single_track, ppq) == spec_tick_events_model(
                all_events@,
            ) + spec_all_events(smf.tracks@, t as int, single_track, ppq),
        decreases smf.tracks@.len() - t,
    {
        let track = &smf.tracks[t];
        let is_first = t == 0;
        let tc = track_channel_of(track, single_track);
        let mut open: Vec<OpenNote> = Vec::new();
        let mut out: Vec<TickEvent> = Vec::new();
        let mut abs: u64 = 0;
        let mut i: usize = 0;
        proof {
            assert(spec_tick_events_model(out@) =~= Seq::<TickEventModel>::empty());
            assert((open@, spec_tick_events_model(out@), abs as int) == spec_track_prefix(
                track@,
                0,
                is_first,
                tc,
            ));
        }
        while i < track.len()
            invariant
                0 <= i <= track@.len(),
                track@.len() <= 0x1_0000_0000,
                forall|j: int|
                    0 <= j < track@.len() ==> crate::smf::spec_event_valid(#[trigger] track@[j]),
                abs <= (i as int) * 0x0FFF_FFFF,
                (open@, spec_tick_events_model(out@), abs as int) == spec_track_prefix(
                    track@,
                    i as int,
                    is_first,
                    tc,
                ),
                spec_open_slots_ok(open@),
            decreases track@.len() - i,
        {
            let ghost st_pre = (open@, spec_tick_events_model(out@), abs as int);
            let ev = &track[i];
            proof {
                assert(crate::smf::spec_event_valid(track@[i as int]));
                assert((i as int + 1) * 0x0FFF_FFFF <= 0x1_0000_0001 * 0x0FFF_FFFF)
                    by (nonlinear_arith)
                    requires
                        i as int + 1 <= 0x1_0000_0001,
                ;
                assert((i as int) * 0x0FFF_FFFF + 0x0FFF_FFFF == (i as int + 1) * 0x0FFF_FFFF)
                    by (nonlinear_arith);
            }
            let new_abs: u64 = abs + ev.delta as u64;
            match &ev.kind {
                SmfEventKind::Midi { channel, message } => {
                    convert_midi_message_to_tick_events(
                        message,
                        *channel,
                        &mut open,
                        new_abs,
                        &mut out,
                    );
                    proof {
                        lemma_midi_step_slots(
                            st_pre.0,
                            st_pre.1,
                            *channel,
                            *message,
                            new_abs,
                        );
                    }
                },
                SmfEventKind::Meta(m) => {
                    match convert_meta_message(m, new_abs, is_first, tc) {
                        Some(rec) => {
                            let tick_ev = TickEvent::Other { tick: new_abs, record: rec };
                            proof {
                                lemma_tick_events_model_push(out@, tick_ev);
                            }
                            out.push(tick_ev);
                        },
                        None => {},
                    }
                },
                SmfEventKind::SysEx(d) => {
                    let data = crate::text::copy_bytes(d);
                    let tick_ev = TickEvent::Other {
                        tick: new_abs,
                        record: MtxtRecord::SysEx { time: BeatTime::zero(), data },
                    };
                    proof {
                        lemma_tick_events_model_push(out@, tick_ev);
                    }
                    out.push(tick_ev);
                },
                SmfEventKind::Escape(d) => {},
            }
            proof {
                assert((open@, spec_tick_events_model(out@), new_abs as int) == spec_track_step(
                    st_pre,
                    track@[i as int],
                    is_first,
                    tc,
                ));
            }
            abs = new_abs;
            i = i + 1;
        }
        proof {
            assert(track@.take(track@.len() as int) =~= track@);
        }
        // close the notes still open at the end of the track
        let ghost st_final = spec_track_prefix(track@, track@.len() as int, is_first, tc);
        let ghost target = st_final.1 + spec_leftover_events(st_final.0, ppq);
        proof {
            assert(target == spec_tick_events_model(out@) + spec_leftover_events(open@, ppq));
        }
        while open.len() > 0
            invariant
                ppq >= 1,
                spec_open_slots_ok(open@),
                target == spec_tick_events_model(out@) + spec_leftover_events(open@, ppq),
            decreases open@.len(),
        {
            let ghost open_pre = open@;
            let entry = open[0];
            open.remove(0);
            proof {
                assert(open@ =~= open_pre.drop_first());
                assert(open_pre[0].slot <= 2047);
            }
            let key: u8 = (entry.slot % 128) as u8;
            let note = match midi_key_to_note(key) {
                Ok(n) => n,
                Err(e) => {
                    proof {
                        assert(false);
                    }
                    return Err(e);
                },
            };
            let end_tick = crate::beat_expression::saturating_add_u64(
                entry.start_tick,
                ppq as u64,
            );
            let tick_ev = TickEvent::Note {
                start_tick: entry.start_tick,
                end_tick,
                note,
                velocity: entry.velocity,
                off_velocity: 0,
                channel: entry.slot / 128,
            };
            proof {
                lemma_tick_events_model_push(out@, tick_ev);
                assert(spec_leftover_events(open_pre, ppq) == seq![
                    spec_tick_event_model(tick_ev),
                ] + spec_leftover_events(open@, ppq));
            }
            out.push(tick_ev);
            proof {
                assert(spec_tick_events_model(out@) + spec_leftover_events(open@, ppq) =~= target);
            }
        }
        proof {
            assert(spec_leftover_events(open@, ppq) =~= Seq::<TickEventModel>::empty());
            assert(spec_tick_events_model(out@) =~= target);
            assert(spec_track_events(track@, is_first, tc, ppq) == target);
        }
        let ghost all_pre = all_events@;
        let ghost out_final = out@;
        all_events.append(&mut out);
        proof {
            assert(all_events@ == all_pre + out_final);
            lemma_tick_events_model_concat(all_pre, out_final);
            assert(spec_all_events(smf.tracks@, t as int, single_track, ppq) == spec_track_events(
                smf.tracks@[t as int]@,
                t == 0,
                spec_track_channel(smf.tracks@[t as int]@, single_track),
                ppq,
            ) + spec_all_events(smf.tracks@, t as int + 1, single_track, ppq));
            assert(spec_tick_events_model(all_events@) + spec_all_events(
                smf.tracks@,
                t as int + 1,
                single_track,
                ppq,
            ) =~= spec_all_events(smf.tracks@, 0, single_track, ppq));
        }
        t = t + 1;
    }
    proof {
        assert(spec_all_events(smf.tracks@, t as int, single_track, ppq) =~= Seq::<
            TickEventModel,
        >::empty());
        assert(spec_tick_events_model(all_events@) + Seq::<TickEventModel>::empty()
            =~= spec_tick_events_model(all_events@));
    }
    let sorted = sort_tick_events(all_events);
    let timed = assign_beat_times(sorted, ppq);
    let mut sorted_records = sort_records(timed);
    let mut records: Vec<MtxtRecord> = Vec::new();
    records.push(MtxtRecord::Header { version: Version { major: 1, minor: 0 } });
    let ghost header_only = records@;
    let ghost sorted_final = sorted_records@;
    records.append(&mut sorted_records);
    proof {
        lemma_records_model_concat(header_only, sorted_final);
        assert(spec_records_model(header_only) =~= seq![
            RecordModel::Header { version: Version { major: 1, minor: 0 } },
        ]);
        assert(spec_records_model(records@) =~= spec_convert_smf(*smf));
    }
    Ok(MtxtFile { records })
}

} // verus!
