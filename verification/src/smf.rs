//! The plain-value model of a parsed Standard MIDI File: the shape the
//! bit-level parser and emitter exchange with the translation core — a
//! format, a timing mode, and tracks of `(delta_ticks, event)` pairs.

use vstd::prelude::*;

verus! {

/// The SMF container format.
#[derive(Debug, Clone, Copy, PartialEq, Eq, Structural)]
pub enum SmfFormat {
    SingleTrack,
    Parallel,
    Sequential,
}

/// The SMF timing mode: metrical ticks per quarter note, or SMPTE timecode
/// (which the core degrades to a default resolution).
#[derive(Debug, Clone, Copy, PartialEq, Eq, Structural)]
pub enum SmfTiming {
    Metrical(u16),
    Timecode,
}

/// A channel-voice message.
#[derive(Debug, Clone, Copy, PartialEq, Eq, Structural)]
pub enum ChannelMessage {
    NoteOn { key: u8, vel: u8 },
    NoteOff { key: u8, vel: u8 },
    Controller { controller: u8, value: u8 },
    ProgramChange { program: u8 },
    PitchBend { bend: u16 },
    Aftertouch { key: u8, vel: u8 },
    ChannelAftertouch { vel: u8 },
}

/// An SMPTE offset, carried through as text.
#[derive(Debug, Clone, Copy, PartialEq, Eq, Structural)]
pub struct SmpteOffsetData {
    pub hour: u8,
    pub minute: u8,
    pub second: u8,
    pub frame: u8,
    pub subframe: u8,
}

/// An SMF meta message; text payloads are raw bytes as the file holds them.
#[derive(Debug, Clone, PartialEq)]
pub enum SmfMetaMessage {
    TrackNumber(Option<u16>),
    Text(Vec<u8>),
    Copyright(Vec<u8>),
    TrackName(Vec<u8>),
    InstrumentName(Vec<u8>),
    Lyric(Vec<u8>),
    Marker(Vec<u8>),
    CuePoint(Vec<u8>),
    ProgramName(Vec<u8>),
    DeviceName(Vec<u8>),
    MidiChannel(u8),
    MidiPort(u8),
    EndOfTrack,
    Tempo(u32),
    SmpteOffset(SmpteOffsetData),
    TimeSignature(u8, u8, u8, u8),
    KeySignature(i8, bool),
    SequencerSpecific(Vec<u8>),
    Unknown(u8, Vec<u8>),
}

/// One SMF track event kind.
#[derive(Debug, Clone, PartialEq)]
pub enum SmfEventKind {
    Midi { channel: u8, message: ChannelMessage },
    SysEx(Vec<u8>),
    Escape(Vec<u8>),
    Meta(SmfMetaMessage),
}

/// One SMF track event: a tick delta and the event.
#[derive(Debug, Clone, PartialEq)]
pub struct SmfTrackEvent {
    pub delta: u32,
    pub kind: SmfEventKind,
}

/// A parsed SMF: format, timing, and the tracks.
#[derive(Debug, Clone, PartialEq)]
pub struct SmfData {
    pub format: SmfFormat,
    pub timing: SmfTiming,
    pub tracks: Vec<Vec<SmfTrackEvent>>,
}

/// The mathematical model of a meta message: payloads as byte sequences.
pub enum MetaModel {
    TrackNumber(Option<u16>),
    Text(Seq<u8>),
    Copyright(Seq<u8>),
    TrackName(Seq<u8>),
    InstrumentName(Seq<u8>),
    Lyric(Seq<u8>),
    Marker(Seq<u8>),
    CuePoint(Seq<u8>),
    ProgramName(Seq<u8>),
    DeviceName(Seq<u8>),
    MidiChannel(u8),
    MidiPort(u8),
    EndOfTrack,
    Tempo(u32),
    SmpteOffset(SmpteOffsetData),
    TimeSignature(u8, u8, u8, u8),
    KeySignature(i8, bool),
    SequencerSpecific(Seq<u8>),
    Unknown(u8, Seq<u8>),
}

/// The mathematical model of an event kind.
pub enum EventKindModel {
    Midi { channel: u8, message: ChannelMessage },
    SysEx(Seq<u8>),
    Escape(Seq<u8>),
    Meta(MetaModel),
}

/// The mathematical model of a track event.
pub struct EventModel {
    pub delta: u32,
    pub kind: EventKindModel,
}

/// The model of a meta message.
pub open spec fn spec_meta_model(m: SmfMetaMessage) -> MetaModel {
    match m {
        SmfMetaMessage::TrackNumber(n) => MetaModel::TrackNumber(n),
        SmfMetaMessage::Text(v) => MetaModel::Text(v@),
        SmfMetaMessage::Copyright(v) => MetaModel::Copyright(v@),
        SmfMetaMessage::TrackName(v) => MetaModel::TrackName(v@),
        SmfMetaMessage::InstrumentName(v) => MetaModel::InstrumentName(v@),
        SmfMetaMessage::Lyric(v) => MetaModel::Lyric(v@),
        SmfMetaMessage::Marker(v) => MetaModel::Marker(v@),
        SmfMetaMessage::CuePoint(v) => MetaModel::CuePoint(v@),
        SmfMetaMessage::ProgramName(v) => MetaModel::ProgramName(v@),
        SmfMetaMessage::DeviceName(v) => MetaModel::DeviceName(v@),
        SmfMetaMessage::MidiChannel(c) => MetaModel::MidiChannel(c),
        SmfMetaMessage::MidiPort(p) => MetaModel::MidiPort(p),
        SmfMetaMessage::EndOfTrack => MetaModel::EndOfTrack,
        SmfMetaMessage::Tempo(us) => MetaModel::Tempo(us),
        SmfMetaMessage::SmpteOffset(d) => MetaModel::SmpteOffset(d),
        SmfMetaMessage::TimeSignature(a, b, c, d) => MetaModel::TimeSignature(a, b, c, d),
        SmfMetaMessage::KeySignature(sf, minor) => MetaModel::KeySignature(sf, minor),
        SmfMetaMessage::SequencerSpecific(v) => MetaModel::SequencerSpecific(v@),
        SmfMetaMessage::Unknown(t, v) => MetaModel::Unknown(t, v@),
    }
}

/// The model of an event kind.
pub open spec fn spec_kind_model(k: SmfEventKind) -> EventKindModel {
    match k {
        SmfEventKind::Midi { channel, message } => EventKindModel::Midi { channel, message },
        SmfEventKind::SysEx(v) => EventKindModel::SysEx(v@),
        SmfEventKind::Escape(v) => EventKindModel::Escape(v@),
        SmfEventKind::Meta(m) => EventKindModel::Meta(spec_meta_model(m)),
    }
}

/// The model of a track event.
pub open spec fn spec_event_model(e: SmfTrackEvent) -> EventModel {
    EventModel { delta: e.delta, kind: spec_kind_model(e.kind) }
}

/// The model of an event list.
pub open spec fn spec_events_model(s: Seq<SmfTrackEvent>) -> Seq<EventModel> {
    s.map_values(|e: SmfTrackEvent| spec_event_model(e))
}

/// The largest delta a variable-length SMF quantity can carry.
pub const MAX_DELTA_TICKS: u32 = 0x0FFF_FFFF;

/// Well-formedness of one event: the ranges the SMF encoding guarantees.
pub open spec fn spec_event_valid(e: SmfTrackEvent) -> bool {
    &&& e.delta <= MAX_DELTA_TICKS
    &&& match e.kind {
        SmfEventKind::Midi { channel, message } => {
            &&& channel <= 15
            &&& match message {
                ChannelMessage::NoteOn { key, vel } => key <= 127 && vel <= 127,
                ChannelMessage::NoteOff { key, vel } => key <= 127 && vel <= 127,
                ChannelMessage::Controller { controller, value } => controller <= 127 && value
                    <= 127,
                ChannelMessage::ProgramChange { program } => program <= 127,
                ChannelMessage::PitchBend { bend } => bend <= 16383,
                ChannelMessage::Aftertouch { key, vel } => key <= 127 && vel <= 127,
                ChannelMessage::ChannelAftertouch { vel } => vel <= 127,
            }
        },
        SmfEventKind::Meta(m) => match m {
            SmfMetaMessage::Tempo(us) => us <= 0x00FF_FFFF,
            SmfMetaMessage::MidiChannel(c) => c <= 15,
            SmfMetaMessage::MidiPort(p) => p <= 127,
            SmfMetaMessage::TimeSignature(n, d, c, b) => d <= 7,
            _ => true,
        },
        _ => true,
    }
}

/// Well-formedness of a whole parsed file.
pub open spec fn spec_smf_valid(smf: SmfData) -> bool {
    forall|t: int, i: int|
        0 <= t < smf.tracks@.len() && 0 <= i < smf.tracks@[t]@.len() ==> spec_event_valid(
            #[trigger] smf.tracks@[t]@[i],
        )
}

} // verus!
