//! The MTXT record taxonomy: the canonical record stream a file holds, and
//! the flattened, microsecond-timed output records the reverse translator
//! consumes.

use vstd::prelude::*;

use crate::beat_time::BeatTime;
use crate::notes::{Note, NoteTarget};
use crate::ratio::Ratio;

verus! {

/// A file format version.
#[derive(Debug, Clone, Copy, PartialEq, Eq, Structural)]
pub struct Version {
    pub major: u32,
    pub minor: u32,
}

/// A time signature with a true (not log-two) denominator.
#[derive(Debug, Clone, Copy, PartialEq, Eq, Structural)]
pub struct TimeSignature {
    pub numerator: u8,
    pub denominator: u8,
}

/// One canonical MTXT record. Timed records carry a beat position; a `Meta`
/// without a time is a file-level annotation.
#[derive(Debug, Clone, PartialEq)]
pub enum MtxtRecord {
    Header { version: Version },
    GlobalMeta { meta_type: String, value: String },
    Meta { time: Option<BeatTime>, channel: Option<u16>, meta_type: String, value: String },
    Note {
        time: BeatTime,
        note: NoteTarget,
        duration: Option<BeatTime>,
        velocity: Option<Ratio>,
        off_velocity: Option<Ratio>,
        channel: Option<u16>,
    },
    NoteOn { time: BeatTime, note: NoteTarget, velocity: Option<Ratio>, channel: Option<u16> },
    NoteOff { time: BeatTime, note: NoteTarget, off_velocity: Option<Ratio>, channel: Option<u16> },
    ControlChange {
        time: BeatTime,
        note: Option<NoteTarget>,
        controller: String,
        value: Ratio,
        channel: Option<u16>,
        transition_curve: Option<String>,
        transition_time: Option<BeatTime>,
        transition_interval: Option<BeatTime>,
    },
    Voice { time: BeatTime, voices: Vec<String>, channel: Option<u16> },
    Tempo {
        time: BeatTime,
        bpm: Ratio,
        transition_curve: Option<String>,
        transition_time: Option<BeatTime>,
        transition_interval: Option<BeatTime>,
    },
    TimeSignature { time: BeatTime, signature: TimeSignature },
    SysEx { time: BeatTime, data: Vec<u8> },
}

/// An MTXT file: its records in order.
#[derive(Debug, Clone, PartialEq)]
pub struct MtxtFile {
    pub records: Vec<MtxtRecord>,
}

impl MtxtFile {
    /// An empty file.
    pub fn new() -> (r: MtxtFile)
        ensures
            r.records@.len() == 0,
    {
        MtxtFile { records: Vec::new() }
    }
}

/// The mathematical model of a note target.
pub enum NoteTargetModel {
    Note(Note),
    Rest,
    Chord(Seq<Note>),
}

/// The mathematical model of a canonical record: text as character
/// sequences, byte payloads as byte sequences.
pub enum RecordModel {
    Header { version: Version },
    GlobalMeta { meta_type: Seq<char>, value: Seq<char> },
    Meta { time: Option<BeatTime>, channel: Option<u16>, meta_type: Seq<char>, value: Seq<char> },
    Note {
        time: BeatTime,
        note: NoteTargetModel,
        duration: Option<BeatTime>,
        velocity: Option<Ratio>,
        off_velocity: Option<Ratio>,
        channel: Option<u16>,
    },
    NoteOn { time: BeatTime, note: NoteTargetModel, velocity: Option<Ratio>, channel: Option<u16> },
    NoteOff {
        time: BeatTime,
        note: NoteTargetModel,
        off_velocity: Option<Ratio>,
        channel: Option<u16>,
    },
    ControlChange {
        time: BeatTime,
        note: Option<NoteTargetModel>,
        controller: Seq<char>,
        value: Ratio,
        channel: Option<u16>,
        transition_curve: Option<Seq<char>>,
        transition_time: Option<BeatTime>,
        transition_interval: Option<BeatTime>,
    },
    Voice { time: BeatTime, voices: Seq<Seq<char>>, channel: Option<u16> },
    Tempo {
        time: BeatTime,
        bpm: Ratio,
        transition_curve: Option<Seq<char>>,
        transition_time: Option<BeatTime>,
        transition_interval: Option<BeatTime>,
    },
    TimeSignature { time: BeatTime, signature: TimeSignature },
    SysEx { time: BeatTime, data: Seq<u8> },
}

/// The model of a note target.
pub open spec fn spec_note_target_model(t: NoteTarget) -> NoteTargetModel {
    match t {
        NoteTarget::Note(n) => NoteTargetModel::Note(n),
        NoteTarget::Rest => NoteTargetModel::Rest,
        NoteTarget::Chord(v) => NoteTargetModel::Chord(v@),
    }
}

/// The model of an optional text.
pub open spec fn spec_opt_text_model(t: Option<String>) -> Option<Seq<char>> {
    match t {
        Some(s) => Some(s@),
        None => None,
    }
}

/// The model of a record.
pub open spec fn spec_record_model(r: MtxtRecord) -> RecordModel {
    match r {
        MtxtRecord::Header { version } => RecordModel::Header { version },
        MtxtRecord::GlobalMeta { meta_type, value } => RecordModel::GlobalMeta {
            meta_type: meta_type@,
            value: value@,
        },
        MtxtRecord::Meta { time, channel, meta_type, value } => RecordModel::Meta {
            time,
            channel,
            meta_type: meta_type@,
            value: value@,
        },
        MtxtRecord::Note { time, note, duration, velocity, off_velocity, channel } => {
            RecordModel::Note {
                time,
                note: spec_note_target_model(note),
                duration,
                velocity,
                off_velocity,
                channel,
            }
        },
        MtxtRecord::NoteOn { time, note, velocity, channel } => RecordModel::NoteOn {
            time,
            note: spec_note_target_model(note),
            velocity,
            channel,
        },
        MtxtRecord::NoteOff { time, note, off_velocity, channel } => RecordModel::NoteOff {
            time,
            note: spec_note_target_model(note),
            off_velocity,
            channel,
        },
        MtxtRecord::ControlChange {
            time,
            note,
            controller,
            value,
            channel,
            transition_curve,
            transition_time,
            transition_interval,
        } => RecordModel::ControlChange {
            time,
            note: match note {
                Some(n) => Some(spec_note_target_model(n)),
                None => None,
            },
            controller: controller@,
            value,
            channel,
            transition_curve: spec_opt_text_model(transition_curve),
            transition_time,
            transition_interval,
        },
        MtxtRecord::Voice { time, voices, channel } => RecordModel::Voice {
            time,
            voices: voices@.map_values(|s: String| s@),
            channel,
        },
        MtxtRecord::Tempo { time, bpm, transition_curve, transition_time, transition_interval } => {
            RecordModel::Tempo {
                time,
                bpm,
                transition_curve: spec_opt_text_model(transition_curve),
                transition_time,
                transition_interval,
            }
        },
        MtxtRecord::TimeSignature { time, signature } => RecordModel::TimeSignature {
            time,
            signature,
        },
        MtxtRecord::SysEx { time, data } => RecordModel::SysEx { time, data: data@ },
    }
}

/// The model of a record list.
pub open spec fn spec_records_model(s: Seq<MtxtRecord>) -> Seq<RecordModel> {
    s.map_values(|r: MtxtRecord| spec_record_model(r))
}

/// One flattened output record, timed in absolute microseconds.
#[derive(Debug, Clone, PartialEq)]
pub enum MtxtOutputRecord {
    NoteOn { time: u64, note: Note, velocity: Ratio, channel: u16 },
    NoteOff { time: u64, note: Note, off_velocity: Ratio, channel: u16 },
    ControlChange { time: u64, controller: String, value: Ratio, channel: u16 },
    Voice { time: u64, voices: Vec<String>, channel: u16 },
    Tempo { time: u64, bpm: Ratio },
    TimeSignature { time: u64, signature: TimeSignature },
    GlobalMeta { time: u64, meta_type: String, value: String },
    ChannelMeta { time: u64, meta_type: String, value: String, channel: u16 },
    SysEx { time: u64, data: Vec<u8> },
    Reset { time: u64 },
    Beat { time: u64 },
}

/// The absolute microsecond time of an output record.
pub open spec fn spec_out_time(r: MtxtOutputRecord) -> u64 {
    match r {
        MtxtOutputRecord::NoteOn { time, .. } => time,
        MtxtOutputRecord::NoteOff { time, .. } => time,
        MtxtOutputRecord::ControlChange { time, .. } => time,
        MtxtOutputRecord::Voice { time, .. } => time,
        MtxtOutputRecord::Tempo { time, .. } => time,
        MtxtOutputRecord::TimeSignature { time, .. } => time,
        MtxtOutputRecord::GlobalMeta { time, .. } => time,
        MtxtOutputRecord::ChannelMeta { time, .. } => time,
        MtxtOutputRecord::SysEx { time, .. } => time,
        MtxtOutputRecord::Reset { time } => time,
        MtxtOutputRecord::Beat { time } => time,
    }
}

impl MtxtOutputRecord {
    /// The record's absolute time in microseconds.
    pub fn time(&self) -> (t: u64)
        ensures
            t == spec_out_time(*self),
    {
        match self {
            MtxtOutputRecord::NoteOn { time, .. } => *time,
            MtxtOutputRecord::NoteOff { time, .. } => *time,
            MtxtOutputRecord::ControlChange { time, .. } => *time,
            MtxtOutputRecord::Voice { time, .. } => *time,
            MtxtOutputRecord::Tempo { time, .. } => *time,
            MtxtOutputRecord::TimeSignature { time, .. } => *time,
            MtxtOutputRecord::GlobalMeta { time, .. } => *time,
            MtxtOutputRecord::ChannelMeta { time, .. } => *time,
            MtxtOutputRecord::SysEx { time, .. } => *time,
            MtxtOutputRecord::Reset { time } => *time,
            MtxtOutputRecord::Beat { time } => *time,
        }
    }
}

} // verus!
