//! Whole-pipeline round trips: forward then reverse and back, checking that
//! the event taxonomy, channels, pairings and times survive.

use mtxt::forward::convert_smf_to_mtxt;
use mtxt::notes::{Accidental, Note, NoteLetter, NoteTarget};
use mtxt::ratio::Ratio;
use mtxt::records::{MtxtOutputRecord, MtxtRecord};
use mtxt::reverse::convert_output_records_to_midi;
use mtxt::smf::{
    ChannelMessage, SmfData, SmfEventKind, SmfFormat, SmfMetaMessage, SmfTiming, SmfTrackEvent,
};

fn middle_c() -> Note {
    Note { letter: NoteLetter::C, accidental: Accidental::Natural, octave: 4 }
}

/// Expands the forward translation of a simple file into output records the
/// way the record-stream expansion does: notes split into on and off, beats
/// turned into microseconds at a fixed 120 beats per minute.
fn expand_at_120_bpm(records: &[MtxtRecord]) -> Vec<MtxtOutputRecord> {
    let mut out = Vec::new();
    for r in records {
        match r {
            MtxtRecord::Header { .. } => {},
            MtxtRecord::Tempo { time, bpm, .. } => {
                out.push(MtxtOutputRecord::Tempo { time: time.nanos / 2000, bpm: *bpm });
            },
            MtxtRecord::Note { time, note, duration, velocity, off_velocity, channel } => {
                let n = match note {
                    NoteTarget::Note(n) => *n,
                    other => panic!("expected a single note, got {:?}", other),
                };
                let start = time.nanos / 2000;
                let end = (time.nanos + duration.unwrap().nanos) / 2000;
                out.push(MtxtOutputRecord::NoteOn {
                    time: start,
                    note: n,
                    velocity: velocity.unwrap(),
                    channel: channel.unwrap(),
                });
                out.push(MtxtOutputRecord::NoteOff {
                    time: end,
                    note: n,
                    off_velocity: off_velocity.unwrap(),
                    channel: channel.unwrap(),
                });
            },
            MtxtRecord::ControlChange { time, controller, value, channel, .. } => {
                out.push(MtxtOutputRecord::ControlChange {
                    time: time.nanos / 2000,
                    controller: controller.clone(),
                    value: *value,
                    channel: channel.unwrap(),
                });
            },
            other => panic!("unexpected record {:?}", other),
        }
    }
    out.sort_by_key(|r| match r {
        MtxtOutputRecord::NoteOn { time, .. } => *time,
        MtxtOutputRecord::NoteOff { time, .. } => *time,
        MtxtOutputRecord::ControlChange { time, .. } => *time,
        MtxtOutputRecord::Tempo { time, .. } => *time,
        _ => 0,
    });
    out
}

#[test]
fn smf_to_mtxt_and_back_is_semantically_equal() {
    let original = vec![
        SmfTrackEvent {
            delta: 0,
            kind: SmfEventKind::Midi {
                channel: 3,
                message: ChannelMessage::Controller { controller: 7, value: 100 },
            },
        },
        SmfTrackEvent {
            delta: 0,
            kind: SmfEventKind::Midi {
                channel: 0,
                message: ChannelMessage::NoteOn { key: 60, vel: 100 },
            },
        },
        SmfTrackEvent {
            delta: 480,
            kind: SmfEventKind::Midi {
                channel: 0,
                message: ChannelMessage::NoteOff { key: 60, vel: 0 },
            },
        },
    ];
    let smf = SmfData {
        format: SmfFormat::SingleTrack,
        timing: SmfTiming::Metrical(480),
        tracks: vec![original.clone()],
    };
    let file = convert_smf_to_mtxt(&smf).unwrap();
    let expanded = expand_at_120_bpm(&file.records);
    let back = convert_output_records_to_midi(&expanded).unwrap();
    let track = &back.tracks[0];

    // same taxonomy, channels and tick positions as the original
    let mut abs: u64 = 0;
    let mut events = Vec::new();
    for ev in track.iter() {
        abs += ev.delta as u64;
        if let SmfEventKind::Midi { channel, message } = &ev.kind {
            events.push((abs, *channel, *message));
        }
    }
    let mut expected_abs: u64 = 0;
    let mut expected = Vec::new();
    for ev in &original {
        expected_abs += ev.delta as u64;
        if let SmfEventKind::Midi { channel, message } = &ev.kind {
            expected.push((expected_abs, *channel, *message));
        }
    }
    assert_eq!(events, expected);
}

#[test]
fn mtxt_to_smf_and_back_keeps_record_shape() {
    let records = vec![
        MtxtOutputRecord::Tempo { time: 0, bpm: Ratio { num: 120, den: 1 } },
        MtxtOutputRecord::NoteOn {
            time: 0,
            note: middle_c(),
            velocity: Ratio { num: 100, den: 127 },
            channel: 0,
        },
        MtxtOutputRecord::NoteOff {
            time: 500_000,
            note: middle_c(),
            off_velocity: Ratio { num: 0, den: 127 },
            channel: 0,
        },
    ];
    let smf = convert_output_records_to_midi(&records).unwrap();
    let file = convert_smf_to_mtxt(&smf).unwrap();

    assert!(matches!(file.records[0], MtxtRecord::Header { .. }));
    match &file.records[1] {
        MtxtRecord::Tempo { time, bpm, .. } => {
            assert_eq!(time.nanos, 0);
            assert_eq!((bpm.num as f64 / bpm.den as f64).round() as i64, 120);
        },
        other => panic!("expected a tempo, got {:?}", other),
    }
    match &file.records[2] {
        MtxtRecord::Note { time, note, duration, velocity, channel, .. } => {
            assert_eq!(time.nanos, 0);
            assert_eq!(*note, NoteTarget::Note(middle_c()));
            assert_eq!(duration.unwrap().nanos, 1_000_000_000);
            assert_eq!(velocity.unwrap().num, 100);
            assert_eq!(*channel, Some(0));
        },
        other => panic!("expected a note, got {:?}", other),
    }
}

#[test]
fn sysex_survives_both_directions() {
    let payload = vec![0x7Eu8, 0x00, 0x09, 0x01];
    let records = vec![MtxtOutputRecord::SysEx { time: 0, data: payload.clone() }];
    let smf = convert_output_records_to_midi(&records).unwrap();
    let file = convert_smf_to_mtxt(&smf).unwrap();
    match &file.records[1] {
        MtxtRecord::SysEx { data, .. } => assert_eq!(*data, payload),
        other => panic!("expected system-exclusive data, got {:?}", other),
    }
}
