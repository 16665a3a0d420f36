use mtxt::beat_time::BeatTime;
use mtxt::forward::convert_smf_to_mtxt;
use mtxt::notes::{Accidental, Note, NoteLetter, NoteTarget};
use mtxt::ratio::Ratio;
use mtxt::records::MtxtRecord;
use mtxt::smf::{
    ChannelMessage, SmfData, SmfEventKind, SmfFormat, SmfMetaMessage, SmfTiming, SmfTrackEvent,
};

fn midi(delta: u32, channel: u8, message: ChannelMessage) -> SmfTrackEvent {
    SmfTrackEvent { delta, kind: SmfEventKind::Midi { channel, message } }
}

fn meta(delta: u32, m: SmfMetaMessage) -> SmfTrackEvent {
    SmfTrackEvent { delta, kind: SmfEventKind::Meta(m) }
}

fn middle_c() -> Note {
    Note { letter: NoteLetter::C, accidental: Accidental::Natural, octave: 4 }
}

fn ratio_value(r: &Ratio) -> f64 {
    r.num as f64 / r.den as f64
}

#[test]
fn single_middle_c_quarter_note() {
    let smf = SmfData {
        format: SmfFormat::SingleTrack,
        timing: SmfTiming::Metrical(480),
        tracks: vec![vec![
            midi(0, 0, ChannelMessage::NoteOn { key: 60, vel: 100 }),
            midi(480, 0, ChannelMessage::NoteOff { key: 60, vel: 0 }),
        ]],
    };
    let file = convert_smf_to_mtxt(&smf).unwrap();
    assert_eq!(file.records.len(), 2);
    match &file.records[0] {
        MtxtRecord::Header { version } => {
            assert_eq!(version.major, 1);
            assert_eq!(version.minor, 0);
        },
        other => panic!("expected a header, got {:?}", other),
    }
    match &file.records[1] {
        MtxtRecord::Note { time, note, duration, velocity, channel, .. } => {
            assert_eq!(time.nanos, 0);
            assert_eq!(*note, NoteTarget::Note(middle_c()));
            assert_eq!(duration.unwrap().nanos, 1_000_000_000);
            let v = velocity.unwrap();
            assert!((ratio_value(&v) - 0.787).abs() < 1e-3);
            assert_eq!(*channel, Some(0));
        },
        other => panic!("expected a note, got {:?}", other),
    }
}

#[test]
fn tempo_change_maps_to_beats() {
    let smf = SmfData {
        format: SmfFormat::SingleTrack,
        timing: SmfTiming::Metrical(480),
        tracks: vec![vec![
            meta(0, SmfMetaMessage::Tempo(500000)),
            meta(960, SmfMetaMessage::Tempo(1000000)),
        ]],
    };
    let file = convert_smf_to_mtxt(&smf).unwrap();
    assert_eq!(file.records.len(), 3);
    match &file.records[1] {
        MtxtRecord::Tempo { time, bpm, .. } => {
            assert_eq!(time.nanos, 0);
            assert!((ratio_value(bpm) - 120.0).abs() < 1e-9);
        },
        other => panic!("expected a tempo, got {:?}", other),
    }
    match &file.records[2] {
        MtxtRecord::Tempo { time, bpm, .. } => {
            assert_eq!(time.nanos, 2_000_000_000);
            assert!((ratio_value(bpm) - 60.0).abs() < 1e-9);
        },
        other => panic!("expected a tempo, got {:?}", other),
    }
}

#[test]
fn controller_seven_becomes_volume() {
    let smf = SmfData {
        format: SmfFormat::SingleTrack,
        timing: SmfTiming::Metrical(480),
        tracks: vec![vec![
            midi(0, 3, ChannelMessage::Controller { controller: 7, value: 100 }),
        ]],
    };
    let file = convert_smf_to_mtxt(&smf).unwrap();
    match &file.records[1] {
        MtxtRecord::ControlChange { time, controller, value, channel, .. } => {
            assert_eq!(time.nanos, 0);
            assert_eq!(controller, "volume");
            assert!((ratio_value(value) - 0.787).abs() < 1e-3);
            assert_eq!(*channel, Some(3));
        },
        other => panic!("expected a control change, got {:?}", other),
    }
}

#[test]
fn pitch_bend_scales_to_semitones() {
    let smf = SmfData {
        format: SmfFormat::SingleTrack,
        timing: SmfTiming::Metrical(480),
        tracks: vec![vec![
            midi(0, 0, ChannelMessage::PitchBend { bend: 12288 }),
        ]],
    };
    let file = convert_smf_to_mtxt(&smf).unwrap();
    match &file.records[1] {
        MtxtRecord::ControlChange { controller, value, .. } => {
            assert_eq!(controller, "pitch");
            assert!((ratio_value(value) - 6.0).abs() < 1e-9);
        },
        other => panic!("expected a control change, got {:?}", other),
    }
}

#[test]
fn multi_track_channel_inference() {
    let smf = SmfData {
        format: SmfFormat::Parallel,
        timing: SmfTiming::Metrical(480),
        tracks: vec![
            vec![
                meta(0, SmfMetaMessage::TrackName(b"first".to_vec())),
                midi(0, 2, ChannelMessage::ProgramChange { program: 1 }),
            ],
            vec![
                meta(0, SmfMetaMessage::TrackName(b"second".to_vec())),
                midi(0, 5, ChannelMessage::ProgramChange { program: 2 }),
            ],
        ],
    };
    let file = convert_smf_to_mtxt(&smf).unwrap();
    let mut names: Vec<(Option<u16>, String)> = Vec::new();
    for r in &file.records {
        if let MtxtRecord::Meta { channel, meta_type, value, .. } = r {
            if meta_type == "name" {
                names.push((*channel, value.clone()));
            }
        }
    }
    assert_eq!(names.len(), 2);
    assert!(names.contains(&(Some(2), "first".to_string())));
    assert!(names.contains(&(Some(5), "second".to_string())));
}

#[test]
fn empty_smf_gives_header_only() {
    let smf = SmfData {
        format: SmfFormat::SingleTrack,
        timing: SmfTiming::Metrical(480),
        tracks: vec![],
    };
    let file = convert_smf_to_mtxt(&smf).unwrap();
    assert_eq!(file.records.len(), 1);
    assert!(matches!(file.records[0], MtxtRecord::Header { .. }));
}

#[test]
fn unmatched_note_off_is_dropped() {
    let smf = SmfData {
        format: SmfFormat::SingleTrack,
        timing: SmfTiming::Metrical(480),
        tracks: vec![vec![
            midi(0, 0, ChannelMessage::NoteOff { key: 60, vel: 0 }),
        ]],
    };
    let file = convert_smf_to_mtxt(&smf).unwrap();
    assert_eq!(file.records.len(), 1);
}

#[test]
fn open_note_gets_default_duration() {
    let smf = SmfData {
        format: SmfFormat::SingleTrack,
        timing: SmfTiming::Metrical(480),
        tracks: vec![vec![
            midi(0, 0, ChannelMessage::NoteOn { key: 60, vel: 64 }),
        ]],
    };
    let file = convert_smf_to_mtxt(&smf).unwrap();
    match &file.records[1] {
        MtxtRecord::Note { duration, off_velocity, .. } => {
            assert_eq!(duration.unwrap().nanos, 1_000_000_000);
            assert_eq!(off_velocity.unwrap().num, 0);
        },
        other => panic!("expected a note, got {:?}", other),
    }
}

#[test]
fn silent_note_on_closes_the_note() {
    let smf = SmfData {
        format: SmfFormat::SingleTrack,
        timing: SmfTiming::Metrical(480),
        tracks: vec![vec![
            midi(0, 0, ChannelMessage::NoteOn { key: 72, vel: 50 }),
            midi(240, 0, ChannelMessage::NoteOn { key: 72, vel: 0 }),
        ]],
    };
    let file = convert_smf_to_mtxt(&smf).unwrap();
    match &file.records[1] {
        MtxtRecord::Note { duration, .. } => {
            assert_eq!(duration.unwrap().nanos, 500_000_000);
        },
        other => panic!("expected a note, got {:?}", other),
    }
}

#[test]
fn key_signature_at_zero_is_global() {
    let smf = SmfData {
        format: SmfFormat::SingleTrack,
        timing: SmfTiming::Metrical(480),
        tracks: vec![vec![
            meta(0, SmfMetaMessage::KeySignature(1, false)),
            meta(480, SmfMetaMessage::KeySignature(-3, true)),
        ]],
    };
    let file = convert_smf_to_mtxt(&smf).unwrap();
    match &file.records[1] {
        MtxtRecord::GlobalMeta { meta_type, value } => {
            assert_eq!(meta_type, "key");
            assert_eq!(value, "G");
        },
        other => panic!("expected a global annotation, got {:?}", other),
    }
    match &file.records[2] {
        MtxtRecord::Meta { time, meta_type, value, .. } => {
            assert_eq!(time.unwrap().nanos, 1_000_000_000);
            assert_eq!(meta_type, "keysignature");
            assert_eq!(value, "Cm");
        },
        other => panic!("expected an annotation, got {:?}", other),
    }
}

#[test]
fn unknown_meta_keeps_type_byte_and_hex() {
    let smf = SmfData {
        format: SmfFormat::SingleTrack,
        timing: SmfTiming::Metrical(480),
        tracks: vec![vec![
            meta(0, SmfMetaMessage::Unknown(0x21, vec![0xAB, 0x07])),
        ]],
    };
    let file = convert_smf_to_mtxt(&smf).unwrap();
    match &file.records[1] {
        MtxtRecord::Meta { time, meta_type, value, .. } => {
            assert_eq!(*time, None);
            assert_eq!(meta_type, "unknown_21");
            assert_eq!(value, "AB07");
        },
        other => panic!("expected an annotation, got {:?}", other),
    }
}

#[test]
fn meta_text_is_escaped() {
    let smf = SmfData {
        format: SmfFormat::SingleTrack,
        timing: SmfTiming::Metrical(480),
        tracks: vec![vec![
            meta(0, SmfMetaMessage::Marker(b"line\none".to_vec())),
        ]],
    };
    let file = convert_smf_to_mtxt(&smf).unwrap();
    match &file.records[1] {
        MtxtRecord::Meta { meta_type, value, .. } => {
            assert_eq!(meta_type, "marker");
            assert_eq!(value, "line\\none");
        },
        other => panic!("expected an annotation, got {:?}", other),
    }
}

#[test]
fn sysex_bytes_pass_through() {
    let payload = vec![0xF0u8, 0x41, 0x10, 0xF7];
    let smf = SmfData {
        format: SmfFormat::SingleTrack,
        timing: SmfTiming::Metrical(480),
        tracks: vec![vec![
            SmfTrackEvent { delta: 480, kind: SmfEventKind::SysEx(payload.clone()) },
        ]],
    };
    let file = convert_smf_to_mtxt(&smf).unwrap();
    match &file.records[1] {
        MtxtRecord::SysEx { time, data } => {
            assert_eq!(time.nanos, 1_000_000_000);
            assert_eq!(*data, payload);
        },
        other => panic!("expected system-exclusive data, got {:?}", other),
    }
}

#[test]
fn timecode_timing_falls_back() {
    let smf = SmfData {
        format: SmfFormat::SingleTrack,
        timing: SmfTiming::Timecode,
        tracks: vec![vec![
            midi(0, 0, ChannelMessage::NoteOn { key: 60, vel: 10 }),
            midi(480, 0, ChannelMessage::NoteOff { key: 60, vel: 0 }),
        ]],
    };
    let file = convert_smf_to_mtxt(&smf).unwrap();
    match &file.records[1] {
        MtxtRecord::Note { duration, .. } => {
            assert_eq!(duration.unwrap().nanos, 1_000_000_000);
        },
        other => panic!("expected a note, got {:?}", other),
    }
}

#[test]
fn prologue_sorts_before_timed_records() {
    // the global annotation comes from the second track but must precede
    // the first track's note
    let smf = SmfData {
        format: SmfFormat::Parallel,
        timing: SmfTiming::Metrical(480),
        tracks: vec![
            vec![
                midi(0, 0, ChannelMessage::NoteOn { key: 60, vel: 10 }),
                midi(480, 0, ChannelMessage::NoteOff { key: 60, vel: 0 }),
            ],
            vec![meta(0, SmfMetaMessage::Copyright(b"c".to_vec()))],
        ],
    };
    let file = convert_smf_to_mtxt(&smf).unwrap();
    assert!(matches!(file.records[0], MtxtRecord::Header { .. }));
    assert!(matches!(file.records[1], MtxtRecord::GlobalMeta { .. }));
    assert!(matches!(file.records[2], MtxtRecord::Note { .. }));
}

#[test]
fn tick_to_beat_mapping_starts_at_zero_and_grows() {
    let mut track = Vec::new();
    track.push(midi(0, 0, ChannelMessage::NoteOn { key: 60, vel: 10 }));
    track.push(midi(120, 0, ChannelMessage::NoteOff { key: 60, vel: 0 }));
    track.push(midi(120, 0, ChannelMessage::NoteOn { key: 62, vel: 10 }));
    track.push(midi(240, 0, ChannelMessage::NoteOff { key: 62, vel: 0 }));
    let smf = SmfData {
        format: SmfFormat::SingleTrack,
        timing: SmfTiming::Metrical(480),
        tracks: vec![track],
    };
    let file = convert_smf_to_mtxt(&smf).unwrap();
    let mut times: Vec<BeatTime> = Vec::new();
    for r in &file.records {
        if let MtxtRecord::Note { time, .. } = r {
            times.push(*time);
        }
    }
    assert_eq!(times.len(), 2);
    assert_eq!(times[0].nanos, 0);
    assert_eq!(times[1].nanos, 500_000_000);
}
