use mtxt::errors::MtxtError;
use mtxt::notes::{Accidental, Note, NoteLetter};
use mtxt::ratio::Ratio;
use mtxt::records::{MtxtOutputRecord, TimeSignature};
use mtxt::reverse::convert_output_records_to_midi;
use mtxt::smf::{ChannelMessage, SmfEventKind, SmfFormat, SmfMetaMessage, SmfTiming};

fn middle_c() -> Note {
    Note { letter: NoteLetter::C, accidental: Accidental::Natural, octave: 4 }
}

fn unit_velocity(raw: i64) -> Ratio {
    Ratio { num: raw, den: 127 }
}

#[test]
fn reverse_single_quarter_note() {
    let records = vec![
        MtxtOutputRecord::NoteOn {
            time: 0,
            note: middle_c(),
            velocity: unit_velocity(100),
            channel: 0,
        },
        MtxtOutputRecord::NoteOff {
            time: 500_000,
            note: middle_c(),
            off_velocity: unit_velocity(0),
            channel: 0,
        },
    ];
    let smf = convert_output_records_to_midi(&records).unwrap();
    assert_eq!(smf.format, SmfFormat::SingleTrack);
    assert_eq!(smf.timing, SmfTiming::Metrical(480));
    assert_eq!(smf.tracks.len(), 1);
    let track = &smf.tracks[0];
    assert_eq!(track.len(), 3);
    assert_eq!(track[0].delta, 0);
    assert_eq!(
        track[0].kind,
        SmfEventKind::Midi {
            channel: 0,
            message: ChannelMessage::NoteOn { key: 60, vel: 100 }
        }
    );
    assert_eq!(track[1].delta, 480);
    assert_eq!(
        track[1].kind,
        SmfEventKind::Midi {
            channel: 0,
            message: ChannelMessage::NoteOff { key: 60, vel: 0 }
        }
    );
    assert_eq!(track[2].kind, SmfEventKind::Meta(SmfMetaMessage::EndOfTrack));
}

#[test]
fn reverse_tempo_change_uses_previous_tempo() {
    let records = vec![
        MtxtOutputRecord::Tempo { time: 0, bpm: Ratio { num: 120, den: 1 } },
        MtxtOutputRecord::Tempo { time: 1_000_000, bpm: Ratio { num: 60, den: 1 } },
    ];
    let smf = convert_output_records_to_midi(&records).unwrap();
    let track = &smf.tracks[0];
    assert_eq!(track[0].delta, 0);
    assert_eq!(track[0].kind, SmfEventKind::Meta(SmfMetaMessage::Tempo(500000)));
    // one second at the still-current 120 bpm is 960 ticks
    assert_eq!(track[1].delta, 960);
    assert_eq!(track[1].kind, SmfEventKind::Meta(SmfMetaMessage::Tempo(1000000)));
}

#[test]
fn reverse_controller_rename_roundtrip() {
    let records = vec![
        MtxtOutputRecord::ControlChange {
            time: 0,
            controller: "volume".to_string(),
            value: unit_velocity(100),
            channel: 3,
        },
    ];
    let smf = convert_output_records_to_midi(&records).unwrap();
    assert_eq!(
        smf.tracks[0][0].kind,
        SmfEventKind::Midi {
            channel: 3,
            message: ChannelMessage::Controller { controller: 7, value: 100 }
        }
    );
}

#[test]
fn reverse_pitch_bend_scaling() {
    // +6 semitones: the exact fraction the forward translation writes
    let records = vec![
        MtxtOutputRecord::ControlChange {
            time: 0,
            controller: "pitch".to_string(),
            value: Ratio { num: (12288 - 8192) * 12, den: 8192 },
            channel: 0,
        },
    ];
    let smf = convert_output_records_to_midi(&records).unwrap();
    assert_eq!(
        smf.tracks[0][0].kind,
        SmfEventKind::Midi { channel: 0, message: ChannelMessage::PitchBend { bend: 12288 } }
    );
}

#[test]
fn reverse_voice_and_time_signature() {
    let records = vec![
        MtxtOutputRecord::Voice { time: 0, voices: vec!["42".to_string()], channel: 1 },
        MtxtOutputRecord::TimeSignature {
            time: 0,
            signature: TimeSignature { numerator: 6, denominator: 8 },
        },
    ];
    let smf = convert_output_records_to_midi(&records).unwrap();
    let track = &smf.tracks[0];
    assert_eq!(
        track[0].kind,
        SmfEventKind::Midi { channel: 1, message: ChannelMessage::ProgramChange { program: 42 } }
    );
    assert_eq!(
        track[1].kind,
        SmfEventKind::Meta(SmfMetaMessage::TimeSignature(6, 3, 24, 8))
    );
}

#[test]
fn reverse_meta_values_are_unescaped_bytes() {
    let records = vec![
        MtxtOutputRecord::GlobalMeta {
            time: 0,
            meta_type: "copyright".to_string(),
            value: "two\\nlines".to_string(),
        },
        MtxtOutputRecord::ChannelMeta {
            time: 0,
            meta_type: "unknown_21".to_string(),
            value: "AB07".to_string(),
            channel: 0,
        },
    ];
    let smf = convert_output_records_to_midi(&records).unwrap();
    let track = &smf.tracks[0];
    assert_eq!(
        track[0].kind,
        SmfEventKind::Meta(SmfMetaMessage::Copyright(b"two\nlines".to_vec()))
    );
    assert_eq!(
        track[1].kind,
        SmfEventKind::Meta(SmfMetaMessage::Unknown(0x21, b"AB07".to_vec()))
    );
}

#[test]
fn reverse_sysex_and_silent_records() {
    let records = vec![
        MtxtOutputRecord::Beat { time: 0 },
        MtxtOutputRecord::SysEx { time: 0, data: vec![1, 2, 3] },
        MtxtOutputRecord::Reset { time: 10 },
    ];
    let smf = convert_output_records_to_midi(&records).unwrap();
    let track = &smf.tracks[0];
    assert_eq!(track.len(), 2);
    assert_eq!(track[0].kind, SmfEventKind::SysEx(vec![1, 2, 3]));
}

#[test]
fn reverse_rejects_backward_time() {
    let records = vec![
        MtxtOutputRecord::Beat { time: 10 },
        MtxtOutputRecord::Beat { time: 5 },
    ];
    assert_eq!(
        convert_output_records_to_midi(&records).unwrap_err(),
        MtxtError::NonMonotonicTime
    );
}

#[test]
fn reverse_rejects_out_of_range_values() {
    let bad_channel = vec![MtxtOutputRecord::NoteOn {
        time: 0,
        note: middle_c(),
        velocity: unit_velocity(100),
        channel: 16,
    }];
    assert_eq!(
        convert_output_records_to_midi(&bad_channel).unwrap_err(),
        MtxtError::ChannelOutOfRange
    );

    let bad_note = vec![MtxtOutputRecord::NoteOn {
        time: 0,
        note: Note { letter: NoteLetter::C, accidental: Accidental::Natural, octave: 20 },
        velocity: unit_velocity(100),
        channel: 0,
    }];
    assert_eq!(
        convert_output_records_to_midi(&bad_note).unwrap_err(),
        MtxtError::NoteOutOfRange
    );

    let bad_program = vec![MtxtOutputRecord::Voice {
        time: 0,
        voices: vec!["200".to_string()],
        channel: 0,
    }];
    assert_eq!(
        convert_output_records_to_midi(&bad_program).unwrap_err(),
        MtxtError::ProgramOutOfRange
    );

    let bad_controller = vec![MtxtOutputRecord::ControlChange {
        time: 0,
        controller: "warp".to_string(),
        value: unit_velocity(1),
        channel: 0,
    }];
    assert_eq!(
        convert_output_records_to_midi(&bad_controller).unwrap_err(),
        MtxtError::UnknownController
    );
}

#[test]
fn reverse_velocity_rounds_to_nearest() {
    // 0.5 of full scale rounds to 64, not 63
    let records = vec![MtxtOutputRecord::NoteOn {
        time: 0,
        note: middle_c(),
        velocity: Ratio { num: 1, den: 2 },
        channel: 0,
    }];
    let smf = convert_output_records_to_midi(&records).unwrap();
    assert_eq!(
        smf.tracks[0][0].kind,
        SmfEventKind::Midi { channel: 0, message: ChannelMessage::NoteOn { key: 60, vel: 64 } }
    );
}

#[test]
fn reverse_voice_accepts_a_leading_plus() {
    let records = vec![MtxtOutputRecord::Voice {
        time: 0,
        voices: vec!["+42".to_string()],
        channel: 1,
    }];
    let smf = convert_output_records_to_midi(&records).unwrap();
    assert_eq!(
        smf.tracks[0][0].kind,
        SmfEventKind::Midi { channel: 1, message: ChannelMessage::ProgramChange { program: 42 } }
    );
}

#[test]
fn reverse_nonnumeric_voice_defaults_to_program_zero() {
    let records = vec![MtxtOutputRecord::Voice {
        time: 0,
        voices: vec!["piano".to_string()],
        channel: 2,
    }];
    let smf = convert_output_records_to_midi(&records).unwrap();
    assert_eq!(
        smf.tracks[0][0].kind,
        SmfEventKind::Midi { channel: 2, message: ChannelMessage::ProgramChange { program: 0 } }
    );
}
