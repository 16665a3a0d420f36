//! The reverse translation: a stream of microsecond-timed output records
//! becomes a single SMF track with delta-tick timing.
//!
//! Deltas are computed directly in ticks from the running tempo; a tempo
//! record takes effect only after its own delta, so each event is placed
//! under the tempo that preceded it. Deltas too large for one SMF
//! variable-length quantity are split with padding text events.

use vstd::prelude::*;

use crate::errors::MtxtError;
use crate::escape::{spec_unescape, unescape_string};
use crate::names::{
    controller_name_to_midi, spec_controller_event, spec_log2_floor, spec_value_7bit,
    time_signature_to_midi, MidiControllerEvent,
};
use crate::notes::{note_to_midi_number, spec_note_number};
use crate::ratio::{spec_round_div, Ratio};
use crate::records::{spec_out_time, MtxtOutputRecord};
use crate::smf::{
    spec_event_model, spec_events_model, spec_meta_model, ChannelMessage, EventKindModel,
    EventModel, MetaModel, SmfData, SmfEventKind, SmfFormat, SmfMetaMessage, SmfTiming,
    SmfTrackEvent, MAX_DELTA_TICKS,
};
use crate::text::{copy_bytes, str_eq};

verus! {

/// The tick resolution the reverse translation emits.
pub const REVERSE_PPQ: u16 = 480;

/// Whether a tempo ratio is in the supported range.
pub open spec fn spec_tempo_valid(bpm: Ratio) -> bool {
    &&& 1 <= bpm.num <= 1_000_000_000
    &&& 1 <= bpm.den <= 1_000_000_000
}

/// Well-formedness of one output record: rational fields in range.
pub open spec fn spec_out_record_valid(r: MtxtOutputRecord) -> bool {
    match r {
        MtxtOutputRecord::NoteOn { velocity, .. } => velocity.valid(),
        MtxtOutputRecord::NoteOff { off_velocity, .. } => off_velocity.valid(),
        MtxtOutputRecord::ControlChange { value, .. } => value.valid(),
        MtxtOutputRecord::Tempo { bpm, .. } => spec_tempo_valid(bpm),
        _ => true,
    }
}

/// Well-formedness of a record stream.
pub open spec fn spec_out_records_valid(records: Seq<MtxtOutputRecord>) -> bool {
    forall|i: int| 0 <= i < records.len() ==> spec_out_record_valid(#[trigger] records[i])
}

/// The ticks between two events `delta_us` microseconds apart under `bpm`
/// beats per minute, rounded to the nearest tick.
pub open spec fn spec_delta_ticks(delta_us: u64, bpm: Ratio) -> int {
    spec_round_div(delta_us * bpm.num * (REVERSE_PPQ as int), bpm.den * 60_000_000)
}

/// The bytes of the padding text marker.
pub open spec fn spec_pad_marker() -> Seq<u8> {
    seq![108u8, 111u8, 110u8, 103u8, 32u8, 100u8, 101u8, 108u8, 116u8, 97u8]
}

/// One padding event, carrying the largest possible delta.
pub open spec fn spec_pad_event() -> EventModel {
    EventModel {
        delta: MAX_DELTA_TICKS,
        kind: EventKindModel::Meta(MetaModel::Text(spec_pad_marker())),
    }
}

/// The padding events needed until the remaining delta fits one
/// variable-length quantity.
pub open spec fn spec_pad_events(delta: int) -> Seq<EventModel>
    decreases (if delta > MAX_DELTA_TICKS { delta } else { 0 }),
{
    if delta > MAX_DELTA_TICKS {
        seq![spec_pad_event()] + spec_pad_events(delta - MAX_DELTA_TICKS)
    } else {
        Seq::empty()
    }
}

/// The delta left after padding.
pub open spec fn spec_pad_rem(delta: int) -> int
    decreases (if delta > MAX_DELTA_TICKS { delta } else { 0 }),
{
    if delta > MAX_DELTA_TICKS {
        spec_pad_rem(delta - MAX_DELTA_TICKS)
    } else {
        delta
    }
}

/// The microseconds per quarter note of a tempo, truncated and capped at
/// the 24-bit SMF maximum.
pub open spec fn spec_tempo_us(bpm: Ratio) -> int {
    let us = (60_000_000 * bpm.den) / (bpm.num as int);
    if us > 0x00FF_FFFF {
        0x00FF_FFFF
    } else {
        us
    }
}

/// The SMF meta message of a named meta record: well-known names map to
/// their dedicated messages, an `unknown_XX` name restores the original
/// type byte, and anything else becomes plain text.
pub open spec fn spec_meta_kind(meta_type: Seq<char>, bytes: Seq<u8>) -> MetaModel {
    if meta_type == "copyright"@ {
        MetaModel::Copyright(bytes)
    } else if meta_type == "title"@ || meta_type == "trackname"@ || meta_type == "name"@ {
        MetaModel::TrackName(bytes)
    } else if meta_type == "instrument"@ {
        MetaModel::InstrumentName(bytes)
    } else if meta_type == "lyric"@ {
        MetaModel::Lyric(bytes)
    } else if meta_type == "marker"@ {
        MetaModel::Marker(bytes)
    } else if meta_type == "cue"@ {
        MetaModel::CuePoint(bytes)
    } else if meta_type == "program"@ {
        MetaModel::ProgramName(bytes)
    } else if meta_type == "device"@ {
        MetaModel::DeviceName(bytes)
    } else if spec_unknown_type_byte(meta_type) is Some {
        MetaModel::Unknown(spec_unknown_type_byte(meta_type)->Some_0, bytes)
    } else {
        MetaModel::Text(bytes)
    }
}

/// The type byte named by an `unknown_XX` meta type, if the name has that
/// form with two hexadecimal digits.
pub open spec fn spec_unknown_type_byte(meta_type: Seq<char>) -> Option<u8> {
    if meta_type.len() == 10 && meta_type.take(8) == "unknown_"@ && crate::escape::spec_hex_val(
        meta_type[8],
    ) < 16 && crate::escape::spec_hex_val(meta_type[9]) < 16 {
        Some(
            (crate::escape::spec_hex_val(meta_type[8]) * 16 + crate::escape::spec_hex_val(
                meta_type[9],
            )) as u8,
        )
    } else {
        None
    }
}

/// The program number a voice text denotes: its decimal value when it is a
/// decimal number up to 255 (an optional leading `+` is allowed), else the
/// default program zero.
pub open spec fn spec_program_of_text(s: Seq<char>) -> int {
    let d = if s.len() >= 1 && s[0] == '+' {
        s.skip(1)
    } else {
        s
    };
    if crate::text::spec_all_digits(d) && d.len() >= 1 && crate::text::spec_digits_val(d) <= 255 {
        crate::text::spec_digits_val(d) as int
    } else {
        0
    }
}

/// The track events of one record, after its delta is known. The remaining
/// delta rides on the record's event; a record that emits no event drops
/// its delta, and later events are placed relative to this record's time.
pub open spec fn spec_record_events(r: MtxtOutputRecord, delta: int) -> Result<
    Seq<EventModel>,
    MtxtError,
> {
    match r {
        MtxtOutputRecord::NoteOn { time, note, velocity, channel } => {
            if !(0 <= spec_note_number(note) <= 127) {
                Err(MtxtError::NoteOutOfRange)
            } else if channel > 15 {
                Err(MtxtError::ChannelOutOfRange)
            } else {
                Ok(
                    seq![
                        EventModel {
                            delta: delta as u32,
                            kind: EventKindModel::Midi {
                                channel: channel as u8,
                                message: ChannelMessage::NoteOn {
                                    key: spec_note_number(note) as u8,
                                    vel: spec_value_7bit(velocity) as u8,
                                },
                            },
                        },
                    ],
                )
            }
        },
        MtxtOutputRecord::NoteOff { time, note, off_velocity, channel } => {
            if !(0 <= spec_note_number(note) <= 127) {
                Err(MtxtError::NoteOutOfRange)
            } else if channel > 15 {
                Err(MtxtError::ChannelOutOfRange)
            } else {
                Ok(
                    seq![
                        EventModel {
                            delta: delta as u32,
                            kind: EventKindModel::Midi {
                                channel: channel as u8,
                                message: ChannelMessage::NoteOff {
                                    key: spec_note_number(note) as u8,
                                    vel: spec_value_7bit(off_velocity) as u8,
                                },
                            },
                        },
                    ],
                )
            }
        },
        MtxtOutputRecord::ControlChange { time, controller, value, channel } => {
            if channel > 15 {
                Err(MtxtError::ChannelOutOfRange)
            } else {
                match spec_controller_event(controller@, value) {
                    Err(e) => Err(e),
                    Ok(ev) => {
                        let message = match ev {
                            MidiControllerEvent::CC {
                                number,
                                value,
                            } => ChannelMessage::Controller { controller: number, value },
                            MidiControllerEvent::PitchBend { value } => ChannelMessage::PitchBend {
                                bend: value,
                            },
                            MidiControllerEvent::Aftertouch {
                                value,
                            } => ChannelMessage::ChannelAftertouch { vel: value },
                        };
                        Ok(
                            seq![
                                EventModel {
                                    delta: delta as u32,
                                    kind: EventKindModel::Midi { channel: channel as u8, message },
                                },
                            ],
                        )
                    },
                }
            }
        },
        MtxtOutputRecord::Voice { time, voices, channel } => {
            if voices@.len() == 0 {
                Ok(Seq::empty())
            } else {
                match spec_unescape(voices@[0]@) {
                    Err(e) => Err(e),
                    Ok(unescaped) => {
                        let program = spec_program_of_text(unescaped);
                        if program > 127 {
                            Err(MtxtError::ProgramOutOfRange)
                        } else if channel > 15 {
                            Err(MtxtError::ChannelOutOfRange)
                        } else {
                            Ok(
                                seq![
                                    EventModel {
                                        delta: delta as u32,
                                        kind: EventKindModel::Midi {
                                            channel: channel as u8,
                                            message: ChannelMessage::ProgramChange {
                                                program: program as u8,
                                            },
                                        },
                                    },
                                ],
                            )
                        }
                    },
                }
            }
        },
        MtxtOutputRecord::Tempo { time, bpm } => Ok(
            seq![
                EventModel {
                    delta: delta as u32,
                    kind: EventKindModel::Meta(MetaModel::Tempo(spec_tempo_us(bpm) as u32)),
                },
            ],
        ),
        MtxtOutputRecord::TimeSignature { time, signature } => Ok(
            seq![
                EventModel {
                    delta: delta as u32,
                    kind: EventKindModel::Meta(
                        MetaModel::TimeSignature(
                            signature.numerator,
                            spec_log2_floor(signature.denominator as int) as u8,
                            24u8,
                            8u8,
                        ),
                    ),
                },
            ],
        ),
        MtxtOutputRecord::GlobalMeta { time, meta_type, value } => match spec_unescape(value@) {
            Err(e) => Err(e),
            Ok(unescaped) => Ok(
                seq![
                    EventModel {
                        delta: delta as u32,
                        kind: EventKindModel::Meta(
                            spec_meta_kind(meta_type@, vstd::utf8::encode_utf8(unescaped)),
                        ),
                    },
                ],
            ),
        },
        MtxtOutputRecord::ChannelMeta { time, meta_type, value, channel } => match spec_unescape(
            value@,
        ) {
            Err(e) => Err(e),
            Ok(unescaped) => Ok(
                seq![
                    EventModel {
                        delta: delta as u32,
                        kind: EventKindModel::Meta(
                            spec_meta_kind(meta_type@, vstd::utf8::encode_utf8(unescaped)),
                        ),
                    },
                ],
            ),
        },
        MtxtOutputRecord::SysEx { time, data } => Ok(
            seq![
                EventModel { delta: delta as u32, kind: EventKindModel::SysEx(data@) },
            ],
        ),
        MtxtOutputRecord::Reset { time } => Ok(Seq::empty()),
        MtxtOutputRecord::Beat { time } => Ok(Seq::empty()),
    }
}

/// The whole reverse translation of the records at index `i` and after:
/// each record is placed
/// by its microsecond distance from its predecessor under the tempo that
/// held before it, and a `Tempo` record changes the running tempo after its
/// own placement. A record earlier than its predecessor stops the
/// translation.
pub open spec fn spec_records_to_events(
    records: Seq<MtxtOutputRecord>,
    i: int,
    last_us: u64,
    bpm: Ratio,
) -> Result<Seq<EventModel>, MtxtError>
    decreases records.len() - i,
{
    if i < 0 || i >= records.len() {
        Ok(Seq::empty())
    } else {
        let r = records[i];
        let t = spec_out_time(r);
        if t < last_us {
            Err(MtxtError::NonMonotonicTime)
        } else {
            let dticks = spec_delta_ticks((t - last_us) as u64, bpm);
            let bpm2 = match r {
                MtxtOutputRecord::Tempo { bpm: b, .. } => b,
                _ => bpm,
            };
            match spec_record_events(r, spec_pad_rem(dticks)) {
                Err(e) => Err(e),
                Ok(evs) => match spec_records_to_events(records, i + 1, t, bpm2) {
                    Err(e) => Err(e),
                    Ok(rest) => Ok(spec_pad_events(dticks) + evs + rest),
                },
            }
        }
    }
}

/// The default tempo of the reverse translation.
pub open spec fn spec_default_bpm() -> Ratio {
    Ratio { num: 120, den: 1 }
}

/// The closing end-of-track event.
pub open spec fn spec_end_of_track() -> EventModel {
    EventModel { delta: 0, kind: EventKindModel::Meta(MetaModel::EndOfTrack) }
}

/// A tempo written as the exact fraction `60e6 / us` maps back to exactly
/// `us` microseconds per quarter note: the forward and reverse tempo
/// mappings are mutually inverse on the 24-bit range.
pub proof fn lemma_tempo_roundtrip(us: u32)
    requires
        1 <= us <= 0x00FF_FFFF,
    ensures
        spec_tempo_us(Ratio { num: 60_000_000, den: us as u64 }) == us,
{
    assert((60_000_000 * (us as int)) / 60_000_000 == us) by (nonlinear_arith);
}

/// A control change carried through both directions comes back unchanged:
/// the forward translation names controller `n` and writes the exact value
/// fraction `v/127`, and the reverse translation maps that name and value
/// back to controller `n` with value `v`, for every controller and value in
/// the 7-bit range.
pub proof fn lemma_controller_roundtrip(n: u8, v: u8)
    requires
        n <= 127,
        v <= 127,
    ensures
        spec_controller_event(crate::names::spec_cc_name(n), Ratio { num: v as i64, den: 127 })
            == Ok::<MidiControllerEvent, MtxtError>(
            MidiControllerEvent::CC { number: n, value: v },
        ),
{
    let name = crate::names::spec_cc_name(n);
    crate::names::lemma_cc_name_roundtrip(n);
    crate::names::lemma_value_7bit_roundtrip(v);
    assert(name != "pitch"@ && name != "aftertouch"@) by {
        reveal_strlit("pitch");
        reveal_strlit("aftertouch");
        reveal_strlit("bank");
        reveal_strlit("modulation");
        reveal_strlit("breath");
        reveal_strlit("foot");
        reveal_strlit("portamentotime");
        reveal_strlit("volume");
        reveal_strlit("balance");
        reveal_strlit("pan");
        reveal_strlit("expression");
        reveal_strlit("sustain");
        reveal_strlit("portamento");
        reveal_strlit("sostenuto");
        reveal_strlit("soft");
        reveal_strlit("reverb");
        reveal_strlit("chorus");
        reveal_strlit("cc");
        assert("pitch"@[0] == 'p' && "aftertouch"@[0] == 'a');
        assert("modulation"@[0] == 'm' && "expression"@[0] == 'e' && "portamento"@[0] == 'p');
        if n == 0 || n == 1 || n == 2 || n == 4 || n == 5 || n == 7 || n == 8 || n == 10 || n == 11
            || n == 64 || n == 65 || n == 66 || n == 67 || n == 91 || n == 93 {
        } else {
            assert(name == "cc"@ + crate::text::spec_nat_digits(n as nat));
            assert(name[0] == 'c');
        }
    }
}

/// The reverse translation accepts a record stream only when no record's
/// time precedes its predecessor's: on success the times are monotone
/// nondecreasing from the starting time on.
pub proof fn lemma_reverse_monotone(
    records: Seq<MtxtOutputRecord>,
    i: int,
    last_us: u64,
    bpm: Ratio,
)
    requires
        0 <= i,
        spec_records_to_events(records, i, last_us, bpm) is Ok,
    ensures
        i < records.len() ==> last_us <= spec_out_time(records[i]),
        forall|j: int|
            i <= j < records.len() - 1 ==> spec_out_time(#[trigger] records[j]) <= spec_out_time(
                records[j + 1],
            ),
    decreases records.len() - i,
{
    if i < records.len() {
        let r = records[i];
        let t = spec_out_time(r);
        let dticks = spec_delta_ticks((t - last_us) as u64, bpm);
        let bpm2 = match r {
            MtxtOutputRecord::Tempo { bpm: b, .. } => b,
            _ => bpm,
        };
        assert(spec_record_events(r, spec_pad_rem(dticks)) is Ok);
        assert(spec_records_to_events(records, i + 1, t, bpm2) is Ok);
        lemma_reverse_monotone(records, i + 1, t, bpm2);
    }
}

/// Every channel-voice event the reverse translation emits is on a channel
/// in the MIDI range `0..=15`.
pub open spec fn spec_event_channels_ok(evs: Seq<EventModel>) -> bool {
    forall|k: int|
        0 <= k < evs.len() ==> match (#[trigger] evs[k]).kind {
            EventKindModel::Midi { channel, .. } => channel <= 15,
            _ => true,
        }
}

/// Padding events carry no channel.
proof fn lemma_pad_channels_ok(delta: int)
    ensures
        spec_event_channels_ok(spec_pad_events(delta)),
    decreases (if delta > MAX_DELTA_TICKS { delta } else { 0 }),
{
    if delta > MAX_DELTA_TICKS {
        lemma_pad_channels_ok(delta - MAX_DELTA_TICKS);
        let evs = spec_pad_events(delta);
        let rest = spec_pad_events(delta - MAX_DELTA_TICKS);
        assert forall|k: int| 0 <= k < evs.len() implies match (#[trigger] evs[k]).kind {
            EventKindModel::Midi { channel, .. } => channel <= 15,
            _ => true,
        } by {
            if k >= 1 {
                assert(evs[k] == rest[k - 1]);
            }
        }
    }
}

/// Every channel-voice event the reverse translation emits is on a channel
/// in `0..=15`: a record with a channel past 15 is rejected instead.
pub proof fn lemma_reverse_channels(
    records: Seq<MtxtOutputRecord>,
    i: int,
    last_us: u64,
    bpm: Ratio,
)
    requires
        0 <= i,
        spec_records_to_events(records, i, last_us, bpm) is Ok,
    ensures
        spec_event_channels_ok(spec_records_to_events(records, i, last_us, bpm)->Ok_0),
    decreases records.len() - i,
{
    let whole = spec_records_to_events(records, i, last_us, bpm)->Ok_0;
    if i < 0 || i >= records.len() {
        assert(spec_event_channels_ok(whole));
    } else {
        let r = records[i];
        let t = spec_out_time(r);
        let dticks = spec_delta_ticks((t - last_us) as u64, bpm);
        let bpm2 = match r {
            MtxtOutputRecord::Tempo { bpm: b, .. } => b,
            _ => bpm,
        };
        let evs = spec_record_events(r, spec_pad_rem(dticks))->Ok_0;
        let rest = spec_records_to_events(records, i + 1, t, bpm2)->Ok_0;
        lemma_reverse_channels(records, i + 1, t, bpm2);
        lemma_pad_channels_ok(dticks);
        let pads = spec_pad_events(dticks);
        assert(spec_event_channels_ok(evs));
        assert(whole == pads + evs + rest);
        assert forall|k: int| 0 <= k < whole.len() implies match (#[trigger] whole[k]).kind {
            EventKindModel::Midi { channel, .. } => channel <= 15,
            _ => true,
        } by {
            if k < pads.len() {
                assert(whole[k] == pads[k]);
            } else if k < pads.len() + evs.len() {
                assert(whole[k] == evs[k - pads.len()]);
            } else {
                assert(whole[k] == rest[k - pads.len() - evs.len()]);
            }
        }
    }
}

/// Appending one event to a list appends its model.
proof fn lemma_events_model_push(s: Seq<SmfTrackEvent>, e: SmfTrackEvent)
    ensures
        spec_events_model(s.push(e)) == spec_events_model(s).push(spec_event_model(e)),
{
    assert(spec_events_model(s.push(e)) =~= spec_events_model(s).push(spec_event_model(e)));
}

/// The type byte named by an `unknown_XX` meta type.
fn unknown_type_byte(meta_type: &str) -> (r: Option<u8>)
    ensures
        r == spec_unknown_type_byte(meta_type@),
{
    let n = meta_type.unicode_len();
    if n != 10 {
        return None;
    }
    let prefix = meta_type.substring_char(0, 8);
    proof {
        assert(prefix@ =~= meta_type@.take(8));
    }
    if !str_eq(prefix, "unknown_") {
        return None;
    }
    let h1 = crate::escape::hex_val(meta_type.get_char(8));
    let h2 = crate::escape::hex_val(meta_type.get_char(9));
    if h1 >= 16 || h2 >= 16 {
        return None;
    }
    Some(h1 * 16 + h2)
}

/// The SMF meta message of a named meta record.
fn meta_kind_of(meta_type: &str, bytes: Vec<u8>) -> (r: SmfMetaMessage)
    ensures
        spec_meta_model(r) == spec_meta_kind(meta_type@, bytes@),
{
    if str_eq(meta_type, "copyright") {
        SmfMetaMessage::Copyright(bytes)
    } else if str_eq(meta_type, "title") || str_eq(meta_type, "trackname") || str_eq(
        meta_type,
        "name",
    ) {
        SmfMetaMessage::TrackName(bytes)
    } else if str_eq(meta_type, "instrument") {
        SmfMetaMessage::InstrumentName(bytes)
    } else if str_eq(meta_type, "lyric") {
        SmfMetaMessage::Lyric(bytes)
    } else if str_eq(meta_type, "marker") {
        SmfMetaMessage::Marker(bytes)
    } else if str_eq(meta_type, "cue") {
        SmfMetaMessage::CuePoint(bytes)
    } else if str_eq(meta_type, "program") {
        SmfMetaMessage::ProgramName(bytes)
    } else if str_eq(meta_type, "device") {
        SmfMetaMessage::DeviceName(bytes)
    } else {
        match unknown_type_byte(meta_type) {
            Some(b) => SmfMetaMessage::Unknown(b, bytes),
            None => SmfMetaMessage::Text(bytes),
        }
    }
}

/// One padding event.
fn make_pad_event() -> (r: SmfTrackEvent)
    ensures
        spec_event_model(r) == spec_pad_event(),
{
    let marker: Vec<u8> = vec![108u8, 111u8, 110u8, 103u8, 32u8, 100u8, 101u8, 108u8, 116u8, 97u8];
    proof {
        assert(marker@ =~= spec_pad_marker());
    }
    SmfTrackEvent { delta: MAX_DELTA_TICKS, kind: SmfEventKind::Meta(SmfMetaMessage::Text(marker)) }
}

/// Regrouping of the emitted prefix.
proof fn lemma_events_prepend(
    acc: Seq<EventModel>,
    mid: Seq<EventModel>,
    r: Result<Seq<EventModel>, MtxtError>,
)
    ensures
        (match r {
            Ok(rest) => Ok::<Seq<EventModel>, MtxtError>(acc + (mid + rest)),
            Err(e) => Err::<Seq<EventModel>, MtxtError>(e),
        }) == (match r {
            Ok(rest) => Ok::<Seq<EventModel>, MtxtError>((acc + mid) + rest),
            Err(e) => Err::<Seq<EventModel>, MtxtError>(e),
        }),
{
    match r {
        Ok(rest) => {
            assert(acc + (mid + rest) =~= (acc + mid) + rest);
        },
        Err(e) => {},
    }
}

/// Linearizes a stream of output records to one delta-timed SMF track,
/// closed with an end-of-track event. Succeeds exactly when the record
/// times never step backwards and every record translates; the emitted
/// track is exactly what `spec_records_to_events` describes, starting from
/// time zero at 120 beats per minute.
#[verifier::rlimit(100)]
pub fn convert_output_records_to_midi(records: &Vec<MtxtOutputRecord>) -> (r: Result<
    SmfData,
    MtxtError,
>)
    requires
        spec_out_records_valid(records@),
    ensures
        match r {
            Ok(smf) => {
                &&& spec_records_to_events(records@, 0, 0, spec_default_bpm()) is Ok
                &&& smf.format == SmfFormat::SingleTrack
                &&& smf.timing == SmfTiming::Metrical(REVERSE_PPQ)
                &&& smf.tracks@.len() == 1
                &&& spec_events_model(smf.tracks@[0]@) == spec_records_to_events(
                    records@,
                    0,
                    0,
                    spec_default_bpm(),
                )->Ok_0 + seq![spec_end_of_track()]
            },
            Err(e) => spec_records_to_events(records@, 0, 0, spec_default_bpm()) == Err::<
                Seq<EventModel>,
                MtxtError,
            >(e),
        },
{
    let mut events: Vec<SmfTrackEvent> = Vec::new();
    let mut last_us: u64 = 0;
    let mut bpm = Ratio { num: 120, den: 1 };
    let mut i: usize = 0;
    proof {
        assert(spec_events_model(events@) =~= Seq::<EventModel>::empty());
    }
    while i < records.len()
        invariant
            0 <= i <= records@.len(),
            spec_out_records_valid(records@),
            spec_tempo_valid(bpm),
            spec_records_to_events(records@, 0, 0, spec_default_bpm()) == (match
                spec_records_to_events(records@, i as int, last_us, bpm) {
                Ok(rest) => Ok::<Seq<EventModel>, MtxtError>(spec_events_model(events@) + rest),
                Err(e) => Err::<Seq<EventModel>, MtxtError>(e),
            }),
        decreases records@.len() - i,
    {
        let record = &records[i];
        let t = record.time();
        if t < last_us {
            return Err(MtxtError::NonMonotonicTime);
        }
        let delta_us: u64 = t - last_us;
        // delta in ticks under the current tempo
        proof {
            assert((delta_us as int) * (bpm.num as int) * (REVERSE_PPQ as int) <= (u64::MAX as int)
                * 1_000_000_000 * 480 && (delta_us as int) * (bpm.num as int) * (
            REVERSE_PPQ as int) >= 0) by (nonlinear_arith)
                requires
                    0 <= delta_us as int <= u64::MAX as int,
                    1 <= bpm.num <= 1_000_000_000,
            ;
            assert(1 <= (bpm.den as int) * 60_000_000 <= 1_000_000_000i128 * 60_000_000)
                by (nonlinear_arith)
                requires
                    1 <= bpm.den <= 1_000_000_000,
            ;
        }
        let a: i128 = (delta_us as i128) * (bpm.num as i128) * (REVERSE_PPQ as i128);
        let b: i128 = (bpm.den as i128) * 60_000_000;
        proof {
            assert(0 <= (a as int + b as int / 2) / (b as int) <= a as int) by (nonlinear_arith)
                requires
                    b as int >= 1,
                    a as int >= 0,
            ;
        }
        let dticks: i128 = (a + b / 2) / b;
        proof {
            assert(dticks as int == spec_delta_ticks(delta_us, bpm));
        }
        // padding for oversize deltas
        let ghost models_pre = spec_events_model(events@);
        let mut rem: i128 = dticks;
        while rem > MAX_DELTA_TICKS as i128
            invariant
                0 <= rem <= dticks,
                spec_pad_rem(dticks as int) == spec_pad_rem(rem as int),
                spec_events_model(events@) == models_pre + spec_pad_events(dticks as int).take(
                    spec_pad_events(dticks as int).len() - spec_pad_events(rem as int).len(),
                ),
                spec_pad_events(rem as int).len() <= spec_pad_events(dticks as int).len(),
                spec_pad_events(dticks as int).skip(
                    spec_pad_events(dticks as int).len() - spec_pad_events(rem as int).len(),
                ) == spec_pad_events(rem as int),
            decreases rem,
        {
            let ghost evs_before = events@;
            events.push(make_pad_event());
            proof {
                lemma_events_model_push(evs_before, events@.last());
                let full = spec_pad_events(dticks as int);
                let before = spec_pad_events(rem as int);
                let after = spec_pad_events(rem as int - MAX_DELTA_TICKS);
                assert(before == seq![spec_pad_event()] + after);
                assert(before.len() == 1 + after.len());
                assert(full.skip(full.len() - before.len()) == before);
                assert(full[full.len() - before.len()] == before[0]) by {
                    assert(before[0] == full.skip(full.len() - before.len())[0]);
                }
                assert(full.take(full.len() - after.len()) =~= full.take(
                    full.len() - before.len(),
                ).push(spec_pad_event()));
                assert(spec_events_model(events@) =~= models_pre + full.take(
                    full.len() - after.len(),
                ));
                assert(full.skip(full.len() - after.len()) =~= after) by {
                    assert(before.skip(1) =~= after);
                }
            }
            rem = rem - MAX_DELTA_TICKS as i128;
        }
        proof {
            assert(spec_pad_events(rem as int) =~= Seq::<EventModel>::empty());
            assert(spec_events_model(events@) =~= models_pre + spec_pad_events(dticks as int));
            assert(spec_pad_rem(dticks as int) == rem as int);
        }
        let delta: u32 = rem as u32;
        // translate the record itself
        match record {
            MtxtOutputRecord::NoteOn { note, velocity, channel, .. } => {
                let key = match note_to_midi_number(note) {
                    Ok(k) => k,
                    Err(e) => {
                        return Err(e);
                    },
                };
                if *channel > 15 {
                    return Err(MtxtError::ChannelOutOfRange);
                }
                let vel = velocity.scaled_div_clamped(127, 1, 0, 127);
                let ev = SmfTrackEvent {
                    delta,
                    kind: SmfEventKind::Midi {
                        channel: *channel as u8,
                        message: ChannelMessage::NoteOn { key, vel: vel as u8 },
                    },
                };
                proof {
                    assert(spec_record_events(records@[i as int], rem as int) == Ok::<
                        Seq<EventModel>,
                        MtxtError,
                    >(seq![spec_event_model(ev)]));
                    lemma_events_model_push(events@, ev);
                }
                events.push(ev);
            },
            MtxtOutputRecord::NoteOff { note, off_velocity, channel, .. } => {
                let key = match note_to_midi_number(note) {
                    Ok(k) => k,
                    Err(e) => {
                        return Err(e);
                    },
                };
                if *channel > 15 {
                    return Err(MtxtError::ChannelOutOfRange);
                }
                let vel = off_velocity.scaled_div_clamped(127, 1, 0, 127);
                let ev = SmfTrackEvent {
                    delta,
                    kind: SmfEventKind::Midi {
                        channel: *channel as u8,
                        message: ChannelMessage::NoteOff { key, vel: vel as u8 },
                    },
                };
                proof {
                    assert(spec_record_events(records@[i as int], rem as int) == Ok::<
                        Seq<EventModel>,
                        MtxtError,
                    >(seq![spec_event_model(ev)]));
                    lemma_events_model_push(events@, ev);
                }
                events.push(ev);
            },
            MtxtOutputRecord::ControlChange { controller, value, channel, .. } => {
                if *channel > 15 {
                    return Err(MtxtError::ChannelOutOfRange);
                }
                let message = match controller_name_to_midi(controller.as_str(), value) {
                    Ok(MidiControllerEvent::CC { number, value: v7 }) => ChannelMessage::Controller {
                        controller: number,
                        value: v7,
                    },
                    Ok(MidiControllerEvent::PitchBend { value: raw }) => ChannelMessage::PitchBend {
                        bend: raw,
                    },
                    Ok(
                        MidiControllerEvent::Aftertouch { value: v7 },
                    ) => ChannelMessage::ChannelAftertouch { vel: v7 },
                    Err(e) => {
                        return Err(e);
                    },
                };
                let ev = SmfTrackEvent {
                    delta,
                    kind: SmfEventKind::Midi { channel: *channel as u8, message },
                };
                proof {
                    assert(spec_record_events(records@[i as int], rem as int) == Ok::<
                        Seq<EventModel>,
                        MtxtError,
                    >(seq![spec_event_model(ev)]));
                    lemma_events_model_push(events@, ev);
                }
                events.push(ev);
            },
            MtxtOutputRecord::Voice { voices, channel, .. } => {
                if voices.len() > 0 {
                    let first = &voices[0];
                    let unescaped = match unescape_string(first.as_str()) {
                        Ok(u) => u,
                        Err(e) => {
                            return Err(e);
                        },
                    };
                    let text = unescaped.as_str();
                    let n = text.unicode_len();
                    let digits = if n >= 1 && text.get_char(0) == '+' {
                        text.substring_char(1, n)
                    } else {
                        text
                    };
                    proof {
                        if text@.len() >= 1 && text@[0] == '+' {
                            assert(digits@ =~= text@.skip(1));
                        }
                    }
                    let program: u8 = match crate::names::parse_program_number(digits) {
                        Some(p) => p,
                        None => 0,
                    };
                    if program > 127 {
                        return Err(MtxtError::ProgramOutOfRange);
                    }
                    if *channel > 15 {
                        return Err(MtxtError::ChannelOutOfRange);
                    }
                    let ev = SmfTrackEvent {
                        delta,
                        kind: SmfEventKind::Midi {
                            channel: *channel as u8,
                            message: ChannelMessage::ProgramChange { program },
                        },
                    };
                    proof {
                        assert(spec_record_events(records@[i as int], rem as int) == Ok::<
                            Seq<EventModel>,
                            MtxtError,
                        >(seq![spec_event_model(ev)]));
                        lemma_events_model_push(events@, ev);
                    }
                    events.push(ev);
                } else {
                    proof {
                        assert(spec_record_events(records@[i as int], rem as int) == Ok::<
                            Seq<EventModel>,
                            MtxtError,
                        >(Seq::empty()));
                    }
                }
            },
            MtxtOutputRecord::Tempo { bpm: new_bpm, .. } => {
                let wide: u128 = 60_000_000u128 * (new_bpm.den as u128) / (new_bpm.num as u128);
                let us: u32 = if wide > 0x00FF_FFFFu128 {
                    0x00FF_FFFF
                } else {
                    wide as u32
                };
                let ev = SmfTrackEvent { delta, kind: SmfEventKind::Meta(SmfMetaMessage::Tempo(us)) };
                proof {
                    assert(us as int == spec_tempo_us(*new_bpm));
                    assert(spec_record_events(records@[i as int], rem as int) == Ok::<
                        Seq<EventModel>,
                        MtxtError,
                    >(seq![spec_event_model(ev)]));
                    lemma_events_model_push(events@, ev);
                }
                events.push(ev);
                bpm = *new_bpm;
            },
            MtxtOutputRecord::TimeSignature { signature, .. } => {
                let (numerator, exponent) = time_signature_to_midi(signature);
                let ev = SmfTrackEvent {
                    delta,
                    kind: SmfEventKind::Meta(
                        SmfMetaMessage::TimeSignature(numerator, exponent, 24, 8),
                    ),
                };
                proof {
                    assert(spec_record_events(records@[i as int], rem as int) == Ok::<
                        Seq<EventModel>,
                        MtxtError,
                    >(seq![spec_event_model(ev)]));
                    lemma_events_model_push(events@, ev);
                }
                events.push(ev);
            },
            MtxtOutputRecord::GlobalMeta { meta_type, value, .. } => {
                let unescaped = match unescape_string(value.as_str()) {
                    Ok(u) => u,
                    Err(e) => {
                        return Err(e);
                    },
                };
                let bytes = unescaped.as_str().as_bytes_vec();
                proof {
                    assert(bytes@ == vstd::utf8::encode_utf8(unescaped@));
                }
                let kind = meta_kind_of(meta_type.as_str(), bytes);
                let ev = SmfTrackEvent { delta, kind: SmfEventKind::Meta(kind) };
                proof {
                    assert(spec_record_events(records@[i as int], rem as int) == Ok::<
                        Seq<EventModel>,
                        MtxtError,
                    >(seq![spec_event_model(ev)]));
                    lemma_events_model_push(events@, ev);
                }
                events.push(ev);
            },
            MtxtOutputRecord::ChannelMeta { meta_type, value, .. } => {
                let unescaped = match unescape_string(value.as_str()) {
                    Ok(u) => u,
                    Err(e) => {
                        return Err(e);
                    },
                };
                let bytes = unescaped.as_str().as_bytes_vec();
                proof {
                    assert(bytes@ == vstd::utf8::encode_utf8(unescaped@));
                }
                let kind = meta_kind_of(meta_type.as_str(), bytes);
                let ev = SmfTrackEvent { delta, kind: SmfEventKind::Meta(kind) };
                proof {
                    assert(spec_record_events(records@[i as int], rem as int) == Ok::<
                        Seq<EventModel>,
                        MtxtError,
                    >(seq![spec_event_model(ev)]));
                    lemma_events_model_push(events@, ev);
                }
                events.push(ev);
            },
            MtxtOutputRecord::SysEx { data, .. } => {
                let bytes = copy_bytes(data);
                let ev = SmfTrackEvent { delta, kind: SmfEventKind::SysEx(bytes) };
                proof {
                    assert(spec_record_events(records@[i as int], rem as int) == Ok::<
                        Seq<EventModel>,
                        MtxtError,
                    >(seq![spec_event_model(ev)]));
                    lemma_events_model_push(events@, ev);
                }
                events.push(ev);
            },
            MtxtOutputRecord::Reset { .. } => {
                proof {
                    assert(spec_record_events(records@[i as int], rem as int) == Ok::<
                        Seq<EventModel>,
                        MtxtError,
                    >(Seq::empty()));
                }
            },
            MtxtOutputRecord::Beat { .. } => {
                proof {
                    assert(spec_record_events(records@[i as int], rem as int) == Ok::<
                        Seq<EventModel>,
                        MtxtError,
                    >(Seq::empty()));
                }
            },
        }
        proof {
            let evs = spec_record_events(records@[i as int], rem as int)->Ok_0;
            assert(spec_events_model(events@) =~= models_pre + (spec_pad_events(dticks as int)
                + evs));
            let bpm2 = match records@[i as int] {
                MtxtOutputRecord::Tempo { bpm: b2, .. } => b2,
                _ => bpm,
            };
            let rest = spec_records_to_events(records@, i + 1, t, bpm2);
            lemma_events_prepend(models_pre, spec_pad_events(dticks as int) + evs, rest);
            match rest {
                Ok(rr) => {
                    assert((spec_pad_events(dticks as int) + evs) + rr =~= spec_pad_events(
                        dticks as int,
                    ) + evs + rr);
                },
                Err(e) => {},
            }
        }
        last_us = t;
        i = i + 1;
    }
    proof {
        assert(spec_records_to_events(records@, i as int, last_us, bpm) == Ok::<
            Seq<EventModel>,
            MtxtError,
        >(Seq::empty()));
        assert(spec_events_model(events@) + Seq::<EventModel>::empty() =~= spec_events_model(
            events@,
        ));
    }
    let ghost body = spec_events_model(events@);
    let eot = SmfTrackEvent { delta: 0, kind: SmfEventKind::Meta(SmfMetaMessage::EndOfTrack) };
    proof {
        lemma_events_model_push(events@, eot);
    }
    events.push(eot);
    proof {
        assert(spec_events_model(events@) =~= body + seq![spec_end_of_track()]);
    }
    let mut tracks: Vec<Vec<SmfTrackEvent>> = Vec::new();
    tracks.push(events);
    Ok(SmfData { format: SmfFormat::SingleTrack, timing: SmfTiming::Metrical(REVERSE_PPQ), tracks })
}

} // verus!
