use sid_convert::midi::{
    assemble, count_notes, first_track_name, is_bass_candidate, note_spans, EventKind, ExtractError, MidiParser,
    NoteSpan, Timing, TrackEvent,
};

fn on(delta: u32, key: u8, velocity: u8) -> TrackEvent {
    TrackEvent { delta, kind: EventKind::NoteOn { channel: 0, key, velocity } }
}

fn off(delta: u32, key: u8) -> TrackEvent {
    TrackEvent { delta, kind: EventKind::NoteOff { channel: 0, key, velocity: 64 } }
}

fn name(delta: u32, text: &str) -> TrackEvent {
    TrackEvent { delta, kind: EventKind::TrackName(text.as_bytes().to_vec()) }
}

fn other(delta: u32) -> TrackEvent {
    TrackEvent { delta, kind: EventKind::Other }
}

fn span(start_tick: u32, duration_ticks: u32, key: u8) -> NoteSpan {
    NoteSpan { start_tick, duration_ticks, key }
}

#[test]
fn single_note_round_trip() {
    let spans = note_spans(&vec![on(100, 45, 90), off(380, 45)]).unwrap();
    assert_eq!(spans, vec![span(100, 380, 45)]);
}

#[test]
fn zero_velocity_note_on_releases() {
    let spans = note_spans(&vec![on(0, 40, 100), other(120), on(120, 40, 0)]).unwrap();
    assert_eq!(spans, vec![span(0, 240, 40)]);
}

#[test]
fn unterminated_note_is_dropped() {
    let spans = note_spans(&vec![on(0, 40, 100), off(480, 40), on(0, 43, 100), other(960)]).unwrap();
    assert_eq!(spans, vec![span(0, 480, 40)]);
}

#[test]
fn repeated_note_on_overwrites_start() {
    let spans = note_spans(&vec![on(0, 40, 100), on(240, 40, 100), off(240, 40)]).unwrap();
    assert_eq!(spans, vec![span(240, 240, 40)]);
}

#[test]
fn release_without_note_on_is_ignored() {
    let spans = note_spans(&vec![off(10, 40), on(0, 41, 0)]).unwrap();
    assert!(spans.is_empty());
}

#[test]
fn spans_come_in_release_order() {
    let spans = note_spans(&vec![on(0, 40, 100), on(0, 47, 100), off(240, 47), off(240, 40)]).unwrap();
    assert_eq!(spans, vec![span(0, 240, 47), span(0, 480, 40)]);
}

#[test]
fn tick_overflow_is_reported() {
    assert!(note_spans(&vec![other(u32::MAX), other(1)]).is_none());
    assert!(note_spans(&vec![other(u32::MAX), other(0)]).is_some());
}

#[test]
fn first_valid_track_name_wins() {
    let events = vec![name(0, "Bass"), name(0, "Lead")];
    assert_eq!(first_track_name(&events), Some("Bass".to_string()));
    let invalid = vec![TrackEvent { delta: 0, kind: EventKind::TrackName(vec![0xff, 0xfe]) }, name(0, "Low")];
    assert_eq!(first_track_name(&invalid), Some("Low".to_string()));
    assert_eq!(first_track_name(&vec![on(0, 40, 1)]), None);
}

#[test]
fn counts_only_sounding_note_ons() {
    let events = vec![on(0, 40, 100), on(0, 70, 100), on(0, 28, 0), off(0, 40), on(0, 55, 1)];
    assert_eq!(count_notes(&events), (2, 3));
}

#[test]
fn candidate_rule_by_name_and_ratio() {
    assert!(is_bass_candidate(&Some("my bass line".to_string()), 0, 0));
    assert!(!is_bass_candidate(&Some("Bass".to_string()), 0, 0));
    assert!(!is_bass_candidate(&None, 0, 0));
    // exactly 70% is not enough
    assert!(!is_bass_candidate(&None, 7, 10));
    assert!(is_bass_candidate(&None, 71, 100));
    assert!(!is_bass_candidate(&Some("lead".to_string()), 1, 2));
}

#[test]
fn classification_folds_case_of_names() {
    let parser = MidiParser::new(
        Timing::Metrical(480),
        vec![vec![name(0, "Fretless BASS"), on(0, 80, 100)], vec![name(0, "Strings"), on(0, 80, 100)]],
    );
    let found = parser.find_bass_tracks();
    assert_eq!(found.len(), 1);
    assert_eq!(found[0].index, 0);
    assert_eq!(found[0].name, Some("Fretless BASS".to_string()));
}

fn two_track_file() -> MidiParser {
    MidiParser::new(
        Timing::Metrical(480),
        vec![
            vec![name(0, "Bass"), on(0, 40, 100), off(480, 40)],
            vec![name(0, "Lead"), on(0, 72, 100), off(480, 72), on(0, 76, 90), off(240, 76)],
        ],
    )
}

#[test]
fn end_to_end_two_tracks() {
    let parser = two_track_file();
    let found = parser.find_bass_tracks();
    assert_eq!(found.len(), 1);
    assert_eq!(found[0].index, 0);
    assert_eq!(found[0].name, Some("Bass".to_string()));
    assert_eq!(found[0].bass_note_count, 1);
    assert_eq!(found[0].total_note_count, 1);

    let output = parser.extract_notes(0).ok().unwrap();
    assert_eq!(output.track, "Bass");
    assert_eq!(output.notes.len(), 1);
    assert_eq!(output.notes[0].start, 0);
    assert_eq!(output.notes[0].length, "quarter");
    assert_eq!(output.notes[0].pitch, "E2");
}

#[test]
fn classification_is_repeatable() {
    let parser = two_track_file();
    let a = parser.find_bass_tracks();
    let b = parser.find_bass_tracks();
    assert_eq!(a.len(), b.len());
    for (x, y) in a.iter().zip(b.iter()) {
        assert_eq!(x.index, y.index);
        assert_eq!(x.name, y.name);
        assert_eq!(x.bass_note_count, y.bass_note_count);
        assert_eq!(x.total_note_count, y.total_note_count);
    }
}

#[test]
fn classification_by_ratio_without_name() {
    let parser = MidiParser::new(
        Timing::Metrical(96),
        vec![
            vec![on(0, 30, 100), on(0, 31, 100), on(0, 32, 100), on(0, 90, 100)],
            vec![on(0, 30, 100), on(0, 90, 100)],
            vec![other(5)],
        ],
    );
    let found = parser.find_bass_tracks();
    assert_eq!(found.len(), 1);
    assert_eq!(found[0].index, 0);
    assert_eq!(found[0].name, None);
    assert_eq!(found[0].bass_note_count, 3);
    assert_eq!(found[0].total_note_count, 4);
}

#[test]
fn extract_errors() {
    let parser = two_track_file();
    assert!(matches!(parser.extract_notes(2), Err(ExtractError::TrackNotFound)));
    let long = MidiParser::new(Timing::Metrical(480), vec![vec![other(u32::MAX), on(1, 40, 100)]]);
    assert!(matches!(long.extract_notes(0), Err(ExtractError::TickOverflow)));
}

#[test]
fn unnamed_track_gets_placeholder_and_timecode_uses_480() {
    let parser = MidiParser::new(
        Timing::Timecode(25, 40),
        vec![vec![], vec![on(0, 33, 100), off(960, 33), on(0, 35, 100), off(240, 35)]],
    );
    assert_eq!(parser.get_ticks_per_quarter(), 480);
    let output = parser.extract_notes(1).ok().unwrap();
    assert_eq!(output.track, "Track 1");
    assert_eq!(output.notes.len(), 2);
    assert_eq!(output.notes[0].length, "half");
    assert_eq!(output.notes[0].pitch, "A1");
    assert_eq!(output.notes[1].start, 960);
    assert_eq!(output.notes[1].length, "eighth");
    assert_eq!(output.notes[1].pitch, "B1");
}

#[test]
fn metrical_timing_sets_quantisation() {
    let parser = MidiParser::new(Timing::Metrical(96), vec![vec![on(0, 40, 100), off(96, 40)]]);
    assert_eq!(parser.get_ticks_per_quarter(), 96);
    assert_eq!(parser.extract_notes(0).ok().unwrap().notes[0].length, "quarter");
    assert_eq!(MidiParser::new(Timing::Metrical(0), vec![]).get_ticks_per_quarter(), 480);
}

#[test]
fn assemble_maps_spans_in_order() {
    let out = assemble("X".to_string(), &vec![span(10, 1920, 52), span(0, 120, 29)], 480);
    assert_eq!(out.track, "X");
    assert_eq!(out.notes[0].start, 10);
    assert_eq!(out.notes[0].length, "whole");
    assert_eq!(out.notes[0].pitch, "E3");
    assert_eq!(out.notes[1].length, "eighth");
    assert_eq!(out.notes[1].pitch, "F1");
}
