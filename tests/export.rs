use sid_convert::export::Output;

#[test]
fn test_output_creation() {
    let mut output = Output::new("Bass".to_string());
    output.add_note(0, "quarter".to_string(), "E2".to_string());
    output.add_note(480, "eighth".to_string(), "F#2".to_string());

    assert_eq!(output.track, "Bass");
    assert_eq!(output.notes.len(), 2);
    assert_eq!(output.notes[0].pitch, "E2");
}

#[test]
fn new_output_is_empty_and_notes_keep_order() {
    let mut output = Output::new("Lead".to_string());
    assert!(output.notes.is_empty());
    output.add_note(960, "half".to_string(), "A2".to_string());
    output.add_note(0, "whole".to_string(), "C3".to_string());
    assert_eq!(output.notes[0].start, 960);
    assert_eq!(output.notes[0].length, "half");
    assert_eq!(output.notes[1].start, 0);
    assert_eq!(output.notes[1].pitch, "C3");
}
