use gif_saver::assemble::FrameAssembler;
use gif_saver::assemble::Gif;
use gif_saver::json::document_to_json;

const LINE: &str = "\u{1b}[38;2;10;20;30m#\u{1b}[0m";

fn build(rows: u32, max_frames: u32, character: char, lines: &[&str]) -> Gif {
    let mut a = FrameAssembler::new(rows, max_frames, character);
    for line in lines {
        if a.is_done() {
            break;
        }
        a.push_line(line);
    }
    a.finish()
}

/// Parses the serialized document back and checks frame, row, and pixel
/// counts and every color and character string against the source document.
fn assert_round_trip(gif: &Gif) {
    let text = document_to_json(gif);
    let value: serde_json::Value = serde_json::from_str(&text).unwrap();
    let frames = value.get("frames").unwrap().as_array().unwrap();
    assert_eq!(frames.len(), gif.frames.len());
    for (frame, orig_frame) in frames.iter().zip(gif.frames.iter()) {
        let rows = frame.get("pixels").unwrap().as_array().unwrap();
        assert_eq!(rows.len(), orig_frame.pixels.len());
        for (row, orig_row) in rows.iter().zip(orig_frame.pixels.iter()) {
            let pixels = row.as_array().unwrap();
            assert_eq!(pixels.len(), orig_row.len());
            for (pixel, orig_pixel) in pixels.iter().zip(orig_row.iter()) {
                let character = pixel.get("character").unwrap().as_str().unwrap();
                assert_eq!(character, orig_pixel.character.to_string());
                let color = pixel.get("color").unwrap().as_str().unwrap();
                assert_eq!(color, orig_pixel.color);
            }
        }
    }
}

#[test]
fn empty_document_serializes_exactly() {
    let gif = build(2, 100, '#', &[]);
    assert_eq!(document_to_json(&gif), "{\n  \"frames\": []\n}");
}

#[test]
fn single_pixel_document_serializes_exactly() {
    let gif = build(1, 100, '@', &[LINE]);
    let expected = "{\n  \"frames\": [\n    {\n      \"pixels\": [\n        [\n          {\n            \"character\": \"@\",\n            \"color\": \"#0A141E\"\n          }\n        ]\n      ]\n    }\n  ]\n}";
    assert_eq!(document_to_json(&gif), expected);
}

#[test]
fn round_trip_empty_document() {
    assert_round_trip(&build(2, 100, '#', &[]));
}

#[test]
fn round_trip_single_frame() {
    assert_round_trip(&build(1, 100, '@', &[LINE]));
}

#[test]
fn round_trip_multiple_frames_and_rows() {
    let lines = [LINE, "1;2;3m#4;5;6m#", "", LINE, LINE, LINE];
    assert_round_trip(&build(3, 100, '#', &lines));
}

#[test]
fn round_trip_with_empty_rows() {
    // A row whose line held no decodable segment stays in the frame as an
    // empty array.
    let lines = ["###", LINE];
    assert_round_trip(&build(2, 100, '#', &lines));
}

#[test]
fn round_trip_escapes_quote_character() {
    assert_round_trip(&build(1, 100, '"', &[LINE]));
}

#[test]
fn round_trip_escapes_backslash_character() {
    assert_round_trip(&build(1, 100, '\\', &[LINE]));
}

#[test]
fn round_trip_escapes_control_character() {
    assert_round_trip(&build(1, 100, '\u{7}', &[LINE]));
}

#[test]
fn round_trip_keeps_unicode_character() {
    assert_round_trip(&build(1, 100, '\u{2588}', &[LINE]));
}
