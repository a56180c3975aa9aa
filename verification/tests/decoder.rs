use gif_saver::decode::create_pixel;
use gif_saver::decode::create_pixel_row;
use gif_saver::decode::decode_line;
use gif_saver::decode::rgb_to_hex;
use gif_saver::decode::PixelError;

#[test]
fn hex_black_is_zero_padded() {
    assert_eq!(rgb_to_hex(0, 0, 0), "#000000");
}

#[test]
fn hex_is_uppercase_and_padded() {
    assert_eq!(rgb_to_hex(255, 16, 1), "#FF1001");
}

#[test]
fn hex_all_channels() {
    assert_eq!(rgb_to_hex(10, 20, 30), "#0A141E");
    assert_eq!(rgb_to_hex(255, 255, 255), "#FFFFFF");
    assert_eq!(rgb_to_hex(1, 2, 3), "#010203");
}

#[test]
fn segment_with_rgb_suffix_decodes() {
    let p = create_pixel("\u{1b}[38;2;10;20;30m", '@').unwrap();
    assert_eq!(p.character, '@');
    assert_eq!(p.color, "#0A141E");
}

#[test]
fn segment_of_plain_triple_decodes() {
    let p = create_pixel("0;0;0", '#').unwrap();
    assert_eq!(p.color, "#000000");
}

#[test]
fn segment_tolerates_long_prefix() {
    // Only the last three fields count; earlier ones may be anything.
    let p = create_pixel("x;y;zzz;255;16;1", '*').unwrap();
    assert_eq!(p.color, "#FF1001");
}

#[test]
fn segment_with_plus_signs_and_zeros() {
    let p = create_pixel("a;+10;020;3", '#').unwrap();
    assert_eq!(p.color, "#0A1403");
}

#[test]
fn segment_with_few_fields_is_reported() {
    assert!(matches!(create_pixel("\u{1b}[0m", '#'), Err(PixelError::TooFewFields)));
    assert!(matches!(create_pixel("", '#'), Err(PixelError::TooFewFields)));
    assert!(matches!(create_pixel("12;34", '#'), Err(PixelError::TooFewFields)));
}

#[test]
fn segment_with_value_over_255_is_dropped_silently() {
    assert!(matches!(create_pixel("1;2;300", '#'), Err(PixelError::BadFieldValue)));
}

#[test]
fn segment_with_non_numeric_field_is_dropped_silently() {
    assert!(matches!(create_pixel("1;2;xyz", '#'), Err(PixelError::BadFieldValue)));
    assert!(matches!(create_pixel("1;;3", '#'), Err(PixelError::BadFieldValue)));
    assert!(matches!(create_pixel("1;2;-3", '#'), Err(PixelError::BadFieldValue)));
}

#[test]
fn m_characters_are_stripped_before_splitting() {
    // "1m2" collapses to "12" before the split on ';'.
    let p = create_pixel("5;1m2;7", '#').unwrap();
    assert_eq!(p.color, "#050C07");
}

#[test]
fn diagnostics_only_for_field_count_failures() {
    // One segment with too few fields, one with a bad value, one good.
    let line = "\u{1b}[0m#1;2;300#38;2;10;20;30m";
    let (pixels, diags) = decode_line(line, '#');
    assert_eq!(pixels.len(), 1);
    assert_eq!(pixels[0].color, "#0A141E");
    assert_eq!(diags.len(), 1);
    assert_eq!(diags[0], "\u{1b}[0m");
}

#[test]
fn line_without_hash_and_blank_gives_empty_row() {
    assert_eq!(create_pixel_row("", '#').len(), 0);
    assert_eq!(create_pixel_row("   \t ", '#').len(), 0);
}

#[test]
fn line_without_hash_and_undecodable_gives_empty_row() {
    assert_eq!(create_pixel_row("hello world", '#').len(), 0);
}

#[test]
fn line_without_hash_may_still_decode_as_one_segment() {
    // A single undelimited segment that happens to be a valid triple.
    let row = create_pixel_row("10;20;30", '#');
    assert_eq!(row.len(), 1);
    assert_eq!(row[0].color, "#0A141E");
}

#[test]
fn hashes_alone_give_empty_row() {
    assert_eq!(create_pixel_row("#####", '#').len(), 0);
}

#[test]
fn quotes_are_removed_before_decoding() {
    let row = create_pixel_row("\"38;2;1;2;3m\"#", '#');
    assert_eq!(row.len(), 1);
    assert_eq!(row[0].color, "#010203");
}

#[test]
fn pixels_keep_source_order() {
    let line = "1;2;3m#4;5;6m#7;8;9m#";
    let row = create_pixel_row(line, '#');
    assert_eq!(row.len(), 3);
    assert_eq!(row[0].color, "#010203");
    assert_eq!(row[1].color, "#040506");
    assert_eq!(row[2].color, "#070809");
}

#[test]
fn every_pixel_carries_the_configured_character() {
    let row = create_pixel_row("1;2;3m#4;5;6m#", 'Z');
    assert!(row.iter().all(|p| p.character == 'Z'));
}
