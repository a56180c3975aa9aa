use gif_saver::assemble::FrameAssembler;

const LINE: &str = "\u{1b}[38;2;10;20;30m#\u{1b}[0m";

#[test]
fn three_rows_make_one_frame() {
    let mut a = FrameAssembler::new(3, 100, '#');
    a.push_line(LINE);
    a.push_line(LINE);
    let (_, completed) = a.push_line(LINE);
    assert!(completed);
    let gif = a.finish();
    assert_eq!(gif.frames.len(), 1);
    assert_eq!(gif.frames[0].pixels.len(), 3);
}

#[test]
fn trailing_partial_group_is_dropped() {
    // One complete group of three, then a short tail: blank plus one row.
    let mut a = FrameAssembler::new(3, 100, '#');
    a.push_line(LINE);
    a.push_line(LINE);
    a.push_line(LINE);
    a.push_line("   ");
    a.push_line(LINE);
    let gif = a.finish();
    assert_eq!(gif.frames.len(), 1);
    assert_eq!(gif.frames[0].pixels.len(), 3);
}

#[test]
fn blank_line_advances_the_counter_and_completes_the_group() {
    // Six lines with rows=3: the second group (blank + two rows) still
    // reaches its boundary, so a second, shorter frame is emitted.
    let mut a = FrameAssembler::new(3, 100, '#');
    a.push_line(LINE);
    a.push_line(LINE);
    a.push_line(LINE);
    a.push_line("   ");
    a.push_line(LINE);
    let (_, completed) = a.push_line(LINE);
    assert!(completed);
    let gif = a.finish();
    assert_eq!(gif.frames.len(), 2);
    assert_eq!(gif.frames[0].pixels.len(), 3);
    assert_eq!(gif.frames[1].pixels.len(), 2);
}

#[test]
fn blank_lines_leave_rows_out_of_the_frame() {
    let mut a = FrameAssembler::new(2, 100, '#');
    a.push_line("");
    a.push_line(LINE);
    let gif = a.finish();
    assert_eq!(gif.frames.len(), 1);
    assert_eq!(gif.frames[0].pixels.len(), 1);
}

#[test]
fn cap_stops_consumption_mid_stream() {
    // Enough input for five frames, cap at two.
    let mut a = FrameAssembler::new(2, 2, '#');
    let mut ignored_after_done = 0;
    for i in 0..10 {
        if a.is_done() {
            ignored_after_done += 1;
        }
        let _ = a.push_line(LINE);
        let _ = i;
    }
    assert_eq!(ignored_after_done, 6);
    assert!(a.is_done());
    assert_eq!(a.frames_len(), 2);
    let gif = a.finish();
    assert_eq!(gif.frames.len(), 2);
    assert_eq!(gif.frames[0].pixels.len(), 2);
    assert_eq!(gif.frames[1].pixels.len(), 2);
}

#[test]
fn pushing_after_done_changes_nothing() {
    let mut a = FrameAssembler::new(1, 1, '#');
    a.push_line(LINE);
    assert!(a.is_done());
    let (diags, completed) = a.push_line(LINE);
    assert!(diags.is_empty());
    assert!(!completed);
    assert_eq!(a.frames_len(), 1);
}

#[test]
fn zero_cap_keeps_the_document_empty() {
    let mut a = FrameAssembler::new(2, 0, '#');
    assert!(a.is_done());
    a.push_line(LINE);
    a.push_line(LINE);
    let gif = a.finish();
    assert_eq!(gif.frames.len(), 0);
}

#[test]
fn partial_frame_alone_yields_no_frames() {
    let mut a = FrameAssembler::new(3, 100, '#');
    a.push_line(LINE);
    a.push_line(LINE);
    let gif = a.finish();
    assert_eq!(gif.frames.len(), 0);
}

#[test]
fn end_to_end_single_pixel_frame() {
    // One escape-coded line per frame with rows=1 and character '@'.
    let mut a = FrameAssembler::new(1, 100, '@');
    a.push_line(LINE);
    let gif = a.finish();
    assert_eq!(gif.frames.len(), 1);
    assert_eq!(gif.frames[0].pixels.len(), 1);
    assert_eq!(gif.frames[0].pixels[0].len(), 1);
    assert_eq!(gif.frames[0].pixels[0][0].character, '@');
    assert_eq!(gif.frames[0].pixels[0][0].color, "#0A141E");
}

#[test]
fn diagnostics_come_back_per_line() {
    let mut a = FrameAssembler::new(2, 100, '#');
    let (diags, _) = a.push_line("\u{1b}[0m#1;2;3m");
    assert_eq!(diags.len(), 1);
    assert_eq!(diags[0], "\u{1b}[0m");
    let (diags, _) = a.push_line("   ");
    assert!(diags.is_empty());
}

#[test]
fn frames_len_reports_progress() {
    let mut a = FrameAssembler::new(1, 100, '#');
    assert_eq!(a.frames_len(), 0);
    a.push_line(LINE);
    assert_eq!(a.frames_len(), 1);
    a.push_line(LINE);
    assert_eq!(a.frames_len(), 2);
}
