//! The frame assembler: batches decoded rows into fixed-height frames and
//! enforces the frame cap.
//!
//! One line is consumed at a time. A non-blank line contributes its decoded
//! row to the in-progress frame; a blank line contributes nothing; either
//! way the row counter advances. When the counter reaches the configured
//! rows-per-frame value the in-progress frame is emitted and the counter
//! resets, and once the document holds the configured maximum number of
//! frames consumption is over. A partial frame left at the end of the
//! stream is dropped, never emitted.

use vstd::prelude::*;

use crate::chars::chars_of;
use crate::chars::is_blank;
use crate::chars::is_blank_vec;
use crate::decode::decode_line;
use crate::decode::row_colors;
use crate::decode::row_diags;
use crate::decode::Pixel;

verus! {

/// One frame: its rows of pixels, top to bottom.
#[derive(Debug)]
pub struct Frame {
    pub pixels: Vec<Vec<Pixel>>,
}

impl Default for Frame {
    /// An empty frame, as each in-progress frame starts.
    fn default() -> (f: Self)
        ensures
            f.pixels@.len() == 0,
    {
        Frame { pixels: Vec::new() }
    }
}

/// The whole document: its frames, in order of emission.
#[derive(Debug)]
pub struct Gif {
    pub frames: Vec<Frame>,
}

impl Default for Gif {
    /// An empty document.
    fn default() -> (g: Self)
        ensures
            g.frames@.len() == 0,
    {
        Gif { frames: Vec::new() }
    }
}

/// A row of pixels reduced to what varies: its color strings.
pub open spec fn row_view(row: Seq<Pixel>) -> Seq<Seq<char>> {
    row.map_values(|p: Pixel| p.color@)
}

/// A frame as its rows' colors.
pub open spec fn frame_view(f: Frame) -> Seq<Seq<Seq<char>>> {
    f.pixels@.map_values(|r: Vec<Pixel>| row_view(r@))
}

/// A document as its frames' colors.
pub open spec fn gif_view(g: Gif) -> Seq<Seq<Seq<Seq<char>>>> {
    g.frames@.map_values(|f: Frame| frame_view(f))
}

/// Every pixel of the frame carries the character `ch`.
pub open spec fn frame_chars(f: Frame, ch: char) -> bool {
    forall|i: int, j: int|
        0 <= i < f.pixels@.len() && 0 <= j < f.pixels@[i]@.len() ==> f.pixels@[i]@[j].character
            == ch
}

/// Every pixel of the document carries the character `ch`.
pub open spec fn gif_chars(g: Gif, ch: char) -> bool {
    forall|k: int| 0 <= k < g.frames@.len() ==> frame_chars(g.frames@[k], ch)
}

/// The assembler's abstract state: the emitted frames, the in-progress
/// frame, the row counter, and whether consumption is over.
#[verifier::ext_equal]
pub ghost struct AsmState {
    pub doc: Seq<Seq<Seq<Seq<char>>>>,
    pub current: Seq<Seq<Seq<char>>>,
    pub counter: nat,
    pub done: bool,
}

/// The assembler's starting state. A cap of zero leaves no frame to emit,
/// so consumption is over before it begins.
pub open spec fn asm_init(maxf: nat) -> AsmState {
    AsmState { doc: Seq::empty(), current: Seq::empty(), counter: 0, done: maxf == 0 }
}

/// One line's effect on the assembler: nothing once done; otherwise the
/// decoded row of a non-blank line joins the in-progress frame, the counter
/// advances, and on reaching `rows` the frame is emitted, the counter
/// resets, and consumption ends when the document reaches `maxf` frames.
pub open spec fn asm_step(s: AsmState, line: Seq<char>, rows: nat, maxf: nat) -> AsmState {
    if s.done {
        s
    } else {
        let cur = if !is_blank(line) {
            s.current.push(row_colors(line))
        } else {
            s.current
        };
        if s.counter + 1 >= rows {
            AsmState {
                doc: s.doc.push(cur),
                current: Seq::empty(),
                counter: 0,
                done: s.doc.len() + 1 >= maxf,
            }
        } else {
            AsmState { doc: s.doc, current: cur, counter: s.counter + 1, done: false }
        }
    }
}

/// The assembler's state after consuming `lines` from state `s`.
pub open spec fn asm_run_from(s: AsmState, lines: Seq<Seq<char>>, rows: nat, maxf: nat) -> AsmState
    decreases lines.len(),
{
    if lines.len() == 0 {
        s
    } else {
        asm_run_from(asm_step(s, lines[0], rows, maxf), lines.drop_first(), rows, maxf)
    }
}

/// The assembler's state after consuming `lines` from the start.
pub open spec fn asm_run(lines: Seq<Seq<char>>, rows: nat, maxf: nat) -> AsmState {
    asm_run_from(asm_init(maxf), lines, rows, maxf)
}

/// The frame assembler: consumes one line at a time and accumulates the
/// document, exactly as [`asm_run`] describes over the lines seen so far.
pub struct FrameAssembler {
    rows_per_frame: u32,
    max_frames: u32,
    character: char,
    row_counter: u32,
    current: Frame,
    gif: Gif,
    done: bool,
    lines_seen: Ghost<Seq<Seq<char>>>,
}

impl FrameAssembler {
    /// The lines consumed so far.
    pub closed spec fn lines(self) -> Seq<Seq<char>> {
        self.lines_seen@
    }

    /// The configured frame height.
    pub closed spec fn rows(self) -> nat {
        self.rows_per_frame as nat
    }

    /// The configured frame cap.
    pub closed spec fn cap(self) -> nat {
        self.max_frames as nat
    }

    /// The configured display character.
    pub closed spec fn glyph(self) -> char {
        self.character
    }

    /// The concrete state mirrors the abstract run over the lines seen,
    /// and every stored pixel carries the configured character.
    pub closed spec fn wf(self) -> bool {
        let s = asm_run(self.lines_seen@, self.rows_per_frame as nat, self.max_frames as nat);
        &&& gif_view(self.gif) == s.doc
        &&& frame_view(self.current) == s.current
        &&& self.row_counter as nat == s.counter
        &&& self.done == s.done
        &&& gif_chars(self.gif, self.character)
        &&& frame_chars(self.current, self.character)
        &&& (self.row_counter < self.rows_per_frame || self.row_counter == 0)
    }

    /// A fresh assembler for the given frame height, frame cap, and
    /// display character.
    pub fn new(rows_per_frame: u32, max_frames: u32, character: char) -> (a: FrameAssembler)
        ensures
            a.wf(),
            a.lines() == Seq::<Seq<char>>::empty(),
            a.rows() == rows_per_frame as nat,
            a.cap() == max_frames as nat,
            a.glyph() == character,
    {
        let a = FrameAssembler {
            rows_per_frame,
            max_frames,
            character,
            row_counter: 0,
            current: Frame::default(),
            gif: Gif::default(),
            done: max_frames == 0,
            lines_seen: Ghost(Seq::empty()),
        };
        proof {
            assert(gif_view(a.gif) =~= asm_init(max_frames as nat).doc);
            assert(frame_view(a.current) =~= asm_init(max_frames as nat).current);
        }
        a
    }

    /// Consumes one line: a no-op once consumption is over, otherwise one
    /// step of the assembly. Returns the diagnostics the line's decoding
    /// provoked, and whether this line completed a frame.
    pub fn push_line(&mut self, line: &str) -> (r: (Vec<String>, bool))
        requires
            old(self).wf(),
        ensures
            final(self).wf(),
            final(self).lines() == old(self).lines().push(line@),
            final(self).rows() == old(self).rows(),
            final(self).cap() == old(self).cap(),
            final(self).glyph() == old(self).glyph(),
            r.0.deep_view() == if !asm_run(old(self).lines(), old(self).rows(), old(self).cap()).done
                && !is_blank(line@) {
                row_diags(line@)
            } else {
                Seq::<Seq<char>>::empty()
            },
            r.1 == ({
                let s = asm_run(old(self).lines(), old(self).rows(), old(self).cap());
                !s.done && s.counter + 1 >= old(self).rows()
            }),
    {
        let ghost old_lines = self.lines_seen@;
        let ghost rows = self.rows_per_frame as nat;
        let ghost maxf = self.max_frames as nat;
        let ghost s0 = asm_run(old_lines, rows, maxf);
        proof {
            self.lines_seen@ = old_lines.push(line@);
            lemma_run_push(old_lines, line@, rows, maxf);
        }
        if self.done {
            let r: Vec<String> = Vec::new();
            proof {
                assert(r.deep_view() =~= Seq::<Seq<char>>::empty());
            }
            return (r, false);
        }
        let line_chars = chars_of(line);
        let mut diags: Vec<String> = Vec::new();
        let mut completed = false;
        if !is_blank_vec(&line_chars) {
            let (pixels, d) = decode_line(line, self.character);
            diags = d;
            let ghost old_frame = frame_view(self.current);
            self.current.pixels.push(pixels);
            proof {
                assert(frame_view(self.current) =~~= old_frame.push(row_view(pixels@)));
                assert(row_view(pixels@) == row_colors(line@));
            }
        } else {
            proof {
                assert(diags.deep_view() =~= Seq::<Seq<char>>::empty());
            }
        }
        self.row_counter = self.row_counter + 1;
        if self.row_counter >= self.rows_per_frame {
            completed = true;
            let mut finished = Frame::default();
            core::mem::swap(&mut finished, &mut self.current);
            let ghost old_doc = gif_view(self.gif);
            self.gif.frames.push(finished);
            proof {
                assert(gif_view(self.gif) =~~= old_doc.push(frame_view(finished)));
            }
            self.row_counter = 0;
            if self.gif.frames.len() >= self.max_frames as usize {
                self.done = true;
            }
            proof {
                assert(frame_view(self.current) =~= Seq::<Seq<Seq<char>>>::empty());
            }
        }
        proof {
            assert(gif_view(self.gif) == asm_step(s0, line@, rows, maxf).doc);
            assert(frame_view(self.current) == asm_step(s0, line@, rows, maxf).current);
        }
        (diags, completed)
    }

    /// Whether consumption is over: the document has reached the cap.
    pub fn is_done(&self) -> (r: bool)
        requires
            self.wf(),
        ensures
            r == asm_run(self.lines(), self.rows(), self.cap()).done,
    {
        self.done
    }

    /// How many complete frames the document holds so far.
    pub fn frames_len(&self) -> (r: usize)
        requires
            self.wf(),
        ensures
            r == asm_run(self.lines(), self.rows(), self.cap()).doc.len(),
    {
        self.gif.frames.len()
    }

    /// Ends the pass and hands the document over. The in-progress frame,
    /// if the stream stopped between boundaries, is dropped.
    pub fn finish(self) -> (g: Gif)
        requires
            self.wf(),
        ensures
            gif_view(g) == asm_run(self.lines(), self.rows(), self.cap()).doc,
            gif_chars(g, self.glyph()),
    {
        self.gif
    }
}

/// The rows a group of lines contributes to its frame: one row of colors
/// per non-blank line, in order; blank lines contribute nothing.
pub open spec fn frame_rows(lines: Seq<Seq<char>>) -> Seq<Seq<Seq<char>>>
    decreases lines.len(),
{
    if lines.len() == 0 {
        Seq::empty()
    } else if is_blank(lines[0]) {
        frame_rows(lines.drop_first())
    } else {
        seq![row_colors(lines[0])] + frame_rows(lines.drop_first())
    }
}

/// Once consumption is over, further lines change nothing.
pub proof fn lemma_done_absorbs(s: AsmState, lines: Seq<Seq<char>>, rows: nat, maxf: nat)
    requires
        s.done,
    ensures
        asm_run_from(s, lines, rows, maxf) == s,
    decreases lines.len(),
{
    if lines.len() == 0 {
    } else {
        assert(asm_step(s, lines[0], rows, maxf) == s);
        lemma_done_absorbs(s, lines.drop_first(), rows, maxf);
    }
}

/// Consuming a concatenation is consuming the parts in turn.
pub proof fn lemma_run_from_concat(
    s: AsmState,
    a: Seq<Seq<char>>,
    b: Seq<Seq<char>>,
    rows: nat,
    maxf: nat,
)
    ensures
        asm_run_from(s, a + b, rows, maxf) == asm_run_from(
            asm_run_from(s, a, rows, maxf),
            b,
            rows,
            maxf,
        ),
    decreases a.len(),
{
    if a.len() == 0 {
        assert(a + b =~= b);
        assert(asm_run_from(s, a, rows, maxf) == s);
    } else {
        assert((a + b)[0] == a[0]);
        assert((a + b).drop_first() =~= a.drop_first() + b);
        let s1 = asm_step(s, a[0], rows, maxf);
        assert(asm_run_from(s, a + b, rows, maxf) == asm_run_from(
            s1,
            (a + b).drop_first(),
            rows,
            maxf,
        ));
        lemma_run_from_concat(s1, a.drop_first(), b, rows, maxf);
    }
}

/// Short of the boundary, rows only accumulate: consuming fewer lines
/// than remain in the group emits no frame.
pub proof fn lemma_partial_group(s: AsmState, lines: Seq<Seq<char>>, rows: nat, maxf: nat)
    requires
        !s.done,
        s.counter + lines.len() < rows,
    ensures
        asm_run_from(s, lines, rows, maxf) == (AsmState {
            doc: s.doc,
            current: s.current + frame_rows(lines),
            counter: (s.counter + lines.len()) as nat,
            done: false,
        }),
    decreases lines.len(),
{
    if lines.len() == 0 {
        assert(frame_rows(lines) =~~= Seq::<Seq<Seq<char>>>::empty());
        assert(asm_run_from(s, lines, rows, maxf) =~~= (AsmState {
            doc: s.doc,
            current: s.current + frame_rows(lines),
            counter: (s.counter + lines.len()) as nat,
            done: false,
        }));
    } else {
        let s1 = asm_step(s, lines[0], rows, maxf);
        lemma_partial_group(s1, lines.drop_first(), rows, maxf);
        if is_blank(lines[0]) {
            assert(s1.current + frame_rows(lines.drop_first()) =~~= s.current + frame_rows(
                lines,
            ));
        } else {
            assert(s1.current =~~= s.current.push(row_colors(lines[0])));
            assert(s1.current + frame_rows(lines.drop_first()) =~~= s.current + frame_rows(
                lines,
            ));
        }
        assert(asm_run_from(s, lines, rows, maxf) =~~= (AsmState {
            doc: s.doc,
            current: s.current + frame_rows(lines),
            counter: (s.counter + lines.len()) as nat,
            done: false,
        }));
    }
}

/// Reaching the boundary emits exactly one frame: the rows accumulated so
/// far followed by the group's remaining rows, with the counter reset and
/// consumption over exactly when the cap is reached.
pub proof fn lemma_full_group(s: AsmState, lines: Seq<Seq<char>>, rows: nat, maxf: nat)
    requires
        !s.done,
        lines.len() >= 1,
        s.counter + lines.len() == rows,
    ensures
        asm_run_from(s, lines, rows, maxf) == (AsmState {
            doc: s.doc.push(s.current + frame_rows(lines)),
            current: Seq::empty(),
            counter: 0,
            done: s.doc.len() + 1 >= maxf,
        }),
    decreases lines.len(),
{
    let s1 = asm_step(s, lines[0], rows, maxf);
    if lines.len() == 1 {
        assert(lines.drop_first() =~= Seq::<Seq<char>>::empty());
        assert(frame_rows(lines.drop_first()) =~~= Seq::<Seq<Seq<char>>>::empty());
        assert(asm_run_from(s1, lines.drop_first(), rows, maxf) == s1);
        if is_blank(lines[0]) {
            assert(s.current + frame_rows(lines) =~~= s.current);
        } else {
            assert(s.current + frame_rows(lines) =~~= s.current.push(row_colors(lines[0])));
        }
        assert(asm_run_from(s, lines, rows, maxf) =~~= (AsmState {
            doc: s.doc.push(s.current + frame_rows(lines)),
            current: Seq::empty(),
            counter: 0,
            done: s.doc.len() + 1 >= maxf,
        }));
    } else {
        lemma_full_group(s1, lines.drop_first(), rows, maxf);
        if is_blank(lines[0]) {
            assert(s1.current + frame_rows(lines.drop_first()) =~~= s.current + frame_rows(
                lines,
            ));
        } else {
            assert(s1.current =~~= s.current.push(row_colors(lines[0])));
            assert(s1.current + frame_rows(lines.drop_first()) =~~= s.current + frame_rows(
                lines,
            ));
        }
        assert(asm_run_from(s, lines, rows, maxf) =~~= (AsmState {
            doc: s.doc.push(s.current + frame_rows(lines)),
            current: Seq::empty(),
            counter: 0,
            done: s.doc.len() + 1 >= maxf,
        }));
    }
}

/// The document never exceeds the cap, and consumption is over exactly
/// when the cap is reached.
pub proof fn lemma_cap_invariant(lines: Seq<Seq<char>>, rows: nat, maxf: nat)
    ensures
        asm_run(lines, rows, maxf).doc.len() <= maxf,
        asm_run(lines, rows, maxf).done == (asm_run(lines, rows, maxf).doc.len() >= maxf),
{
    lemma_cap_inv_from(asm_init(maxf), lines, rows, maxf);
}

proof fn lemma_cap_inv_from(s: AsmState, lines: Seq<Seq<char>>, rows: nat, maxf: nat)
    requires
        s.doc.len() <= maxf,
        s.done == (s.doc.len() >= maxf),
    ensures
        asm_run_from(s, lines, rows, maxf).doc.len() <= maxf,
        asm_run_from(s, lines, rows, maxf).done == (asm_run_from(s, lines, rows, maxf).doc.len()
            >= maxf),
    decreases lines.len(),
{
    if lines.len() == 0 {
    } else {
        lemma_cap_inv_from(asm_step(s, lines[0], rows, maxf), lines.drop_first(), rows, maxf);
    }
}

/// From a boundary with room for `k` more frames and exactly `k` groups of
/// lines, the run emits those `k` frames, group by group.
proof fn lemma_fill(s: AsmState, lines: Seq<Seq<char>>, rows: nat, maxf: nat, k: nat)
    requires
        rows >= 1,
        !s.done,
        s.counter == 0,
        s.current == Seq::<Seq<Seq<char>>>::empty(),
        s.doc.len() + k <= maxf,
        k >= 1,
        lines.len() == k * rows,
    ensures
        ({
            let e = asm_run_from(s, lines, rows, maxf);
            &&& e.doc.len() == s.doc.len() + k
            &&& e.done == (s.doc.len() + k >= maxf)
            &&& e.counter == 0
            &&& e.current == Seq::<Seq<Seq<char>>>::empty()
            &&& forall|j: int|
                0 <= j < k ==> #[trigger] e.doc[s.doc.len() + j] == frame_rows(
                    lines.subrange(j * rows, (j + 1) * rows),
                )
            &&& forall|j: int| 0 <= j < s.doc.len() ==> e.doc[j] == s.doc[j]
        }),
    decreases k,
{
    let head = lines.take(rows as int);
    let tail = lines.skip(rows as int);
    assert(k * rows >= 1 * rows) by (nonlinear_arith)
        requires
            k >= 1,
            rows >= 1,
    ;
    assert(lines =~= head + tail);
    lemma_run_from_concat(s, head, tail, rows, maxf);
    lemma_full_group(s, head, rows, maxf);
    let s1 = asm_run_from(s, head, rows, maxf);
    assert(s1.doc =~~= s.doc.push(frame_rows(head))) by {
        assert(s.current + frame_rows(head) =~~= frame_rows(head));
    }
    assert(head =~= lines.subrange(0int * rows, (0int + 1) * rows));
    if k == 1 {
        assert(tail.len() == 0) by {
            assert(k * rows == rows) by (nonlinear_arith)
                requires
                    k == 1,
            ;
        }
        assert(asm_run_from(s1, tail, rows, maxf) == s1);
    } else {
        assert(!s1.done);
        assert(tail.len() == (k - 1) * rows) by (nonlinear_arith)
            requires
                k >= 2,
                lines.len() == k * rows,
                tail.len() == lines.len() - rows,
        ;
        lemma_fill(s1, tail, rows, maxf, (k - 1) as nat);
        let e = asm_run_from(s1, tail, rows, maxf);
        assert forall|j: int| 0 <= j < k implies #[trigger] e.doc[s.doc.len() + j] == frame_rows(
            lines.subrange(j * rows, (j + 1) * rows),
        ) by {
            if j == 0 {
                assert(e.doc[s1.doc.len() - 1] == s1.doc[s1.doc.len() - 1]);
            } else {
                assert(0 <= (j - 1) * rows && (j - 1) * rows <= j * rows && j * rows <= (k - 1)
                    * rows) by (nonlinear_arith)
                    requires
                        1 <= j,
                        j <= k - 1,
                        rows >= 1,
                ;
                assert((j - 1) * rows + rows == j * rows && j * rows + rows == (j + 1) * rows)
                    by (nonlinear_arith);
                assert(e.doc[s1.doc.len() + (j - 1)] == frame_rows(
                    tail.subrange((j - 1) * rows, j * rows),
                ));
                assert(tail.subrange((j - 1) * rows, j * rows) =~= lines.subrange(
                    j * rows,
                    (j + 1) * rows,
                ));
            }
        }
    }
}

/// With a stream long enough for the cap's worth of boundary-aligned
/// frames, the document holds exactly the cap's number of frames, each
/// made of its own group's rows, and everything after the last boundary
/// is ignored.
pub proof fn lemma_cap_stops(lines: Seq<Seq<char>>, rows: nat, maxf: nat)
    requires
        rows >= 1,
        maxf >= 1,
        lines.len() >= maxf * rows,
    ensures
        ({
            let e = asm_run(lines, rows, maxf);
            &&& e.done
            &&& e.doc.len() == maxf
            &&& e == asm_run(lines.take((maxf * rows) as int), rows, maxf)
            &&& forall|j: int|
                0 <= j < maxf ==> e.doc[j] == frame_rows(lines.subrange(j * rows, (j + 1) * rows))
        }),
{
    let head = lines.take((maxf * rows) as int);
    let tail = lines.skip((maxf * rows) as int);
    assert(lines =~= head + tail);
    lemma_run_from_concat(asm_init(maxf), head, tail, rows, maxf);
    lemma_fill(asm_init(maxf), head, rows, maxf, maxf);
    let s1 = asm_run_from(asm_init(maxf), head, rows, maxf);
    lemma_done_absorbs(s1, tail, rows, maxf);
    assert forall|j: int| 0 <= j < maxf implies asm_run(lines, rows, maxf).doc[j] == frame_rows(
        lines.subrange(j * rows, (j + 1) * rows),
    ) by {
        assert(0 <= j * rows && j * rows <= (j + 1) * rows && (j + 1) * rows <= maxf * rows)
            by (nonlinear_arith)
            requires
                0 <= j,
                j + 1 <= maxf,
                rows >= 1,
        ;
        assert(asm_init(maxf).doc.len() == 0);
        assert(s1.doc[asm_init(maxf).doc.len() + j] == frame_rows(
            head.subrange(j * rows, (j + 1) * rows),
        ));
        assert(s1.doc[j] == frame_rows(head.subrange(j * rows, (j + 1) * rows)));
        assert(head.subrange(j * rows, (j + 1) * rows) =~= lines.subrange(j * rows, (j + 1)
            * rows));
    }
}

/// One complete group followed by a short partial tail: exactly one frame
/// is emitted, from the first group alone, and the tail's rows are
/// dropped at the end of the stream rather than emitted.
pub proof fn lemma_partial_tail_dropped(lines: Seq<Seq<char>>, rows: nat, maxf: nat)
    requires
        rows >= 1,
        maxf >= 1,
        lines.len() >= rows,
        lines.len() < 2 * rows,
    ensures
        asm_run(lines, rows, maxf).doc == seq![frame_rows(lines.take(rows as int))],
{
    let head = lines.take(rows as int);
    let tail = lines.skip(rows as int);
    assert(lines =~= head + tail);
    lemma_run_from_concat(asm_init(maxf), head, tail, rows, maxf);
    lemma_full_group(asm_init(maxf), head, rows, maxf);
    let s1 = asm_run_from(asm_init(maxf), head, rows, maxf);
    assert(s1.doc =~~= seq![frame_rows(head)]) by {
        assert(asm_init(maxf).current + frame_rows(head) =~~= frame_rows(head));
        assert(asm_init(maxf).doc.push(asm_init(maxf).current + frame_rows(head))
            =~~= seq![frame_rows(head)]);
    }
    if s1.done {
        lemma_done_absorbs(s1, tail, rows, maxf);
    } else {
        lemma_partial_group(s1, tail, rows, maxf);
    }
}

/// Consuming one more line runs one more step.
pub proof fn lemma_run_push(lines: Seq<Seq<char>>, line: Seq<char>, rows: nat, maxf: nat)
    ensures
        asm_run(lines.push(line), rows, maxf) == asm_step(
            asm_run(lines, rows, maxf),
            line,
            rows,
            maxf,
        ),
{
    lemma_run_from_push(asm_init(maxf), lines, line, rows, maxf);
}

proof fn lemma_run_from_push(
    s: AsmState,
    lines: Seq<Seq<char>>,
    line: Seq<char>,
    rows: nat,
    maxf: nat,
)
    ensures
        asm_run_from(s, lines.push(line), rows, maxf) == asm_step(
            asm_run_from(s, lines, rows, maxf),
            line,
            rows,
            maxf,
        ),
    decreases lines.len(),
{
    let p = lines.push(line);
    if lines.len() == 0 {
        assert(p[0] == line);
        assert(p.drop_first() =~= Seq::<Seq<char>>::empty());
        assert(asm_run_from(s, p, rows, maxf) == asm_run_from(
            asm_step(s, line, rows, maxf),
            p.drop_first(),
            rows,
            maxf,
        ));
        assert(asm_run_from(s, p.drop_first(), rows, maxf) == s);
        assert(asm_run_from(s, lines, rows, maxf) == s);
    } else {
        assert(p[0] == lines[0]);
        assert(p.drop_first() =~= lines.drop_first().push(line));
        let s1 = asm_step(s, lines[0], rows, maxf);
        assert(asm_run_from(s, p, rows, maxf) == asm_run_from(s1, p.drop_first(), rows, maxf));
        assert(asm_run_from(s, lines, rows, maxf) == asm_run_from(
            s1,
            lines.drop_first(),
            rows,
            maxf,
        ));
        lemma_run_from_push(s1, lines.drop_first(), line, rows, maxf);
    }
}

} // verus!
