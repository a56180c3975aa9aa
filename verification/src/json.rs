//! The JSON writer: serializes the finished document, pretty-printed, as
//! `{ "frames": [ { "pixels": [ [ {"character": ..., "color": ...}, ...
//! ], ... ] }, ... ] }`, two spaces per nesting level.
//!
//! The exact text is pinned down by [`json_of_gif`]; writing the file is
//! the caller's business.

use vstd::prelude::*;
use vstd::string::StringExecFns;

use crate::assemble::Frame;
use crate::assemble::Gif;
use crate::chars::hex_digit;
use crate::chars::hex_digit_char;
use crate::chars::push_char;
use crate::decode::Pixel;

verus! {

/// A character as it stands inside a JSON string: quote and backslash are
/// escaped, control characters take the `\u00XX` form, everything else
/// stands as itself.
pub open spec fn escape_char(c: char) -> Seq<char> {
    if c == '"' {
        seq!['\\', '"']
    } else if c == '\\' {
        seq!['\\', '\\']
    } else if (c as u32) < 32 {
        seq!['\\', 'u', '0', '0', hex_digit_char((c as u32 / 16) as nat), hex_digit_char(
            (c as u32 % 16) as nat,
        )]
    } else {
        seq![c]
    }
}

/// The pieces, joined with the separator between neighbours.
pub open spec fn joined(items: Seq<Seq<char>>, sep: Seq<char>) -> Seq<char>
    decreases items.len(),
{
    if items.len() == 0 {
        Seq::empty()
    } else if items.len() == 1 {
        items[0]
    } else {
        joined(items.drop_last(), sep) + sep + items.last()
    }
}

/// One pixel as a JSON object with its two fields.
pub open spec fn json_of_pixel(p: Pixel) -> Seq<char> {
    "{\n            \"character\": \""@ + escape_char(p.character)
        + "\",\n            \"color\": \""@ + p.color@ + "\"\n          }"@
}

/// One row as a JSON array of pixel objects.
pub open spec fn json_of_row(row: Seq<Pixel>) -> Seq<char> {
    if row.len() == 0 {
        "[]"@
    } else {
        "[\n          "@ + joined(
            row.map_values(|p: Pixel| json_of_pixel(p)),
            ",\n          "@,
        ) + "\n        ]"@
    }
}

/// A frame's rows as a JSON array of row arrays.
pub open spec fn json_of_rows(rows: Seq<Vec<Pixel>>) -> Seq<char> {
    if rows.len() == 0 {
        "[]"@
    } else {
        "[\n        "@ + joined(
            rows.map_values(|r: Vec<Pixel>| json_of_row(r@)),
            ",\n        "@,
        ) + "\n      ]"@
    }
}

/// One frame as a JSON object holding its `pixels`.
pub open spec fn json_of_frame(f: Frame) -> Seq<char> {
    "{\n      \"pixels\": "@ + json_of_rows(f.pixels@) + "\n    }"@
}

/// The document's frames as a JSON array of frame objects.
pub open spec fn json_of_frames(frames: Seq<Frame>) -> Seq<char> {
    if frames.len() == 0 {
        "[]"@
    } else {
        "[\n    "@ + joined(frames.map_values(|f: Frame| json_of_frame(f)), ",\n    "@)
            + "\n  ]"@
    }
}

/// The whole document as a JSON object holding its `frames`.
pub open spec fn json_of_gif(g: Gif) -> Seq<char> {
    "{\n  \"frames\": "@ + json_of_frames(g.frames@) + "\n}"@
}

/// No two characters share a JSON-string form: the escaping loses nothing.
pub proof fn lemma_escape_injective(c1: char, c2: char)
    requires
        escape_char(c1) == escape_char(c2),
    ensures
        c1 == c2,
{
    let e1 = escape_char(c1);
    let e2 = escape_char(c2);
    if e1.len() == 1 {
        assert(e1[0] == c1);
        assert(e2[0] == c2);
    } else if e1.len() == 2 {
        assert(e1[1] == e2[1]);
    } else {
        crate::decode::lemma_hex_digit_val((c1 as u32 / 16) as nat);
        crate::decode::lemma_hex_digit_val((c1 as u32 % 16) as nat);
        crate::decode::lemma_hex_digit_val((c2 as u32 / 16) as nat);
        crate::decode::lemma_hex_digit_val((c2 as u32 % 16) as nat);
        assert(e1[4] == e2[4] && e1[5] == e2[5]);
        assert(c1 as u32 / 16 == c2 as u32 / 16);
        assert(c1 as u32 % 16 == c2 as u32 % 16);
        assert(c1 as u32 == c2 as u32);
    }
}

/// A pixel's serialized text determines the pixel: two pixels whose color
/// strings have the color length and whose JSON objects read the same are
/// the same, character and color.
pub proof fn lemma_pixel_json_faithful(p1: Pixel, p2: Pixel)
    requires
        json_of_pixel(p1) == json_of_pixel(p2),
        p1.color@.len() == 7,
        p2.color@.len() == 7,
    ensures
        p1.character == p2.character,
        p1.color@ == p2.color@,
{
    let a = "{\n            \"character\": \""@.len() as int;
    let b = "\",\n            \"color\": \""@.len() as int;
    let t1 = json_of_pixel(p1);
    let t2 = json_of_pixel(p2);
    let e1 = escape_char(p1.character);
    let e2 = escape_char(p2.character);
    assert(t1.len() == t2.len());
    assert(e1.len() == e2.len());
    assert(e1 =~= t1.subrange(a, a + e1.len()));
    assert(e2 =~= t2.subrange(a, a + e2.len()));
    lemma_escape_injective(p1.character, p2.character);
    assert(p1.color@ =~= t1.subrange(a + e1.len() + b, a + e1.len() + b + 7));
    assert(p2.color@ =~= t2.subrange(a + e2.len() + b, a + e2.len() + b + 7));
}

/// Appends one character in its JSON-string form.
fn write_escaped(out: &mut String, c: char)
    ensures
        final(out)@ == old(out)@ + escape_char(c),
{
    if c == '"' {
        out.append("\\\"");
        proof {
            reveal_strlit("\\\"");
            assert(final(out)@ =~= old(out)@ + escape_char(c));
        }
    } else if c == '\\' {
        out.append("\\\\");
        proof {
            reveal_strlit("\\\\");
            assert(final(out)@ =~= old(out)@ + escape_char(c));
        }
    } else if (c as u32) < 32 {
        out.append("\\u00");
        push_char(out, hex_digit((c as u32 / 16) as u8));
        push_char(out, hex_digit((c as u32 % 16) as u8));
        proof {
            reveal_strlit("\\u00");
            assert(final(out)@ =~= old(out)@ + escape_char(c));
        }
    } else {
        push_char(out, c);
        proof {
            assert(final(out)@ =~= old(out)@ + escape_char(c));
        }
    }
}

/// Appends one pixel object.
fn write_pixel(out: &mut String, p: &Pixel)
    ensures
        final(out)@ == old(out)@ + json_of_pixel(*p),
{
    out.append("{\n            \"character\": \"");
    write_escaped(out, p.character);
    out.append("\",\n            \"color\": \"");
    out.append(p.color.as_str());
    out.append("\"\n          }");
    proof {
        assert(final(out)@ =~= old(out)@ + json_of_pixel(*p));
    }
}

/// Appends one row array.
fn write_row(out: &mut String, row: &Vec<Pixel>)
    ensures
        final(out)@ == old(out)@ + json_of_row(row@),
{
    let n = row.len();
    if n == 0 {
        out.append("[]");
        return ;
    }
    let ghost items = row@.map_values(|p: Pixel| json_of_pixel(p));
    out.append("[\n          ");
    let ghost base = out@;
    let mut i: usize = 0;
    proof {
        assert(items.take(0) =~= Seq::<Seq<char>>::empty());
    }
    while i < n
        invariant
            n == row@.len(),
            0 < n,
            0 <= i <= n,
            items == row@.map_values(|p: Pixel| json_of_pixel(p)),
            out@ == base + joined(items.take(i as int), ",\n          "@),
        decreases n - i,
    {
        if i > 0 {
            out.append(",\n          ");
        }
        write_pixel(out, &row[i]);
        proof {
            assert(items.take(i + 1).drop_last() =~= items.take(i as int));
            assert(items.take(i + 1).last() == items[i as int]);
            assert(items[i as int] == json_of_pixel(row@[i as int]));
            assert(out@ =~= base + joined(items.take(i + 1), ",\n          "@));
        }
        i = i + 1;
    }
    out.append("\n        ]");
    proof {
        assert(items.take(n as int) =~= items);
        assert(final(out)@ =~= old(out)@ + json_of_row(row@));
    }
}

/// Appends a frame's array of rows.
fn write_rows(out: &mut String, rows: &Vec<Vec<Pixel>>)
    ensures
        final(out)@ == old(out)@ + json_of_rows(rows@),
{
    let n = rows.len();
    if n == 0 {
        out.append("[]");
        return ;
    }
    let ghost items = rows@.map_values(|r: Vec<Pixel>| json_of_row(r@));
    out.append("[\n        ");
    let ghost base = out@;
    let mut i: usize = 0;
    proof {
        assert(items.take(0) =~= Seq::<Seq<char>>::empty());
    }
    while i < n
        invariant
            n == rows@.len(),
            0 < n,
            0 <= i <= n,
            items == rows@.map_values(|r: Vec<Pixel>| json_of_row(r@)),
            out@ == base + joined(items.take(i as int), ",\n        "@),
        decreases n - i,
    {
        if i > 0 {
            out.append(",\n        ");
        }
        write_row(out, &rows[i]);
        proof {
            assert(items.take(i + 1).drop_last() =~= items.take(i as int));
            assert(items.take(i + 1).last() == items[i as int]);
            assert(items[i as int] == json_of_row(rows@[i as int]@));
            assert(out@ =~= base + joined(items.take(i + 1), ",\n        "@));
        }
        i = i + 1;
    }
    out.append("\n      ]");
    proof {
        assert(items.take(n as int) =~= items);
        assert(final(out)@ =~= old(out)@ + json_of_rows(rows@));
    }
}

/// Appends one frame object.
fn write_frame(out: &mut String, f: &Frame)
    ensures
        final(out)@ == old(out)@ + json_of_frame(*f),
{
    out.append("{\n      \"pixels\": ");
    write_rows(out, &f.pixels);
    out.append("\n    }");
    proof {
        assert(final(out)@ =~= old(out)@ + json_of_frame(*f));
    }
}

/// Appends the document's array of frames.
fn write_frames(out: &mut String, frames: &Vec<Frame>)
    ensures
        final(out)@ == old(out)@ + json_of_frames(frames@),
{
    let n = frames.len();
    if n == 0 {
        out.append("[]");
        return ;
    }
    let ghost items = frames@.map_values(|f: Frame| json_of_frame(f));
    out.append("[\n    ");
    let ghost base = out@;
    let mut i: usize = 0;
    proof {
        assert(items.take(0) =~= Seq::<Seq<char>>::empty());
    }
    while i < n
        invariant
            n == frames@.len(),
            0 < n,
            0 <= i <= n,
            items == frames@.map_values(|f: Frame| json_of_frame(f)),
            out@ == base + joined(items.take(i as int), ",\n    "@),
        decreases n - i,
    {
        if i > 0 {
            out.append(",\n    ");
        }
        write_frame(out, &frames[i]);
        proof {
            assert(items.take(i + 1).drop_last() =~= items.take(i as int));
            assert(items.take(i + 1).last() == items[i as int]);
            assert(items[i as int] == json_of_frame(frames@[i as int]));
            assert(out@ =~= base + joined(items.take(i + 1), ",\n    "@));
        }
        i = i + 1;
    }
    out.append("\n  ]");
    proof {
        assert(items.take(n as int) =~= items);
        assert(final(out)@ =~= old(out)@ + json_of_frames(frames@));
    }
}

/// The document serialized as pretty-printed JSON text: exactly
/// [`json_of_gif`] of it.
pub fn document_to_json(g: &Gif) -> (s: String)
    ensures
        s@ == json_of_gif(*g),
{
    let mut s = String::new();
    s.append("{\n  \"frames\": ");
    write_frames(&mut s, &g.frames);
    s.append("\n}");
    proof {
        assert(s@ =~= json_of_gif(*g));
    }
    s
}

} // verus!
