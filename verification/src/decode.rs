//! The pixel decoder: turns one escape-annotated text line into a row of
//! colored character cells.
//!
//! A line is first cleaned of literal double quotes, then split on `#`.
//! Every non-blank piece is a candidate color-control segment: after
//! removing every `m`, it is split on `;`, and the last three fields must
//! each parse as an unsigned 8-bit integer. A segment with fewer than three
//! fields is dropped and reported as a diagnostic; one whose last three
//! fields do not all parse in range is dropped silently.

use vstd::prelude::*;

use crate::chars::chars_of;
use crate::chars::hex_digit;
use crate::chars::hex_digit_char;
use crate::chars::is_blank;
use crate::chars::is_blank_vec;
use crate::chars::push_char;
use crate::chars::split_on;
use crate::chars::split_vec;
use crate::chars::string_of_chars;
use crate::chars::strip_char;
use crate::chars::strip_vec;

verus! {

/// A decimal digit, `'0'` through `'9'`.
pub open spec fn is_digit_char(c: char) -> bool {
    48 <= c as u32 && c as u32 <= 57
}

/// The numeric value of a decimal digit; zero for any other character.
pub open spec fn digit_val(c: char) -> nat {
    if is_digit_char(c) {
        (c as u32 - 48) as nat
    } else {
        0
    }
}

pub open spec fn all_digits(s: Seq<char>) -> bool {
    forall|i: int| 0 <= i < s.len() ==> is_digit_char(s[i])
}

/// The value of a digit string read in base ten.
pub open spec fn dec_val(s: Seq<char>) -> nat
    decreases s.len(),
{
    if s.len() == 0 {
        0
    } else {
        dec_val(s.drop_last()) * 10 + digit_val(s.last())
    }
}

/// The digits of a field, after the optional leading `+` sign that
/// `u8::from_str` accepts.
pub open spec fn dec_digits(s: Seq<char>) -> Seq<char> {
    if s.len() > 0 && s[0] == '+' {
        s.drop_first()
    } else {
        s
    }
}

/// Whether `u8::from_str` accepts `s`: an optional `+`, then at least one
/// digit, all digits, with a value of at most 255.
pub open spec fn is_dec_u8(s: Seq<char>) -> bool {
    let d = dec_digits(s);
    d.len() > 0 && all_digits(d) && dec_val(d) <= 255
}

/// The value of an accepted field.
pub open spec fn dec_u8_val(s: Seq<char>) -> nat {
    dec_val(dec_digits(s))
}

/// Two uppercase hexadecimal digits for a channel value, zero-padded.
pub open spec fn hex2(v: nat) -> Seq<char> {
    seq![hex_digit_char(v / 16), hex_digit_char(v % 16)]
}

/// The color string `#RRGGBB`: a `#` and three zero-padded uppercase
/// two-digit hexadecimal channels.
pub open spec fn hex_color(r: nat, g: nat, b: nat) -> Seq<char> {
    seq!['#'] + hex2(r) + hex2(g) + hex2(b)
}

/// The `;`-separated fields of a segment after `m`-stripping.
pub open spec fn seg_fields(seg: Seq<char>) -> Seq<Seq<char>> {
    split_on(strip_char(seg, 'm'), ';')
}

/// A segment decodes when it has at least three fields and the last three
/// each parse as an unsigned 8-bit integer.
pub open spec fn seg_ok(seg: Seq<char>) -> bool {
    let f = seg_fields(seg);
    f.len() >= 3 && is_dec_u8(f[f.len() - 3]) && is_dec_u8(f[f.len() - 2]) && is_dec_u8(
        f[f.len() - 1],
    )
}

/// The color a decodable segment yields, from its last three fields.
pub open spec fn seg_color(seg: Seq<char>) -> Seq<char> {
    let f = seg_fields(seg);
    hex_color(dec_u8_val(f[f.len() - 3]), dec_u8_val(f[f.len() - 2]), dec_u8_val(f[f.len() - 1]))
}

/// The segments of a line: the quote-cleaned line split on `#`.
pub open spec fn clean_segments(line: Seq<char>) -> Seq<Seq<char>> {
    split_on(strip_char(line, '"'), '#')
}

/// The colors decoded from a sequence of segments, in order: blank segments
/// and segments that do not decode are passed over.
pub open spec fn colors_of_segments(segs: Seq<Seq<char>>) -> Seq<Seq<char>>
    decreases segs.len(),
{
    if segs.len() == 0 {
        Seq::empty()
    } else {
        let rest = colors_of_segments(segs.drop_first());
        if !is_blank(segs[0]) && seg_ok(segs[0]) {
            seq![seg_color(segs[0])] + rest
        } else {
            rest
        }
    }
}

/// The diagnostics a sequence of segments provokes: one per non-blank
/// segment with fewer than three fields, holding the segment itself.
/// A segment that fails only on a field's value provokes none.
pub open spec fn diags_of_segments(segs: Seq<Seq<char>>) -> Seq<Seq<char>>
    decreases segs.len(),
{
    if segs.len() == 0 {
        Seq::empty()
    } else {
        let rest = diags_of_segments(segs.drop_first());
        if !is_blank(segs[0]) && seg_fields(segs[0]).len() < 3 {
            seq![segs[0]] + rest
        } else {
            rest
        }
    }
}

/// The colors of one line's row, in source order.
pub open spec fn row_colors(line: Seq<char>) -> Seq<Seq<char>> {
    colors_of_segments(clean_segments(line))
}

/// The diagnostics one line provokes.
pub open spec fn row_diags(line: Seq<char>) -> Seq<Seq<char>> {
    diags_of_segments(clean_segments(line))
}

/// One colored character cell.
#[derive(Clone, Debug)]
pub struct Pixel {
    /// The fixed display glyph every pixel of a run shares.
    pub character: char,
    /// The color as `#RRGGBB`, uppercase, always 7 characters.
    pub color: String,
}

/// Why a segment failed to decode. Only a field-count failure is reported
/// on the diagnostic stream; a field that does not parse in range drops
/// the segment silently.
#[derive(Clone, Copy, Debug, PartialEq, Eq, Structural)]
pub enum PixelError {
    /// Fewer than three fields remained after `m`-stripping.
    TooFewFields,
    /// One of the last three fields was non-numeric or above 255.
    BadFieldValue,
}

/// The value of any prefix of a digit string never exceeds the whole.
proof fn lemma_dec_val_prefix(s: Seq<char>, i: int)
    requires
        0 <= i <= s.len(),
    ensures
        dec_val(s.take(i)) <= dec_val(s),
    decreases s.len() - i,
{
    if i == s.len() {
        assert(s.take(i) =~= s);
    } else {
        assert(s.take(i + 1).drop_last() =~= s.take(i));
        assert(s.take(i + 1).last() == s[i]);
        assert(dec_val(s.take(i)) <= dec_val(s.take(i + 1)));
        lemma_dec_val_prefix(s, i + 1);
    }
}

fn is_digit(c: char) -> (r: bool)
    ensures
        r == is_digit_char(c),
{
    48 <= c as u32 && c as u32 <= 57
}

/// Parses one field as `u8::from_str` would: `Some` exactly on an optional
/// `+` followed by digits whose value fits in eight bits.
pub fn parse_u8_field(v: &Vec<char>) -> (r: Option<u8>)
    ensures
        is_dec_u8(v@) ==> r == Some((dec_u8_val(v@) as u8)),
        !is_dec_u8(v@) ==> r is None,
{
    let n = v.len();
    let start: usize = if n > 0 && v[0] == '+' {
        1
    } else {
        0
    };
    let ghost d = dec_digits(v@);
    proof {
        assert(d =~= v@.skip(start as int));
    }
    if n == start {
        return None;
    }
    let mut acc: u32 = 0;
    let mut j: usize = start;
    proof {
        assert(d.take(0) =~= Seq::<char>::empty());
    }
    while j < n
        invariant
            n == v@.len(),
            start <= j <= n,
            d == dec_digits(v@),
            d == v@.skip(start as int),
            acc <= 255,
            acc == dec_val(d.take(j - start)),
            all_digits(d.take(j - start)),
        decreases n - j,
    {
        let c = v[j];
        proof {
            assert(d[j - start] == v@[j as int]);
        }
        if !is_digit(c) {
            proof {
                assert(!is_digit_char(d[j - start]));
                assert(!all_digits(d));
                assert(!is_dec_u8(v@));
            }
            return None;
        }
        proof {
            assert(c as u32 >= 48);
        }
        let dv: u32 = c as u32 - 48;
        let next: u32 = acc * 10 + dv;
        proof {
            assert(d.take(j + 1 - start).drop_last() =~= d.take(j - start));
            assert(d.take(j + 1 - start).last() == d[j - start]);
            assert(next == dec_val(d.take(j + 1 - start)));
        }
        if next > 255 {
            proof {
                lemma_dec_val_prefix(d, j + 1 - start);
                assert(dec_val(d) > 255);
                assert(!is_dec_u8(v@));
            }
            return None;
        }
        acc = next;
        j = j + 1;
    }
    proof {
        assert(d.take(n - start) =~= d);
    }
    Some(acc as u8)
}

/// The hexadecimal color string for three channel values: `#` then three
/// zero-padded uppercase two-digit channels.
pub fn rgb_to_hex(r: u8, g: u8, b: u8) -> (s: String)
    ensures
        s@ == hex_color(r as nat, g as nat, b as nat),
{
    let mut s = String::new();
    push_char(&mut s, '#');
    push_char(&mut s, hex_digit(r / 16));
    push_char(&mut s, hex_digit(r % 16));
    push_char(&mut s, hex_digit(g / 16));
    push_char(&mut s, hex_digit(g % 16));
    push_char(&mut s, hex_digit(b / 16));
    push_char(&mut s, hex_digit(b % 16));
    proof {
        assert(s@ =~= hex_color(r as nat, g as nat, b as nat));
    }
    s
}

/// Decodes one segment, given as its character sequence.
fn pixel_of_chars(seg: &Vec<char>, character: char) -> (r: Result<Pixel, PixelError>)
    ensures
        seg_fields(seg@).len() < 3 ==> r == Err::<Pixel, PixelError>(PixelError::TooFewFields),
        seg_fields(seg@).len() >= 3 && !seg_ok(seg@) ==> r == Err::<Pixel, PixelError>(
            PixelError::BadFieldValue,
        ),
        seg_ok(seg@) ==> (r matches Ok(p) && p.character == character && p.color@ == seg_color(
            seg@,
        )),
{
    let stripped = strip_vec(seg, 'm');
    let fields = split_vec(&stripped, ';');
    let n = fields.len();
    proof {
        assert(fields.deep_view() == seg_fields(seg@));
        assert(n == seg_fields(seg@).len());
    }
    if n < 3 {
        return Err(PixelError::TooFewFields);
    }
    proof {
        assert(fields@[n - 3]@ =~= seg_fields(seg@)[n - 3]);
        assert(fields@[n - 2]@ =~= seg_fields(seg@)[n - 2]);
        assert(fields@[n - 1]@ =~= seg_fields(seg@)[n - 1]);
    }
    let r = match parse_u8_field(&fields[n - 3]) {
        Some(v) => v,
        None => { return Err(PixelError::BadFieldValue); },
    };
    let g = match parse_u8_field(&fields[n - 2]) {
        Some(v) => v,
        None => { return Err(PixelError::BadFieldValue); },
    };
    let b = match parse_u8_field(&fields[n - 1]) {
        Some(v) => v,
        None => { return Err(PixelError::BadFieldValue); },
    };
    let color = rgb_to_hex(r, g, b);
    Ok(Pixel { character, color })
}

/// Decodes one `#`-split segment of a cleaned line, returning the failure
/// kind in place of any diagnostic printing; the caller decides what to
/// report.
pub fn create_pixel(segment: &str, character: char) -> (r: Result<Pixel, PixelError>)
    ensures
        seg_fields(segment@).len() < 3 ==> r == Err::<Pixel, PixelError>(PixelError::TooFewFields),
        seg_fields(segment@).len() >= 3 && !seg_ok(segment@) ==> r == Err::<Pixel, PixelError>(
            PixelError::BadFieldValue,
        ),
        seg_ok(segment@) ==> (r matches Ok(p) && p.character == character && p.color@ == seg_color(
            segment@,
        )),
{
    let chars = chars_of(segment);
    pixel_of_chars(&chars, character)
}

/// Decodes one line into its row of pixels and the diagnostics it provokes:
/// one diagnostic, holding the offending segment, per non-blank segment
/// with fewer than three fields.
pub fn decode_line(line: &str, character: char) -> (r: (Vec<Pixel>, Vec<String>))
    ensures
        r.0@.map_values(|p: Pixel| p.color@) == row_colors(line@),
        forall|i: int| 0 <= i < r.0@.len() ==> r.0@[i].character == character,
        r.1.deep_view() == row_diags(line@),
{
    let chars = chars_of(line);
    let cleaned = strip_vec(&chars, '"');
    let segs = split_vec(&cleaned, '#');
    let ghost sd = clean_segments(line@);
    let n = segs.len();
    let mut pixels: Vec<Pixel> = Vec::new();
    let mut diags: Vec<String> = Vec::new();
    let mut i: usize = 0;
    proof {
        assert(sd.skip(0) =~= sd);
        assert(pixels@.map_values(|p: Pixel| p.color@) + colors_of_segments(sd.skip(0))
            =~= colors_of_segments(sd));
        assert(diags.deep_view() + diags_of_segments(sd.skip(0)) =~= diags_of_segments(sd));
    }
    while i < n
        invariant
            n == sd.len(),
            0 <= i <= n,
            sd == segs.deep_view(),
            pixels@.map_values(|p: Pixel| p.color@) + colors_of_segments(sd.skip(i as int))
                == colors_of_segments(sd),
            diags.deep_view() + diags_of_segments(sd.skip(i as int)) == diags_of_segments(sd),
            forall|k: int| 0 <= k < pixels@.len() ==> pixels@[k].character == character,
        decreases n - i,
    {
        proof {
            assert(sd.skip(i as int).drop_first() =~= sd.skip(i as int + 1));
            assert(sd.skip(i as int)[0] == sd[i as int]);
            assert(segs@[i as int]@ =~= sd[i as int]);
        }
        let ghost old_pixels = pixels@;
        let ghost old_diags = diags.deep_view();
        if !is_blank_vec(&segs[i]) {
            match pixel_of_chars(&segs[i], character) {
                Ok(p) => {
                    pixels.push(p);
                    proof {
                        assert(pixels@.map_values(|p: Pixel| p.color@) =~= old_pixels.map_values(
                            |p: Pixel| p.color@,
                        ).push(seg_color(sd[i as int])));
                        assert(pixels@.map_values(|p: Pixel| p.color@) + colors_of_segments(
                            sd.skip(i as int + 1),
                        ) =~= colors_of_segments(sd));
                    }
                },
                Err(PixelError::TooFewFields) => {
                    let text = string_of_chars(&segs[i]);
                    diags.push(text);
                    proof {
                        assert(diags.deep_view() =~~= old_diags.push(sd[i as int]));
                        assert(diags.deep_view() + diags_of_segments(sd.skip(i as int + 1))
                            =~~= diags_of_segments(sd));
                    }
                },
                Err(PixelError::BadFieldValue) => {},
            }
        }
        i = i + 1;
    }
    proof {
        assert(sd.skip(n as int) =~= Seq::<Seq<char>>::empty());
        assert(pixels@.map_values(|p: Pixel| p.color@) =~= colors_of_segments(sd));
        assert(diags.deep_view() =~~= diags_of_segments(sd));
    }
    (pixels, diags)
}

/// An uppercase hexadecimal digit.
pub open spec fn is_upper_hex_digit(c: char) -> bool {
    (48 <= c as u32 && c as u32 <= 57) || (65 <= c as u32 && c as u32 <= 70)
}

/// The value of an uppercase hexadecimal digit; zero elsewhere.
pub open spec fn hex_val(c: char) -> nat {
    if 48 <= c as u32 && c as u32 <= 57 {
        (c as u32 - 48) as nat
    } else if 65 <= c as u32 && c as u32 <= 70 {
        (c as u32 - 55) as nat
    } else {
        0
    }
}

/// The hexadecimal digit characters are uppercase and carry their value.
pub proof fn lemma_hex_digit_val(n: nat)
    requires
        n < 16,
    ensures
        is_upper_hex_digit(hex_digit_char(n)),
        hex_val(hex_digit_char(n)) == n,
{
}

/// Every channel value in range renders as `#RRGGBB`: seven characters, a
/// leading `#`, six uppercase hexadecimal digits, zero-padded, and each
/// two-digit pair reads back as its channel.
pub proof fn lemma_hex_color_faithful(r: nat, g: nat, b: nat)
    requires
        r <= 255,
        g <= 255,
        b <= 255,
    ensures
        hex_color(r, g, b).len() == 7,
        hex_color(r, g, b)[0] == '#',
        forall|i: int| 1 <= i < 7 ==> is_upper_hex_digit(hex_color(r, g, b)[i]),
        hex_val(hex_color(r, g, b)[1]) * 16 + hex_val(hex_color(r, g, b)[2]) == r,
        hex_val(hex_color(r, g, b)[3]) * 16 + hex_val(hex_color(r, g, b)[4]) == g,
        hex_val(hex_color(r, g, b)[5]) * 16 + hex_val(hex_color(r, g, b)[6]) == b,
{
    let s = hex_color(r, g, b);
    assert(s =~= seq![
        '#',
        hex_digit_char(r / 16),
        hex_digit_char(r % 16),
        hex_digit_char(g / 16),
        hex_digit_char(g % 16),
        hex_digit_char(b / 16),
        hex_digit_char(b % 16),
    ]);
    lemma_hex_digit_val(r / 16);
    lemma_hex_digit_val(r % 16);
    lemma_hex_digit_val(g / 16);
    lemma_hex_digit_val(g % 16);
    lemma_hex_digit_val(b / 16);
    lemma_hex_digit_val(b % 16);
}

/// What a single segment contributes: its color when it is non-blank and
/// decodes, a diagnostic when it is non-blank with too few fields, and
/// nothing otherwise.
pub proof fn lemma_segments_one(seg: Seq<char>)
    ensures
        colors_of_segments(seq![seg]) == if !is_blank(seg) && seg_ok(seg) {
            seq![seg_color(seg)]
        } else {
            Seq::<Seq<char>>::empty()
        },
        diags_of_segments(seq![seg]) == if !is_blank(seg) && seg_fields(seg).len() < 3 {
            seq![seg]
        } else {
            Seq::<Seq<char>>::empty()
        },
{
    let tail = seq![seg].drop_first();
    assert(tail =~= Seq::<Seq<char>>::empty());
    assert(colors_of_segments(tail) =~= Seq::<Seq<char>>::empty());
    assert(diags_of_segments(tail) =~= Seq::<Seq<char>>::empty());
    assert(seq![seg][0] == seg);
    if !is_blank(seg) && seg_ok(seg) {
        assert(colors_of_segments(seq![seg]) =~= seq![seg_color(seg)]);
    }
    if !is_blank(seg) && seg_fields(seg).len() < 3 {
        assert(diags_of_segments(seq![seg]) =~= seq![seg]);
    }
}

/// A segment with fewer than three fields after `m`-stripping never
/// decodes: alone on a line it yields no pixel, and it provokes exactly
/// one diagnostic when it is not blank.
pub proof fn lemma_few_fields_dropped(seg: Seq<char>)
    requires
        seg_fields(seg).len() < 3,
    ensures
        !seg_ok(seg),
        colors_of_segments(seq![seg]) == Seq::<Seq<char>>::empty(),
        !is_blank(seg) ==> diags_of_segments(seq![seg]) == seq![seg],
{
    lemma_segments_one(seg);
}

/// A segment whose three trailing fields are present but do not all parse
/// as 0 through 255 is dropped too, and silently: no pixel, no diagnostic.
pub proof fn lemma_bad_value_dropped(seg: Seq<char>)
    requires
        seg_fields(seg).len() >= 3,
        !seg_ok(seg),
    ensures
        colors_of_segments(seq![seg]) == Seq::<Seq<char>>::empty(),
        diags_of_segments(seq![seg]) == Seq::<Seq<char>>::empty(),
{
    lemma_segments_one(seg);
}

/// A line with no `#` has one single segment, so its row holds at most one
/// pixel and its decoding is never an error; a blank such line decodes to
/// the empty row.
pub proof fn lemma_no_hash_line(line: Seq<char>)
    requires
        !line.contains('#'),
    ensures
        row_colors(line).len() <= 1,
        is_blank(line) ==> row_colors(line) == Seq::<Seq<char>>::empty(),
{
    let cleaned = strip_char(line, '"');
    assert(!cleaned.contains('#')) by {
        lemma_strip_no_new_chars(line, '"');
    }
    crate::chars::lemma_split_no_sep(cleaned, '#');
    lemma_segments_one(cleaned);
    if is_blank(line) {
        assert(!line.contains('"')) by {
            if line.contains('"') {
                let i = choose|i: int| 0 <= i < line.len() && line[i] == '"';
                assert(crate::chars::is_space_char(line[i]));
            }
        }
        crate::chars::lemma_strip_absent(line, '"');
        assert(is_blank(cleaned));
    }
}

/// Stripping characters introduces none: a `#` in the stripped sequence
/// was already there before.
proof fn lemma_strip_no_new_chars(s: Seq<char>, ch: char)
    requires
        !s.contains('#'),
    ensures
        !strip_char(s, ch).contains('#'),
    decreases s.len(),
{
    if s.len() == 0 {
    } else {
        assert(s.drop_first().contains('#') ==> s.contains('#')) by {
            if s.drop_first().contains('#') {
                let i = choose|i: int|
                    0 <= i < s.drop_first().len() && s.drop_first()[i] == '#';
                assert(s[i + 1] == '#');
            }
        }
        lemma_strip_no_new_chars(s.drop_first(), ch);
        if s[0] != ch {
            let rest = strip_char(s.drop_first(), ch);
            assert forall|i: int| 0 <= i < strip_char(s, ch).len() implies strip_char(s, ch)[i]
                != '#' by {
                if i == 0 {
                    assert(strip_char(s, ch)[0] == s[0]);
                } else {
                    assert(strip_char(s, ch)[i] == rest[i - 1]);
                }
            }
        }
    }
}

/// Decodes one line into its row of pixels, in the left-to-right order of
/// the source segments, every pixel carrying the configured character.
pub fn create_pixel_row(line: &str, character: char) -> (pixels: Vec<Pixel>)
    ensures
        pixels@.map_values(|p: Pixel| p.color@) == row_colors(line@),
        forall|i: int| 0 <= i < pixels@.len() ==> pixels@[i].character == character,
{
    let (pixels, _diags) = decode_line(line, character);
    pixels
}

} // verus!
