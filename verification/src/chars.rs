//! Character-level helpers shared by the decoder and the JSON writer:
//! whitespace tests, hex digits, and string/character-sequence conversions.

use vstd::prelude::*;
use vstd::string::StrSliceExecFns;

verus! {

/// The characters that `str::trim` treats as whitespace
/// (the Unicode `White_Space` set).
pub open spec fn is_space_char(c: char) -> bool {
    c == ' ' || c == '\t' || c == '\n' || c == '\r' || c == '\u{b}' || c == '\u{c}'
        || c == '\u{85}' || c == '\u{a0}' || c == '\u{1680}' || c == '\u{2000}' || c == '\u{2001}'
        || c == '\u{2002}' || c == '\u{2003}' || c == '\u{2004}' || c == '\u{2005}'
        || c == '\u{2006}' || c == '\u{2007}' || c == '\u{2008}' || c == '\u{2009}'
        || c == '\u{200a}' || c == '\u{2028}' || c == '\u{2029}' || c == '\u{202f}'
        || c == '\u{205f}' || c == '\u{3000}'
}

pub fn is_space(c: char) -> (r: bool)
    ensures
        r == is_space_char(c),
{
    c == ' ' || c == '\t' || c == '\n' || c == '\r' || c == '\u{b}' || c == '\u{c}'
        || c == '\u{85}' || c == '\u{a0}' || c == '\u{1680}' || c == '\u{2000}' || c == '\u{2001}'
        || c == '\u{2002}' || c == '\u{2003}' || c == '\u{2004}' || c == '\u{2005}'
        || c == '\u{2006}' || c == '\u{2007}' || c == '\u{2008}' || c == '\u{2009}'
        || c == '\u{200a}' || c == '\u{2028}' || c == '\u{2029}' || c == '\u{202f}'
        || c == '\u{205f}' || c == '\u{3000}'
}

/// A sequence is blank when every character in it is whitespace;
/// `str::trim` maps exactly those strings to the empty string.
pub open spec fn is_blank(s: Seq<char>) -> bool {
    forall|i: int| 0 <= i < s.len() ==> is_space_char(s[i])
}

/// The uppercase hexadecimal digit for a value below 16.
pub open spec fn hex_digit_char(n: nat) -> char {
    if n == 0 { '0' } else if n == 1 { '1' } else if n == 2 { '2' } else if n == 3 { '3' }
    else if n == 4 { '4' } else if n == 5 { '5' } else if n == 6 { '6' } else if n == 7 { '7' }
    else if n == 8 { '8' } else if n == 9 { '9' } else if n == 10 { 'A' } else if n == 11 { 'B' }
    else if n == 12 { 'C' } else if n == 13 { 'D' } else if n == 14 { 'E' } else { 'F' }
}

pub fn hex_digit(n: u8) -> (c: char)
    requires
        n < 16,
    ensures
        c == hex_digit_char(n as nat),
{
    if n == 0 { '0' } else if n == 1 { '1' } else if n == 2 { '2' } else if n == 3 { '3' }
    else if n == 4 { '4' } else if n == 5 { '5' } else if n == 6 { '6' } else if n == 7 { '7' }
    else if n == 8 { '8' } else if n == 9 { '9' } else if n == 10 { 'A' } else if n == 11 { 'B' }
    else if n == 12 { 'C' } else if n == 13 { 'D' } else if n == 14 { 'E' } else { 'F' }
}

/// `s` with every occurrence of `ch` removed.
pub open spec fn strip_char(s: Seq<char>, ch: char) -> Seq<char>
    decreases s.len(),
{
    if s.len() == 0 {
        Seq::empty()
    } else if s[0] == ch {
        strip_char(s.drop_first(), ch)
    } else {
        seq![s[0]] + strip_char(s.drop_first(), ch)
    }
}

/// `s` split on the separator `sep`, as `str::split` does it: the result is
/// never empty, separators are not kept, and adjacent separators or a
/// separator at either end yield empty pieces.
pub open spec fn split_on(s: Seq<char>, sep: char) -> Seq<Seq<char>>
    decreases s.len(),
{
    if s.len() == 0 {
        seq![Seq::<char>::empty()]
    } else {
        let rest = split_on(s.drop_first(), sep);
        if s[0] == sep {
            seq![Seq::<char>::empty()] + rest
        } else {
            seq![seq![s[0]] + rest[0]] + rest.drop_first()
        }
    }
}

/// The characters of `s`, in order, as a vector.
pub fn chars_of(s: &str) -> (v: Vec<char>)
    ensures
        v@ == s@,
{
    let n = s.unicode_len();
    let mut v: Vec<char> = Vec::new();
    let mut i: usize = 0;
    while i < n
        invariant
            n == s@.len(),
            0 <= i <= n,
            v@ == s@.take(i as int),
        decreases n - i,
    {
        v.push(s.get_char(i));
        i = i + 1;
        proof {
            assert(v@ =~= s@.take(i as int));
        }
    }
    proof {
        assert(v@ =~= s@);
    }
    v
}

/// `v` with every occurrence of `ch` removed.
pub fn strip_vec(v: &Vec<char>, ch: char) -> (r: Vec<char>)
    ensures
        r@ == strip_char(v@, ch),
{
    let n = v.len();
    let mut r: Vec<char> = Vec::new();
    let mut i: usize = 0;
    proof {
        assert(v@.skip(0) =~= v@);
        assert(r@ + strip_char(v@.skip(0), ch) =~= strip_char(v@, ch));
    }
    while i < n
        invariant
            n == v@.len(),
            0 <= i <= n,
            r@ + strip_char(v@.skip(i as int), ch) == strip_char(v@, ch),
        decreases n - i,
    {
        proof {
            assert(v@.skip(i as int).drop_first() =~= v@.skip(i as int + 1));
            assert(v@.skip(i as int)[0] == v@[i as int]);
        }
        if v[i] != ch {
            r.push(v[i]);
            proof {
                assert(r@ + strip_char(v@.skip(i as int + 1), ch) =~= strip_char(v@, ch));
            }
        }
        i = i + 1;
    }
    proof {
        assert(v@.skip(n as int) =~= Seq::<char>::empty());
        assert(r@ =~= strip_char(v@, ch));
    }
    r
}

/// Stripping a character that does not occur leaves the sequence alone.
pub proof fn lemma_strip_absent(s: Seq<char>, ch: char)
    requires
        !s.contains(ch),
    ensures
        strip_char(s, ch) == s,
    decreases s.len(),
{
    if s.len() == 0 {
        assert(strip_char(s, ch) =~= s);
    } else {
        assert(s[0] != ch);
        assert(s.drop_first().contains(ch) ==> s.contains(ch)) by {
            if s.drop_first().contains(ch) {
                let i = choose|i: int| 0 <= i < s.drop_first().len() && s.drop_first()[i] == ch;
                assert(s[i + 1] == ch);
            }
        }
        lemma_strip_absent(s.drop_first(), ch);
        assert(strip_char(s, ch) =~= s);
    }
}

/// Splitting on a separator that does not occur yields the one whole piece.
pub proof fn lemma_split_no_sep(s: Seq<char>, sep: char)
    requires
        !s.contains(sep),
    ensures
        split_on(s, sep) == seq![s],
    decreases s.len(),
{
    if s.len() == 0 {
        assert(split_on(s, sep) =~~= seq![s]);
    } else {
        assert(s[0] != sep);
        assert(s.drop_first().contains(sep) ==> s.contains(sep)) by {
            if s.drop_first().contains(sep) {
                let i = choose|i: int| 0 <= i < s.drop_first().len() && s.drop_first()[i] == sep;
                assert(s[i + 1] == sep);
            }
        }
        lemma_split_no_sep(s.drop_first(), sep);
        let rest = split_on(s.drop_first(), sep);
        assert(rest == seq![s.drop_first()]);
        assert(split_on(s, sep) == seq![seq![s[0]] + rest[0]] + rest.drop_first());
        assert(rest[0] == s.drop_first());
        assert(rest.drop_first() =~= Seq::<Seq<char>>::empty());
        assert(seq![s[0]] + s.drop_first() =~= s);
        assert(split_on(s, sep) =~~= seq![s]);
    }
}

/// A split is never empty: even the empty string yields one empty piece.
pub proof fn lemma_split_nonempty(s: Seq<char>, sep: char)
    ensures
        split_on(s, sep).len() >= 1,
{
    if s.len() == 0 {
    } else {
    }
}

/// `v` split on `sep`, piece by piece.
pub fn split_vec(v: &Vec<char>, sep: char) -> (r: Vec<Vec<char>>)
    ensures
        r.deep_view() == split_on(v@, sep),
{
    let n = v.len();
    let mut done: Vec<Vec<char>> = Vec::new();
    let mut cur: Vec<char> = Vec::new();
    let mut i: usize = 0;
    proof {
        assert(v@.skip(0) =~= v@);
        lemma_split_nonempty(v@, sep);
        assert(split_on(v@, sep) =~~= done.deep_view() + seq![cur@ + split_on(v@.skip(0), sep)[0]]
            + split_on(v@.skip(0), sep).drop_first());
    }
    while i < n
        invariant
            n == v@.len(),
            0 <= i <= n,
            split_on(v@, sep) == done.deep_view() + seq![cur@ + split_on(v@.skip(i as int), sep)[0]]
                + split_on(v@.skip(i as int), sep).drop_first(),
        decreases n - i,
    {
        proof {
            assert(v@.skip(i as int).drop_first() =~= v@.skip(i as int + 1));
            assert(v@.skip(i as int)[0] == v@[i as int]);
            lemma_split_nonempty(v@.skip(i as int + 1), sep);
        }
        let ghost rest = split_on(v@.skip(i as int + 1), sep);
        let ghost old_done = done.deep_view();
        let ghost old_cur = cur@;
        if v[i] == sep {
            let finished = cur;
            cur = Vec::new();
            done.push(finished);
            proof {
                assert(done.deep_view() =~~= old_done.push(finished@));
                assert(rest =~= seq![rest[0]] + rest.drop_first());
                assert(split_on(v@, sep) =~~= done.deep_view() + seq![cur@ + rest[0]]
                    + rest.drop_first());
            }
        } else {
            cur.push(v[i]);
            proof {
                assert(cur@ =~= old_cur.push(v@[i as int]));
                assert(old_cur + (seq![v@[i as int]] + rest[0]) =~= cur@ + rest[0]);
                assert(split_on(v@, sep) =~~= done.deep_view() + seq![cur@ + rest[0]]
                    + rest.drop_first());
            }
        }
        i = i + 1;
    }
    proof {
        assert(v@.skip(n as int) =~= Seq::<char>::empty());
    }
    let ghost old_done = done.deep_view();
    let ghost last = cur@;
    done.push(cur);
    proof {
        assert(done.deep_view() =~~= old_done.push(last));
        assert(last + split_on(v@.skip(n as int), sep)[0] =~= last);
        assert(done.deep_view() =~~= split_on(v@, sep));
    }
    done
}

/// Whether every character of `v` is whitespace.
pub fn is_blank_vec(v: &Vec<char>) -> (r: bool)
    ensures
        r == is_blank(v@),
{
    let n = v.len();
    let mut i: usize = 0;
    while i < n
        invariant
            n == v@.len(),
            0 <= i <= n,
            forall|j: int| 0 <= j < i ==> is_space_char(v@[j]),
        decreases n - i,
    {
        if !is_space(v[i]) {
            return false;
        }
        i = i + 1;
    }
    true
}

/// Relies on `String::push`: appends one character at the end of the string.
#[verifier::external_body]
pub fn push_char(s: &mut String, c: char)
    ensures
        final(s)@ == old(s)@.push(c),
{
    s.push(c)
}

/// A `String` holding exactly the characters of `v`, in order.
pub fn string_of_chars(v: &Vec<char>) -> (s: String)
    ensures
        s@ == v@,
{
    let n = v.len();
    let mut s = String::new();
    let mut i: usize = 0;
    while i < n
        invariant
            n == v@.len(),
            0 <= i <= n,
            s@ == v@.take(i as int),
        decreases n - i,
    {
        push_char(&mut s, v[i]);
        i = i + 1;
        proof {
            assert(s@ =~= v@.take(i as int));
        }
    }
    proof {
        assert(s@ =~= v@);
    }
    s
}

} // verus!
