//! The `Range` header: which bytes of a file a download asks for.

use crate::text::{
    chars_of, decimal_digits, digit_char, find, law_decimal_round_trip,
    law_trimming_ignores_what_is_around, lemma_decimal_digits, lemma_trimmed_same, parse_u64,
    slice_chars, space_char, starts_with, trim, trimmed, u64_of, Trim,
};
use axum::http::HeaderValue;
use vstd::prelude::*;

verus! {

/// `axum::http::HeaderValue`, the value of an HTTP header.
#[verifier::external_type_specification]
#[verifier::external_body]
pub struct ExHeaderValue(axum::http::HeaderValue);

/// The bytes of a header value.
pub uninterp spec fn header_bytes(h: HeaderValue) -> Seq<u8>;

/// Whether a byte of a header value is text: visible ASCII, a space or a tab.
pub open spec fn text_byte(b: u8) -> bool {
    32 <= b < 127 || b == 9
}

/// `HeaderValue::to_str`: the text of the value, one character for each byte,
/// where all of them are visible ASCII, spaces or tabs; nothing otherwise.
#[verifier::external_body]
fn header_text(h: &HeaderValue) -> (r: Option<&str>)
    ensures
        r is Some <==> forall|i: int|
            0 <= i < header_bytes(*h).len() ==> text_byte(#[trigger] header_bytes(*h)[i]),
        r matches Some(s) ==> s@ == header_bytes(*h).map_values(|b: u8| b as char),
{
    h.to_str().ok()
}

/// Which bytes `start .. end` to serve of a file.
pub type Bounds = (u64, u64);

/// The bytes that a range from `a` to `b` asks for, both as they are written,
/// of a file of `size` bytes. Without `a` it is the last `b` bytes; without `b`
/// all bytes from `a` on; with both the bytes from `a` to `b` inclusive, as far
/// as there are any. A range that is not written so, or that has no byte in the
/// file, is an error.
pub open spec fn range_between(a: Seq<char>, b: Seq<char>, size: u64) -> Result<
    Option<Bounds>,
    (),
> {
    let asked: Option<(int, int)> = match (u64_of(a), u64_of(b)) {
        (None, Some(n)) => if a.len() == 0 && n > 0 {
            Some((if n < size { size - n } else { 0 }, size as int))
        } else {
            None
        },
        (Some(n), None) => if b.len() == 0 {
            Some((n as int, size as int))
        } else {
            None
        },
        (Some(n), Some(m)) => if n <= m {
            Some((n as int, m + 1))
        } else {
            None
        },
        (None, None) => None,
    };
    match asked {
        Some((start, end)) => if start < size {
            Ok(Some((start as u64, if end < size { end as u64 } else { size })))
        } else {
            Err(())
        },
        None => Err(()),
    }
}

/// What a `Range` header with this text asks for, of a file of `size` bytes.
/// Units other than bytes, several ranges, and what has no dash and so is no
/// range, are ignored.
pub open spec fn range_of(text: Seq<char>, size: u64) -> Result<Option<Bounds>, ()> {
    let t = trimmed(text, Trim::Space);
    let spec = t.skip(6);
    if !"bytes="@.is_prefix_of(t) || spec.contains(',') || !spec.contains('-') {
        Ok(None)
    } else {
        let k = spec.index_of_first('-')->0;
        range_between(
            trimmed(spec.take(k), Trim::Space),
            trimmed(spec.skip(k + 1), Trim::Space),
            size,
        )
    }
}

/// What a `Range` header with these bytes asks for. A header that is not text is
/// ignored.
pub open spec fn range_of_header(h: Seq<u8>, size: u64) -> Result<Option<Bounds>, ()> {
    if forall|i: int| 0 <= i < h.len() ==> text_byte(#[trigger] h[i]) {
        range_of(h.map_values(|b: u8| b as char), size)
    } else {
        Ok(None)
    }
}

/// Reads a range from its two ends as they are written.
fn parse_ends(a: &Vec<char>, b: &Vec<char>, size: u64) -> (r: Result<Option<Bounds>, ()>)
    ensures
        r == range_between(a@, b@, size),
{
    let from: Option<u64> = parse_u64(a);
    let to: Option<u64> = parse_u64(b);
    let (start, end): Bounds = if a.len() == 0 {
        // -N: the final N bytes
        match to {
            Some(n) => {
                if n == 0 {
                    return Err(());
                }
                (size.saturating_sub(n), size)
            },
            None => {
                return Err(());
            },
        }
    } else if b.len() == 0 {
        // N-
        match from {
            Some(n) => (n, size),
            None => {
                return Err(());
            },
        }
    } else {
        // N-M (inclusive)
        match (from, to) {
            (Some(s), Some(e)) => {
                if e < s {
                    return Err(());
                }
                (s, e.saturating_add(1))
            },
            _ => {
                return Err(());
            },
        }
    };
    if start >= size {
        // Unsatisfiable; also covers an empty file.
        return Err(());
    }
    Ok(Some((start, if end < size { end } else { size })))
}

/// Reads the text of a `Range` header.
pub fn parse_range_text(text: &str, size: u64) -> (r: Result<Option<Bounds>, ()>)
    ensures
        r == range_of(text@, size),
{
    let t: Vec<char> = trim(&chars_of(text), Trim::Space);
    if !starts_with(&t, "bytes=") {
        // Other units: a server may ignore the header.
        return Ok(None);
    }
    proof {
        reveal_strlit("bytes=");
    }
    let spec: Vec<char> = slice_chars(&t, 6, t.len());
    assert(spec@ =~= t@.skip(6));
    if find(&spec, ',').is_some() {
        // Several ranges: serving the whole file is allowed.
        return Ok(None);
    }
    match find(&spec, '-') {
        Some(k) => {
            let a: Vec<char> = trim(&slice_chars(&spec, 0, k), Trim::Space);
            let b: Vec<char> = trim(&slice_chars(&spec, k + 1, spec.len()), Trim::Space);
            proof {
                lemma_first(spec@, '-', k as int);
                assert(spec@.subrange(0, k as int) =~= spec@.take(k as int));
                assert(spec@.subrange(k + 1, spec@.len() as int) =~= spec@.skip(k + 1));
            }
            parse_ends(&a, &b, size)
        },
        // Not a range at all.
        None => Ok(None),
    }
}

/// Which bytes of a file of `size` bytes to serve. `None` means no (or an
/// ignorable) `Range` header: serve the whole file. An error means that the
/// header was present, well-formed (two ends around a dash), and unsatisfiable:
/// the ends name no byte of the file.
pub fn parse_range(h: Option<&HeaderValue>, size: u64) -> (r: Result<Option<Bounds>, ()>)
    ensures
        r == match h {
            Some(v) => range_of_header(header_bytes(*v), size),
            None => Ok(None),
        },
{
    match h {
        Some(v) => match header_text(v) {
            Some(text) => parse_range_text(text, size),
            None => Ok(None),
        },
        None => Ok(None),
    }
}

/// Where the first `c` stands.
proof fn lemma_first(s: Seq<char>, c: char, k: int)
    requires
        0 <= k < s.len(),
        s[k] == c,
        !s.take(k).contains(c),
    ensures
        s.contains(c),
        s.index_of_first(c) == Some(k),
{
    s.index_of_first_ensures(c);
    let j = s.index_of_first(c)->0;
    if j < k {
        assert(s.take(k)[j] == c);
    }
}

/// Law: the bytes to serve lie in the file, and there is at least one.
pub proof fn law_range_is_in_the_file(text: Seq<char>, size: u64)
    ensures
        range_of(text, size) matches Ok(Some((start, end))) ==> start < end <= size,
{
}

/// Law: only a header that is well-formed is refused: one that gives one range of
/// bytes, with a dash between its ends.
pub proof fn law_refused_ranges_are_well_formed(text: Seq<char>, size: u64)
    ensures
        range_of(text, size) is Err ==> {
            let t = trimmed(text, Trim::Space);
            &&& "bytes="@.is_prefix_of(t)
            &&& t.skip(6).contains('-')
            &&& !t.skip(6).contains(',')
        },
{
}

/// The text of a `Range` header with these two ends.
pub open spec fn range_text(a: Seq<char>, b: Seq<char>) -> Seq<char> {
    "bytes="@ + a + "-"@ + b
}

/// A range whose ends are digits, or empty, is read as it is written.
proof fn lemma_range_text(a: Seq<char>, b: Seq<char>, size: u64)
    requires
        forall|i: int| 0 <= i < a.len() ==> digit_char(#[trigger] a[i]),
        forall|i: int| 0 <= i < b.len() ==> digit_char(#[trigger] b[i]),
    ensures
        range_of(range_text(a, b), size) == range_between(a, b, size),
{
    reveal_strlit("bytes=");
    reveal_strlit("-");
    let t = range_text(a, b);
    let k = a.len() as int;
    assert(t.first() == 'b');
    assert(b.len() == 0 ==> t.last() == '-');
    assert(b.len() > 0 ==> t.last() == b[b.len() - 1]);
    lemma_trimmed_same(t, Trim::Space);
    assert(t.subrange(0, 6) =~= "bytes="@);
    let spec = t.skip(6);
    assert(spec =~= a + "-"@ + b);
    assert forall|i: int| 0 <= i < spec.len() && i != k implies digit_char(#[trigger] spec[i]) by {
        if i < k {
            assert(spec[i] == a[i]);
        } else {
            assert(spec[i] == b[i - k - 1]);
        }
    }
    assert(spec[k] == '-');
    assert(!spec.contains(','));
    assert(!spec.take(k).contains('-')) by {
        assert forall|i: int| 0 <= i < k implies #[trigger] spec.take(k)[i] != '-' by {
            assert(digit_char(spec[i]));
        }
    }
    lemma_first(spec, '-', k);
    assert(spec.take(k) =~= a);
    assert(spec.skip(k + 1) =~= b);
    lemma_trimmed_same(a, Trim::Space);
    lemma_trimmed_same(b, Trim::Space);
}

/// Law: `bytes=N-M` asks for the bytes from `N` to `M` inclusive, as far as the
/// file goes; `bytes=N-` for all from `N` on; `bytes=-N` for the last `N`, or
/// for all where there are fewer. Where that is no byte, it is an error.
pub proof fn law_ranges_mean_what_they_say(n: u64, m: u64, size: u64)
    ensures
        range_of(range_text(decimal_digits(n as nat), decimal_digits(m as nat)), size) == if n <= m
            && n < size {
            Ok(Some((n, if m < size { (m + 1) as u64 } else { size })))
        } else {
            Err(())
        },
        range_of(range_text(decimal_digits(n as nat), Seq::empty()), size) == if n < size {
            Ok(Some((n, size)))
        } else {
            Err(())
        },
        range_of(range_text(Seq::empty(), decimal_digits(n as nat)), size) == if n > 0 && size > 0 {
            Ok(Some((if n < size { (size - n) as u64 } else { 0 }, size)))
        } else {
            Err(())
        },
{
    let a = decimal_digits(n as nat);
    let b = decimal_digits(m as nat);
    lemma_decimal_digits(n as nat);
    lemma_decimal_digits(m as nat);
    law_decimal_round_trip(n);
    law_decimal_round_trip(m);
    lemma_range_text(a, b, size);
    lemma_range_text(a, Seq::empty(), size);
    lemma_range_text(Seq::empty(), a, size);
}

/// Law: a download that broke off after `k` bytes is resumed by asking for the
/// bytes from `k` on: the two parts make up the file.
pub proof fn law_downloads_resume(data: Seq<u8>, k: u64, size: u64)
    requires
        data.len() == size,
        k < size,
    ensures
        range_of(range_text(decimal_digits(k as nat), Seq::empty()), size) == Ok::<
            Option<Bounds>,
            (),
        >(Some((k, size))),
        data.take(k as int) + data.subrange(k as int, size as int) == data,
{
    law_ranges_mean_what_they_say(k, k, size);
    assert(data.take(k as int) + data.subrange(k as int, size as int) =~= data);
}

/// Law: white space around a `Range` header makes no difference.
pub proof fn law_space_around_a_range_is_ignored(
    before: Seq<char>,
    text: Seq<char>,
    after: Seq<char>,
    size: u64,
)
    requires
        forall|i: int| 0 <= i < before.len() ==> space_char(#[trigger] before[i]),
        forall|i: int| 0 <= i < after.len() ==> space_char(#[trigger] after[i]),
    ensures
        range_of(before + text + after, size) == range_of(text, size),
{
    law_trimming_ignores_what_is_around(before, text, after, Trim::Space);
}

/// Law: a header in other units than bytes, one with several ranges, and one
/// without a dash, asks for no range.
pub proof fn law_other_headers_are_ignored(text: Seq<char>, size: u64)
    requires
        text.len() > 0 ==> !space_char(text.first()) && !space_char(text.last()),
        !"bytes="@.is_prefix_of(text) || text.contains(',') || !text.contains('-'),
    ensures
        range_of(text, size) == Ok::<Option<Bounds>, ()>(None),
{
    reveal_strlit("bytes=");
    lemma_trimmed_same(text, Trim::Space);
    if "bytes="@.is_prefix_of(text) {
        assert(text.subrange(0, 6) =~= "bytes="@);
        let spec = text.skip(6);
        assert forall|c: char| c == ',' || c == '-' implies (spec.contains(c) <==> text.contains(
            c,
        )) by {
            if text.contains(c) {
                let i = choose|i: int| 0 <= i < text.len() && text[i] == c;
                if i < 6 {
                    assert(text.subrange(0, 6)[i] == "bytes="@[i]);
                }
                assert(spec[i - 6] == c);
            }
            if spec.contains(c) {
                let i = choose|i: int| 0 <= i < spec.len() && spec[i] == c;
                assert(text[i + 6] == c);
            }
        }
    }
}

/// Law: whatever stands before and after the dash of a range of bytes, it is
/// read as the number that it writes, or as open where there is nothing; where
/// it is something else, the range is refused.
pub proof fn law_ends_settle_the_range(a: Seq<char>, b: Seq<char>, size: u64)
    requires
        !a.contains('-'),
        !a.contains(','),
        !b.contains(','),
        b.len() > 0 ==> !space_char(b.last()),
    ensures
        ({
            let from = trimmed(a, Trim::Space);
            let to = trimmed(b, Trim::Space);
            match range_of(range_text(a, b), size) {
                Ok(Some((start, end))) => {
                    &&& start < end <= size
                    &&& from.len() > 0 || to.len() > 0
                    &&& from.len() > 0 ==> u64_of(from) == Some(start)
                    &&& from.len() > 0 && to.len() > 0 ==> (u64_of(to) matches Some(m) && start
                        <= m && (end == m + 1 || end == size <= m))
                    &&& to.len() == 0 ==> end == size
                    &&& from.len() == 0 ==> end == size && (u64_of(to) matches Some(m) && (start
                        + m == size || start == 0 && m > size))
                },
                Ok(None) => false,
                Err(()) => {
                    ||| from.len() == 0 && to.len() == 0
                    ||| from.len() > 0 && u64_of(from) is None
                    ||| to.len() > 0 && u64_of(to) is None
                    ||| from.len() > 0 && u64_of(from)->0 >= size
                    ||| from.len() > 0 && to.len() > 0 && u64_of(to)->0 < u64_of(from)->0
                    ||| from.len() == 0 && (u64_of(to) == Some(0u64) || size == 0)
                },
            }
        }),
{
    reveal_strlit("bytes=");
    reveal_strlit("-");
    let t = range_text(a, b);
    let k = a.len() as int;
    assert(t.first() == 'b');
    assert(b.len() == 0 ==> t.last() == '-');
    assert(b.len() > 0 ==> t.last() == b[b.len() - 1]);
    lemma_trimmed_same(t, Trim::Space);
    assert(t.subrange(0, 6) =~= "bytes="@);
    let spec = t.skip(6);
    assert(spec =~= a + "-"@ + b);
    assert(spec[k] == '-');
    assert(!spec.contains(',')) by {
        assert forall|i: int| 0 <= i < spec.len() implies #[trigger] spec[i] != ',' by {
            if i < k {
                assert(a.contains(a[i]));
            } else if i > k {
                assert(b.contains(b[i - k - 1]));
                assert(spec[i] == b[i - k - 1]);
            }
        }
    }
    assert(spec.take(k) =~= a);
    assert(spec.skip(k + 1) =~= b);
    lemma_first(spec, '-', k);
}

} // verus!
