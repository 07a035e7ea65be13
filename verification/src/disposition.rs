//! The `Content-Disposition` header, which gives a download its file name.

use vstd::prelude::*;
use vstd::string::StringExecFns;
use vstd::utf8::{decode_utf8, encode_utf8, encode_utf8_decode_utf8};

verus! {

/// Whether `b` stands for itself where text is percent-encoded.
pub open spec fn unreserved(b: u8) -> bool {
    ||| 0x41 <= b <= 0x5a
    ||| 0x61 <= b <= 0x7a
    ||| 0x30 <= b <= 0x39
    ||| b == 0x2d
    ||| b == 0x2e
    ||| b == 0x5f
    ||| b == 0x7e
}

/// The upper-case hexadecimal digit of `n`.
pub open spec fn hex_digit(n: int) -> char {
    if n < 10 {
        (0x30 + n) as char
    } else {
        (0x41 + n - 10) as char
    }
}

/// The percent-encoding of one byte.
pub open spec fn pct_byte(b: u8) -> Seq<char> {
    if unreserved(b) {
        seq![b as char]
    } else {
        seq!['%', hex_digit(b as int / 16), hex_digit(b as int % 16)]
    }
}

/// The percent-encoding of bytes.
pub open spec fn pct_of(bytes: Seq<u8>) -> Seq<char>
    decreases bytes.len(),
{
    if bytes.len() == 0 {
        Seq::empty()
    } else {
        pct_byte(bytes[0]) + pct_of(bytes.drop_first())
    }
}

/// Writes a hexadecimal digit.
fn hex(n: u8) -> (c: char)
    requires
        n < 16,
    ensures
        c == hex_digit(n as int),
{
    if n < 10 {
        (0x30 + n) as char
    } else {
        (0x41 + (n - 10)) as char
    }
}

/// Percent-encodes the UTF-8 bytes of `s`.
pub fn pct(s: &str) -> (out: String)
    ensures
        out@ == pct_of(encode_utf8(s@)),
{
    let bytes: &[u8] = s.as_bytes();
    let mut out: String = String::new();
    let mut i: usize = 0;
    assert(bytes@.skip(0) =~= bytes@);
    while i < bytes.len()
        invariant
            i <= bytes@.len(),
            out@ + pct_of(bytes@.skip(i as int)) =~= pct_of(bytes@),
        decreases bytes@.len() - i,
    {
        let b: u8 = bytes[i];
        let ghost before = out@;
        if (0x41 <= b && b <= 0x5a) || (0x61 <= b && b <= 0x7a) || (0x30 <= b && b <= 0x39) || b
            == 0x2d || b == 0x2e || b == 0x5f || b == 0x7e {
            out.push(b as char);
        } else {
            out.push('%');
            out.push(hex(b / 16));
            out.push(hex(b % 16));
        }
        proof {
            assert(bytes@.skip(i as int).drop_first() =~= bytes@.skip(i + 1));
            assert(out@ =~= before + pct_byte(b));
        }
        i = i + 1;
    }
    assert(pct_of(bytes@.skip(bytes@.len() as int)) =~= Seq::empty());
    out
}

/// Whether `c` can stand in a quoted string as it is.
pub open spec fn quotable(c: char) -> bool {
    32 <= c as u32 <= 126 && c != '"' && c != '\\'
}

/// `name` with an underscore for each character that cannot be quoted.
pub open spec fn fallback(name: Seq<char>) -> Seq<char> {
    name.map_values(
        |c: char|
            if quotable(c) {
                c
            } else {
                '_'
            },
    )
}

/// The header for a file with this name: a quoted ASCII fallback and the UTF-8
/// original.
pub open spec fn disposition_of(name: Seq<char>) -> Seq<char> {
    "attachment; filename=\""@ + fallback(name) + "\"; filename*=UTF-8''"@ + pct_of(
        encode_utf8(name),
    )
}

/// Writes the header for a file with this name.
pub fn disposition(name: &str) -> (d: String)
    ensures
        d@ == disposition_of(name@),
{
    let mut ascii: String = String::new();
    for c in it: name.chars()
        invariant
            it.seq() == name@,
            ascii@ == fallback(name@).take(it.index() as int),
    {
        let n: u32 = c as u32;
        if 32 <= n && n <= 126 && c != '"' && c != '\\' {
            ascii.push(c);
        } else {
            ascii.push('_');
        }
    }
    assert(fallback(name@).take(name@.len() as int) =~= fallback(name@));
    "attachment; filename=\"".to_owned().concat(ascii.as_str()).concat(
        "\"; filename*=UTF-8''",
    ).concat(pct(name).as_str())
}

/// Whether a text can be the value of a header: visible ASCII and spaces.
pub open spec fn header_safe(s: Seq<char>) -> bool {
    forall|i: int| 0 <= i < s.len() ==> 32 <= (#[trigger] s[i]) as u32 <= 126
}

/// A percent-encoding is made of letters, digits and a few marks.
proof fn lemma_pct_chars(bytes: Seq<u8>)
    ensures
        forall|i: int|
            0 <= i < pct_of(bytes).len() ==> quotable(#[trigger] pct_of(bytes)[i]) && pct_of(
                bytes,
            )[i] != ' ',
    decreases bytes.len(),
{
    if bytes.len() > 0 {
        lemma_pct_chars(bytes.drop_first());
        let head = pct_byte(bytes[0]);
        let rest = pct_of(bytes.drop_first());
        assert forall|i: int| 0 <= i < pct_of(bytes).len() implies quotable(
            #[trigger] pct_of(bytes)[i],
        ) && pct_of(bytes)[i] != ' ' by {
            if i >= head.len() {
                assert(pct_of(bytes)[i] == rest[i - head.len()]);
            } else {
                assert(pct_of(bytes)[i] == head[i]);
            }
        }
    }
}

/// Law: whatever the name, the header is fit to be sent: it is visible ASCII,
/// has no backslash, and its only quotes are the two around the fallback.
pub proof fn law_disposition_is_header_safe(name: Seq<char>)
    ensures
        header_safe(disposition_of(name)),
        forall|i: int| 0 <= i < disposition_of(name).len() ==> #[trigger] disposition_of(name)[i]
            != '\\',
        forall|i: int|
            0 <= i < disposition_of(name).len() ==> (#[trigger] disposition_of(name)[i] == '"'
                <==> i == 21 || i == 22 + name.len()),
{
    reveal_strlit("attachment; filename=\"");
    reveal_strlit("\"; filename*=UTF-8''");
    let d = disposition_of(name);
    let a = "attachment; filename=\""@;
    let b = "\"; filename*=UTF-8''"@;
    let p = pct_of(encode_utf8(name));
    lemma_pct_chars(encode_utf8(name));
    assert forall|i: int| 0 <= i < d.len() implies {
        &&& 32 <= (#[trigger] d[i]) as u32 <= 126
        &&& d[i] != '\\'
        &&& (d[i] == '"' <==> i == 21 || i == 22 + name.len())
    } by {
        let n = name.len() as int;
        if i < 22 {
            assert(d[i] == a[i]);
        } else if i < 22 + n {
            assert(d[i] == fallback(name)[i - 22]);
        } else if i < 22 + n + b.len() {
            assert(d[i] == b[i - 22 - n]);
        } else {
            assert(d[i] == p[i - 22 - n - b.len()]);
        }
    }
}

/// The value of a hexadecimal digit.
pub open spec fn hex_value(c: char) -> int {
    if c as u32 <= 0x39 {
        c as u32 - 0x30
    } else {
        c as u32 - 0x41 + 10
    }
}

/// The bytes that a percent-encoding stands for.
pub open spec fn unpct(s: Seq<char>) -> Seq<u8>
    decreases s.len(),
{
    if s.len() == 0 {
        Seq::empty()
    } else if s[0] == '%' && s.len() >= 3 {
        seq![(hex_value(s[1]) * 16 + hex_value(s[2])) as u8] + unpct(s.skip(3))
    } else {
        seq![s[0] as u8] + unpct(s.skip(1))
    }
}

/// Decoding undoes the encoding of bytes.
proof fn lemma_unpct(bytes: Seq<u8>)
    ensures
        unpct(pct_of(bytes)) == bytes,
    decreases bytes.len(),
{
    if bytes.len() > 0 {
        let b = bytes[0];
        let s = pct_of(bytes);
        let rest = pct_of(bytes.drop_first());
        lemma_unpct(bytes.drop_first());
        assert(s =~= pct_byte(b) + rest);
        if unreserved(b) {
            assert(s[0] == b as char);
            assert(s.skip(1) =~= rest);
        } else {
            assert(s[0] == '%');
            assert(s[1] == hex_digit(b as int / 16));
            assert(s[2] == hex_digit(b as int % 16));
            assert(s.skip(3) =~= rest);
        }
        assert(unpct(s) =~= seq![b] + bytes.drop_first());
        assert(seq![b] + bytes.drop_first() =~= bytes);
    }
}

/// Law: the name can be read back from its percent-encoding.
pub proof fn law_pct_round_trip(name: Seq<char>)
    ensures
        unpct(pct_of(encode_utf8(name))) == encode_utf8(name),
        decode_utf8(unpct(pct_of(encode_utf8(name)))) == name,
{
    lemma_unpct(encode_utf8(name));
    encode_utf8_decode_utf8(name);
}

/// Law: the fallback shows the name, character by character, with an underscore
/// for each that is not visible ASCII or would end the quotes; the rest of the
/// header is always the same, but for the encoded name at its end.
pub proof fn law_disposition_shows_the_name(name: Seq<char>, i: int)
    ensures
        ({
            let d = disposition_of(name);
            let n = name.len() as int;
            &&& d.take(22) == "attachment; filename=\""@
            &&& d.subrange(22 + n, 42 + n) == "\"; filename*=UTF-8''"@
            &&& d.skip(42 + n) == pct_of(encode_utf8(name))
            &&& 0 <= i < n ==> d[22 + i] == if ' ' <= name[i] <= '~' && name[i] != '"' && name[i]
                != '\\' {
                name[i]
            } else {
                '_'
            }
        }),
{
    reveal_strlit("attachment; filename=\"");
    reveal_strlit("\"; filename*=UTF-8''");
    let d = disposition_of(name);
    let n = name.len() as int;
    assert(d.take(22) =~= "attachment; filename=\""@);
    assert(d.subrange(22 + n, 42 + n) =~= "\"; filename*=UTF-8''"@);
    assert(d.skip(42 + n) =~= pct_of(encode_utf8(name)));
    if 0 <= i < n {
        lemma_quotable(name[i]);
        assert(d[22 + i] == fallback(name)[i]);
    }
}

/// The two ways to say what can be quoted.
proof fn lemma_quotable(c: char)
    ensures
        quotable(c) == (' ' <= c <= '~' && c != '"' && c != '\\'),
{
}

/// Law: text is percent-encoded byte by byte: letters, digits and the marks
/// `-._~` stand for themselves, and any other byte is a percent sign and its two
/// upper-case hexadecimal digits.
pub proof fn law_pct_goes_byte_by_byte(a: Seq<u8>, b: Seq<u8>, x: u8)
    ensures
        pct_of(Seq::empty()) == Seq::<char>::empty(),
        pct_of(a + b) == pct_of(a) + pct_of(b),
        ({
            let c = x as char;
            let s = pct_of(seq![x]);
            if 'A' <= c <= 'Z' || 'a' <= c <= 'z' || '0' <= c <= '9' || c == '-' || c == '.' || c
                == '_' || c == '~' {
                s == seq![c]
            } else {
                &&& s.len() == 3
                &&& s[0] == '%'
                &&& '0' <= s[1] <= '9' || 'A' <= s[1] <= 'F'
                &&& '0' <= s[2] <= '9' || 'A' <= s[2] <= 'F'
                &&& hex_value(s[1]) * 16 + hex_value(s[2]) == x
            }
        }),
    decreases a.len(),
{
    let one = seq![x];
    assert(one.drop_first() =~= Seq::empty());
    assert(pct_of(one.drop_first()) =~= Seq::<char>::empty());
    assert(pct_of(one) =~= pct_byte(x));
    if a.len() == 0 {
        assert(a + b =~= b);
        assert(pct_of(a) + pct_of(b) =~= pct_of(b));
    } else {
        assert((a + b).drop_first() =~= a.drop_first() + b);
        law_pct_goes_byte_by_byte(a.drop_first(), b, x);
        assert(pct_of(a + b) =~= pct_of(a) + pct_of(b));
    }
}

} // verus!
