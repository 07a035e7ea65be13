//! Untrusted-input sanitization: the filename and MIME type an uploader's
//! tab supplies. Both reach an HTTP header, so both are a trust boundary.

use crate::text::{
    chars_of, control_char, find, is_control, law_trimming_takes_the_ends_off, lemma_trimmed,
    lemma_trimmed_same, slice_chars, space_char, string_of, trim, trimmed, Trim,
};
use vstd::prelude::*;

verus! {

/// Longest name that is kept, in characters.
pub const MAX_NAME: usize = 255;

/// Bound on the characters of a MIME type and subtype together.
pub const MAX_MIME: usize = 128;

/// The name given to a file whose own name has nothing worth keeping.
pub const DEFAULT_NAME: &'static str = "download";

/// The MIME type given to a file whose own is missing or unfit.
pub const DEFAULT_MIME: &'static str = "application/octet-stream";

/// Whether `c` separates the parts of a path.
pub open spec fn separator(c: char) -> bool {
    c == '/' || c == '\\'
}

/// The last part of a path: what follows its last separator.
pub open spec fn base_name(s: Seq<char>) -> Seq<char>
    decreases s.len(),
{
    if s.len() == 0 || separator(s.last()) {
        Seq::empty()
    } else {
        base_name(s.drop_last()).push(s.last())
    }
}

/// The last part of a path without control characters, cut to `MAX_NAME`.
pub open spec fn cleaned(raw: Seq<char>) -> Seq<char> {
    let kept = base_name(raw).filter(|c: char| !control_char(c));
    if kept.len() <= MAX_NAME {
        kept
    } else {
        kept.take(MAX_NAME as int)
    }
}

/// The name under which a file offered as `raw` is handed out.
pub open spec fn sanitized_name(raw: Seq<char>) -> Seq<char> {
    let s = trimmed(trimmed(cleaned(raw), Trim::Space), Trim::Only('.'));
    if s.len() == 0 {
        DEFAULT_NAME@
    } else {
        s
    }
}

/// Strip path separators and control characters: the name reaches a header
/// and a client's filesystem, so it is a trust boundary.
pub fn sanitize_name(raw: &str) -> (name: String)
    ensures
        name@ == sanitized_name(raw@),
{
    let v: Vec<char> = chars_of(raw);
    let mut from: usize = v.len();
    assert(v@.take(v@.len() as int) =~= v@);
    assert(v@.subrange(from as int, v@.len() as int) =~= Seq::empty());
    while from > 0 && v[from - 1] != '/' && v[from - 1] != '\\'
        invariant
            from <= v@.len(),
            base_name(v@) == base_name(v@.take(from as int)) + v@.subrange(
                from as int,
                v@.len() as int,
            ),
        decreases from,
    {
        assert(v@.take(from as int).drop_last() =~= v@.take(from - 1));
        assert(v@.subrange(from - 1, v@.len() as int) =~= seq![v@[from - 1]] + v@.subrange(
            from as int,
            v@.len() as int,
        ));
        from = from - 1;
    }
    assert(base_name(v@.take(from as int)) =~= Seq::empty());
    assert(base_name(v@) =~= v@.subrange(from as int, v@.len() as int));
    let base: Vec<char> = slice_chars(&v, from, v.len());
    let ghost keep = |c: char| !control_char(c);
    let mut kept: Vec<char> = Vec::new();
    let mut i: usize = 0;
    assert(base@.take(0).filter(keep) =~= Seq::empty()) by {
        reveal(Seq::filter);
    }
    while i < base.len() && kept.len() < MAX_NAME
        invariant
            i <= base@.len(),
            keep == |c: char| !control_char(c),
            kept@ == base@.take(i as int).filter(keep),
            kept@.len() <= MAX_NAME,
        decreases base@.len() - i,
    {
        proof {
            assert(base@.take(i + 1).drop_last() =~= base@.take(i as int));
            assert(base@.take(i + 1).last() == base@[i as int]);
            reveal(Seq::filter);
        }
        if !is_control(base[i]) {
            kept.push(base[i]);
        }
        i = i + 1;
    }
    proof {
        lemma_filter_prefix(base@, keep, i as int);
        if i == base@.len() {
            assert(base@.take(i as int) =~= base@);
        }
        assert(kept@ =~= cleaned(raw@));
    }
    let spaced: Vec<char> = trim(&kept, Trim::Space);
    let named: Vec<char> = trim(&spaced, Trim::Only('.'));
    if named.len() == 0 {
        DEFAULT_NAME.to_owned()
    } else {
        string_of(&named)
    }
}

/// What is kept of a prefix is a prefix of what is kept.
proof fn lemma_filter_prefix(s: Seq<char>, keep: spec_fn(char) -> bool, i: int)
    requires
        0 <= i <= s.len(),
    ensures
        s.take(i).filter(keep).len() <= s.filter(keep).len(),
        s.take(i).filter(keep) == s.filter(keep).take(s.take(i).filter(keep).len() as int),
    decreases s.len() - i,
{
    let f = s.take(i).filter(keep);
    if i == s.len() {
        assert(s.take(i) =~= s);
        assert(f.take(f.len() as int) =~= f);
    } else {
        lemma_filter_prefix(s, keep, i + 1);
        let g = s.take(i + 1).filter(keep);
        assert(s.take(i + 1).drop_last() =~= s.take(i));
        assert(g == if keep(s[i]) { f.push(s[i]) } else { f }) by {
            reveal(Seq::filter);
        }
        assert(g.take(f.len() as int) =~= f);
        assert(s.filter(keep).take(g.len() as int).take(f.len() as int) =~= s.filter(keep).take(
            f.len() as int,
        ));
    }
}

/// Whether `c` may stand in a MIME type or subtype.
pub open spec fn token_char(c: char) -> bool {
    let n = c as u32;
    ||| 0x30 <= n <= 0x39
    ||| 0x41 <= n <= 0x5a
    ||| 0x61 <= n <= 0x7a
    ||| c == '!'
    ||| 0x23 <= n <= 0x27
    ||| c == '*'
    ||| c == '+'
    ||| c == '-'
    ||| c == '.'
    ||| c == '^'
    ||| c == '_'
    ||| c == '`'
    ||| c == '|'
    ||| c == '~'
}

/// Whether `s` can be a MIME type or subtype.
pub open spec fn token(s: Seq<char>) -> bool {
    s.len() > 0 && forall|i: int| 0 <= i < s.len() ==> token_char(#[trigger] s[i])
}

/// Whether `t` is a type, a slash at position `k` and a subtype, and nothing
/// else, short enough to be kept.
pub open spec fn bare_mime_at(t: Seq<char>, k: int) -> bool {
    &&& 0 <= k < t.len()
    &&& t[k] == '/'
    &&& token(t.take(k))
    &&& token(t.skip(k + 1))
    &&& t.len() - 1 < MAX_MIME
}

/// Whether `t` is a bare `type/subtype`.
pub open spec fn bare_mime(t: Seq<char>) -> bool {
    exists|k: int| bare_mime_at(t, k)
}

/// `c` with an ASCII capital made small.
pub open spec fn lower(c: char) -> char {
    if 0x41 <= c as u32 <= 0x5a {
        (c as u32 + 0x20) as char
    } else {
        c
    }
}

/// `s` with its ASCII capitals made small.
pub open spec fn lowered(s: Seq<char>) -> Seq<char> {
    s.map_values(|c: char| lower(c))
}

/// The MIME type under which a file offered as `raw` is handed out.
pub open spec fn sanitized_mime(raw: Seq<char>) -> Seq<char> {
    let t = trimmed(raw, Trim::Space);
    if bare_mime(t) {
        lowered(t)
    } else {
        DEFAULT_MIME@
    }
}

/// Tests whether `c` may stand in a MIME type or subtype.
fn is_token_char(c: char) -> (r: bool)
    ensures
        r == token_char(c),
{
    let n: u32 = c as u32;
    (0x30 <= n && n <= 0x39) || (0x41 <= n && n <= 0x5a) || (0x61 <= n && n <= 0x7a) || c == '!'
        || (0x23 <= n && n <= 0x27) || c == '*' || c == '+' || c == '-' || c == '.' || c == '^' || c
        == '_' || c == '`' || c == '|' || c == '~'
}

/// Tests whether the characters of `v` at positions `from .. to` make a token.
fn is_token(v: &Vec<char>, from: usize, to: usize) -> (r: bool)
    requires
        from <= to <= v@.len(),
    ensures
        r == token(v@.subrange(from as int, to as int)),
{
    let ghost s = v@.subrange(from as int, to as int);
    if from == to {
        return false;
    }
    let mut i: usize = from;
    while i < to
        invariant
            from <= i <= to <= v@.len(),
            s == v@.subrange(from as int, to as int),
            forall|j: int| 0 <= j < i - from ==> token_char(#[trigger] s[j]),
        decreases to - i,
    {
        assert(s[i - from] == v@[i as int]);
        if !is_token_char(v[i]) {
            return false;
        }
        i = i + 1;
    }
    true
}

/// Only a bare `type/subtype` survives; anything else becomes a safe default.
/// A reflected `Content-Type` is an XSS vector, so no parameters are kept.
pub fn sanitize_mime(raw: &str) -> (mime: String)
    ensures
        mime@ == sanitized_mime(raw@),
{
    let t: Vec<char> = trim(&chars_of(raw), Trim::Space);
    let slash: Option<usize> = find(&t, '/');
    match slash {
        Some(k) => {
            proof {
                lemma_slash_is_first(t@, k as int);
                assert(t@.take(k as int) =~= t@.subrange(0, k as int));
                assert(t@.skip(k + 1) =~= t@.subrange(k + 1, t@.len() as int));
            }
            if t.len() - 1 < MAX_MIME && is_token(&t, 0, k) && is_token(&t, k + 1, t.len()) {
                assert(bare_mime_at(t@, k as int));
                let mut s: String = String::new();
                let mut i: usize = 0;
                while i < t.len()
                    invariant
                        i <= t@.len(),
                        s@ == lowered(t@.take(i as int)),
                    decreases t@.len() - i,
                {
                    let c: char = t[i];
                    let n: u32 = c as u32;
                    if 0x41 <= n && n <= 0x5a {
                        s.push((n + 0x20) as u8 as char);
                    } else {
                        s.push(c);
                    }
                    i = i + 1;
                    assert(lowered(t@.take(i as int)) =~= lowered(t@.take(i - 1)).push(
                        lower(t@[i - 1]),
                    ));
                }
                assert(t@.take(t@.len() as int) =~= t@);
                s
            } else {
                DEFAULT_MIME.to_owned()
            }
        },
        None => {
            assert(!bare_mime(t@));
            DEFAULT_MIME.to_owned()
        },
    }
}

/// The slash of a bare MIME type is the first slash in it.
proof fn lemma_slash_is_first(t: Seq<char>, k: int)
    requires
        0 <= k < t.len(),
        t[k] == '/',
        !t.take(k).contains('/'),
    ensures
        bare_mime(t) == bare_mime_at(t, k),
{
    if bare_mime(t) {
        let j = choose|j: int| bare_mime_at(t, j);
        if j < k {
            assert(t.take(k)[j] == '/');
            assert(t.take(k).contains('/'));
        } else if j > k {
            assert(t.take(j)[k] == '/');
        }
    }
}

/// The last part of a path holds no separator.
proof fn lemma_base_name(s: Seq<char>)
    ensures
        forall|i: int| 0 <= i < base_name(s).len() ==> !separator(#[trigger] base_name(s)[i]),
    decreases s.len(),
{
    if s.len() > 0 && !separator(s.last()) {
        let front = base_name(s.drop_last());
        lemma_base_name(s.drop_last());
        assert forall|i: int| 0 <= i < base_name(s).len() implies !separator(
            #[trigger] base_name(s)[i],
        ) by {
            if i < front.len() {
                assert(base_name(s)[i] == front[i]);
            }
        }
    }
}

/// Whether `n` can name a file on a client's disk: it is not empty, is no
/// longer than `MAX_NAME`, has no path separator and no control character, and
/// neither begins nor ends with a dot.
pub open spec fn safe_name(n: Seq<char>) -> bool {
    &&& 0 < n.len() <= MAX_NAME
    &&& forall|i: int| 0 <= i < n.len() ==> !separator(#[trigger] n[i]) && !control_char(n[i])
    &&& n.first() != '.'
    &&& n.last() != '.'
}

/// Law: whatever a tab sends as a name, the name that is handed out is safe.
pub proof fn law_name_is_safe(raw: Seq<char>)
    ensures
        safe_name(sanitized_name(raw)),
{
    let base = base_name(raw);
    let keep = |c: char| !control_char(c);
    let kept = base.filter(keep);
    let clean = cleaned(raw);
    lemma_base_name(raw);
    assert forall|i: int| 0 <= i < kept.len() implies keep(#[trigger] kept[i]) && base.contains(
        kept[i],
    ) by {
        base.lemma_filter_pred(keep, i);
        base.lemma_filter_contains_rev(keep, kept[i]);
    }
    assert forall|i: int| 0 <= i < clean.len() implies !separator(#[trigger] clean[i])
        && !control_char(clean[i]) by {
        assert(clean[i] == kept[i]);
        assert(keep(kept[i]));
    }
    let spaced = trimmed(clean, Trim::Space);
    let b = lemma_trimmed(clean, Trim::Space);
    let d = lemma_trimmed(spaced, Trim::Only('.'));
    reveal_strlit("download");
}

/// Law: the MIME type that is handed out is always a bare `type/subtype`
/// without capitals, whatever a tab sends.
pub proof fn law_mime_is_bare(raw: Seq<char>)
    ensures
        bare_mime(sanitized_mime(raw)),
        lowered(sanitized_mime(raw)) == sanitized_mime(raw),
{
    let t = trimmed(raw, Trim::Space);
    let m = sanitized_mime(raw);
    if bare_mime(t) {
        let k = choose|k: int| bare_mime_at(t, k);
        assert forall|i: int| 0 <= i < m.take(k).len() implies token_char(
            #[trigger] m.take(k)[i],
        ) by {
            assert(token_char(t.take(k)[i]));
        }
        assert forall|i: int| 0 <= i < m.skip(k + 1).len() implies token_char(
            #[trigger] m.skip(k + 1)[i],
        ) by {
            assert(token_char(t.skip(k + 1)[i]));
        }
        assert(m[k] == lower(t[k]));
        assert(bare_mime_at(m, k));
    } else {
        reveal_strlit("application/octet-stream");
        assert(m.take(11) =~= seq!['a', 'p', 'p', 'l', 'i', 'c', 'a', 't', 'i', 'o', 'n']);
        assert(bare_mime_at(m, 11));
    }
    assert(lowered(m) =~= m);
}

/// Law: a MIME type that went through once goes through unchanged.
pub proof fn law_mime_is_stable(raw: Seq<char>)
    ensures
        sanitized_mime(sanitized_mime(raw)) == sanitized_mime(raw),
{
    law_mime_is_bare(raw);
    let m = sanitized_mime(raw);
    let k = choose|k: int| bare_mime_at(m, k);
    assert(token_char(m.take(k)[0]));
    assert(token_char(m.skip(k + 1)[m.len() - k - 2]));
    lemma_trimmed_same(m, Trim::Space);
}

/// The last part of a text that ends in `b`.
proof fn lemma_base_name_join(a: Seq<char>, b: Seq<char>)
    ensures
        (forall|i: int| 0 <= i < b.len() ==> !separator(#[trigger] b[i])) ==> base_name(a + b)
            == base_name(a) + b,
        (exists|i: int| 0 <= i < b.len() && separator(#[trigger] b[i])) ==> base_name(a + b)
            == base_name(b),
    decreases b.len(),
{
    let s = a + b;
    if b.len() == 0 {
        assert(s =~= a);
        assert(base_name(a) + b =~= base_name(a));
    } else {
        let c = b.drop_last();
        assert(s.last() == b.last());
        assert(s.drop_last() =~= a + c);
        lemma_base_name_join(a, c);
        if !separator(b.last()) {
            if exists|i: int| 0 <= i < b.len() && separator(#[trigger] b[i]) {
                let i = choose|i: int| 0 <= i < b.len() && separator(#[trigger] b[i]);
                assert(separator(c[i]));
            } else {
                assert forall|i: int| 0 <= i < c.len() implies !separator(#[trigger] c[i]) by {
                    assert(c[i] == b[i]);
                }
                assert((base_name(a) + c).push(b.last()) =~= base_name(a) + b);
            }
        }
    }
}

/// A text without control characters is kept whole.
proof fn lemma_nothing_dropped(s: Seq<char>)
    requires
        forall|i: int| 0 <= i < s.len() ==> !control_char(#[trigger] s[i]),
    ensures
        s.filter(|c: char| !control_char(c)) == s,
    decreases s.len(),
{
    reveal(Seq::filter);
    if s.len() > 0 {
        let d = s.drop_last();
        assert forall|i: int| 0 <= i < d.len() implies !control_char(#[trigger] d[i]) by {
            assert(d[i] == s[i]);
        }
        lemma_nothing_dropped(d);
        assert(d.push(s.last()) =~= s);
    }
}

/// What is left of a text with neither separators nor control characters.
proof fn lemma_cleaned_plain(raw: Seq<char>)
    requires
        forall|i: int|
            0 <= i < raw.len() ==> !separator(#[trigger] raw[i]) && !control_char(raw[i]),
    ensures
        cleaned(raw) == if raw.len() <= MAX_NAME {
            raw
        } else {
            raw.take(MAX_NAME as int)
        },
{
    let none = Seq::<char>::empty();
    lemma_base_name_join(none, raw);
    assert(none + raw =~= raw);
    assert(base_name(none) + raw =~= raw);
    lemma_nothing_dropped(raw);
}

/// Law: a name that needs no cleaning is handed out as it is.
pub proof fn law_plain_names_are_kept(raw: Seq<char>)
    requires
        0 < raw.len() <= MAX_NAME,
        forall|i: int|
            0 <= i < raw.len() ==> #[trigger] raw[i] != '/' && raw[i] != '\\' && !control_char(
                raw[i],
            ),
        !space_char(raw.first()) && raw.first() != '.',
        !space_char(raw.last()) && raw.last() != '.',
    ensures
        sanitized_name(raw) == raw,
{
    lemma_cleaned_plain(raw);
    lemma_trimmed_same(raw, Trim::Space);
    lemma_trimmed_same(raw, Trim::Only('.'));
}

/// Law: a path before a name makes no difference.
pub proof fn law_paths_are_cut_off(dir: Seq<char>, sep: char, raw: Seq<char>)
    requires
        sep == '/' || sep == '\\',
    ensures
        sanitized_name(dir.push(sep) + raw) == sanitized_name(raw),
{
    let none = Seq::<char>::empty();
    lemma_base_name_join(dir.push(sep), raw);
    lemma_base_name_join(none, raw);
    assert(none + raw =~= raw);
    assert(none + base_name(raw) =~= base_name(raw));
    assert(base_name(dir.push(sep)) =~= none);
    assert(base_name(none) =~= none);
}

/// Law: a control character in a name makes no difference.
pub proof fn law_control_characters_are_dropped(a: Seq<char>, c: char, b: Seq<char>)
    requires
        control_char(c),
    ensures
        sanitized_name(a + seq![c] + b) == sanitized_name(a + b),
{
    let keep = |x: char| !control_char(x);
    let ac = a + seq![c];
    lemma_base_name_join(a, seq![c]);
    lemma_base_name_join(ac, b);
    lemma_base_name_join(a, b);
    let p = base_name(a);
    assert(base_name(ac) == p + seq![c]);
    assert((p + seq![c]).filter(keep) == p.filter(keep)) by {
        reveal(Seq::filter);
        assert((p + seq![c]).drop_last() =~= p);
    }
    Seq::filter_distributes_over_add(p + seq![c], b, keep);
    Seq::filter_distributes_over_add(p, b, keep);
}

/// Law: of a name that is too long, the first characters are kept.
pub proof fn law_long_names_are_cut(raw: Seq<char>)
    requires
        raw.len() > MAX_NAME,
        forall|i: int|
            0 <= i < raw.len() ==> #[trigger] raw[i] != '/' && raw[i] != '\\' && !control_char(
                raw[i],
            ),
    ensures
        sanitized_name(raw) == sanitized_name(raw.take(MAX_NAME as int)),
{
    let cut = raw.take(MAX_NAME as int);
    assert forall|i: int| 0 <= i < cut.len() implies !separator(#[trigger] cut[i]) && !control_char(
        cut[i],
    ) by {
        assert(cut[i] == raw[i]);
    }
    lemma_cleaned_plain(raw);
    lemma_cleaned_plain(cut);
}

/// Law: white space around a name, and then dots around it, are cut off, and
/// nothing else; where nothing is left, the file is called download.
pub proof fn law_names_lose_their_ends(
    w: Seq<char>,
    dots: Seq<char>,
    name: Seq<char>,
    more: Seq<char>,
    x: Seq<char>,
)
    requires
        w.len() + dots.len() + name.len() + more.len() + x.len() <= MAX_NAME,
        forall|i: int| 0 <= i < w.len() ==> space_char(#[trigger] w[i]) && !control_char(w[i]),
        forall|i: int| 0 <= i < x.len() ==> space_char(#[trigger] x[i]) && !control_char(x[i]),
        forall|i: int| 0 <= i < dots.len() ==> #[trigger] dots[i] == '.',
        forall|i: int| 0 <= i < more.len() ==> #[trigger] more[i] == '.',
        forall|i: int|
            0 <= i < name.len() ==> #[trigger] name[i] != '/' && name[i] != '\\' && !control_char(
                name[i],
            ),
        name.len() > 0 ==> name.first() != '.' && name.last() != '.',
        name.len() > 0 && dots.len() == 0 ==> !space_char(name.first()),
        name.len() > 0 && more.len() == 0 ==> !space_char(name.last()),
    ensures
        sanitized_name(w + (dots + name + more) + x) == if name.len() == 0 {
            "download"@
        } else {
            name
        },
{
    let mid = dots + name + more;
    let raw = w + mid + x;
    assert forall|i: int| 0 <= i < raw.len() implies !separator(#[trigger] raw[i]) && !control_char(
        raw[i],
    ) by {
        let j = i - w.len();
        if j < 0 {
            assert(raw[i] == w[i]);
        } else if j < mid.len() {
            assert(raw[i] == mid[j]);
            if j < dots.len() {
                assert(mid[j] == dots[j]);
            } else if j < dots.len() + name.len() {
                assert(mid[j] == name[j - dots.len()]);
            } else {
                assert(mid[j] == more[j - dots.len() - name.len()]);
            }
        } else {
            assert(raw[i] == x[j - mid.len()]);
        }
    }
    lemma_cleaned_plain(raw);
    if mid.len() > 0 {
        assert(mid.first() == if dots.len() > 0 {
            dots[0]
        } else if name.len() > 0 {
            name[0]
        } else {
            more[0]
        });
        assert(mid.last() == if more.len() > 0 {
            more[more.len() - 1]
        } else if name.len() > 0 {
            name[name.len() - 1]
        } else {
            dots[dots.len() - 1]
        });
    }
    law_trimming_takes_the_ends_off(w, mid, x, Trim::Space);
    law_trimming_takes_the_ends_off(dots, name, more, Trim::Only('.'));
}

/// Whether `c` is a letter or digit of ASCII, or one of the marks that a MIME
/// type can have.
pub open spec fn type_mark(c: char) -> bool {
    ||| 'a' <= c <= 'z'
    ||| 'A' <= c <= 'Z'
    ||| '0' <= c <= '9'
    ||| "!#$%&'*+-.^_`|~"@.contains(c)
}

/// The two ways to say which characters a MIME type can have.
proof fn lemma_type_mark(c: char)
    ensures
        type_mark(c) == token_char(c),
{
    reveal_strlit("!#$%&'*+-.^_`|~");
    let m = "!#$%&'*+-.^_`|~"@;
    assert(m[0] == '!' && m[1] == '#' && m[2] == '$' && m[3] == '%' && m[4] == '&' && m[5] == '\''
        && m[6] == '*' && m[7] == '+' && m[8] == '-' && m[9] == '.' && m[10] == '^' && m[11] == '_'
        && m[12] == '`' && m[13] == '|' && m[14] == '~');
}

/// What becomes of a character when capitals are made small.
proof fn lemma_lower(c: char)
    ensures
        if 'A' <= c <= 'Z' {
            lower(c) as u32 == c as u32 + 32
        } else {
            lower(c) == c
        },
{
}

/// Law: a bare type and subtype are kept, with their capitals made small, and
/// white space around them makes no difference.
pub proof fn law_bare_types_are_kept(
    w: Seq<char>,
    a: Seq<char>,
    b: Seq<char>,
    x: Seq<char>,
    i: int,
)
    requires
        forall|j: int| 0 <= j < w.len() ==> space_char(#[trigger] w[j]),
        forall|j: int| 0 <= j < x.len() ==> space_char(#[trigger] x[j]),
        a.len() > 0,
        b.len() > 0,
        forall|j: int| 0 <= j < a.len() ==> type_mark(#[trigger] a[j]),
        forall|j: int| 0 <= j < b.len() ==> type_mark(#[trigger] b[j]),
        a.len() + b.len() < 128,
    ensures
        ({
            let raw = a.push('/') + b;
            let mime = sanitized_mime(w + raw + x);
            &&& mime.len() == raw.len()
            &&& 0 <= i < raw.len() ==> if 'A' <= raw[i] <= 'Z' {
                mime[i] as u32 == raw[i] as u32 + 32
            } else {
                mime[i] == raw[i]
            }
        }),
{
    let raw = a.push('/') + b;
    let k = a.len() as int;
    assert forall|j: int| 0 <= j < a.len() implies token_char(#[trigger] a[j]) by {
        lemma_type_mark(a[j]);
    }
    assert forall|j: int| 0 <= j < b.len() implies token_char(#[trigger] b[j]) by {
        lemma_type_mark(b[j]);
    }
    assert(raw.take(k) =~= a);
    assert(raw.skip(k + 1) =~= b);
    assert(raw[k] == '/');
    assert(bare_mime_at(raw, k));
    assert(token_char(a[0]));
    assert(token_char(b[b.len() - 1]));
    assert(raw.first() == a[0]);
    assert(raw.last() == b[b.len() - 1]);
    law_trimming_takes_the_ends_off(w, raw, x, Trim::Space);
    if 0 <= i < raw.len() {
        lemma_lower(raw[i]);
    }
}

/// Whether `raw` has no slash, or more than one, or one at an end, has a character
/// that no type can have, or is too long.
pub open spec fn no_bare_type(raw: Seq<char>) -> bool {
    ||| !raw.contains('/')
    ||| raw.first() == '/'
    ||| raw.last() == '/'
    ||| exists|i: int, j: int|
        0 <= i < j < raw.len() && #[trigger] raw[i] == '/' && #[trigger] raw[j] == '/'
    ||| exists|i: int| 0 <= i < raw.len() && #[trigger] raw[i] != '/' && !type_mark(raw[i])
    ||| raw.len() > 128
}

/// Law: whatever is not just a type, a slash and a subtype, or is too long,
/// becomes the default type.
pub proof fn law_other_types_become_the_default(raw: Seq<char>)
    requires
        raw.len() > 0 ==> !space_char(raw.first()) && !space_char(raw.last()),
        no_bare_type(raw),
    ensures
        sanitized_mime(raw) == "application/octet-stream"@,
{
    lemma_trimmed_same(raw, Trim::Space);
    if bare_mime(raw) {
        let k = choose|k: int| bare_mime_at(raw, k);
        assert forall|i: int| 0 <= i < raw.len() && i != k implies token_char(
            #[trigger] raw[i],
        ) && type_mark(raw[i]) && raw[i] != '/' by {
            if i < k {
                assert(token_char(raw.take(k)[i]));
            } else {
                assert(token_char(raw.skip(k + 1)[i - k - 1]));
            }
            lemma_type_mark(raw[i]);
        }
        assert(raw.contains(raw[k]));
    }
}

} // verus!
