//! Text as a sequence of characters: building, searching, trimming, numbers.
//!
//! Everything here works on `Vec<char>`, so that positions are counted in
//! characters and contracts can be stated over `Seq<char>`.

use vstd::prelude::*;

verus! {

/// `String::push`: appends one character to the end of the string.
pub assume_specification[ String::push ](s: &mut String, c: char)
    ensures
        final(s)@ == old(s)@.push(c),
;

/// The characters of `s`, in order.
pub fn chars_of(s: &str) -> (v: Vec<char>)
    ensures
        v@ == s@,
{
    let mut v: Vec<char> = Vec::new();
    for c in it: s.chars()
        invariant
            it.seq() == s@,
            v@ == s@.take(it.index() as int),
    {
        v.push(c);
    }
    assert(s@.take(s@.len() as int) =~= s@);
    v
}

/// The string made of the characters `v`, in order.
pub fn string_of(v: &Vec<char>) -> (s: String)
    ensures
        s@ == v@,
{
    let mut s: String = String::new();
    let mut i: usize = 0;
    while i < v.len()
        invariant
            i <= v@.len(),
            s@ == v@.take(i as int),
        decreases v@.len() - i,
    {
        s.push(v[i]);
        i = i + 1;
        assert(v@.take(i as int) =~= v@.take(i - 1).push(v@[i - 1]));
    }
    assert(v@.take(v@.len() as int) =~= v@);
    s
}

/// The characters at positions `from .. to`.
pub fn slice_chars(v: &Vec<char>, from: usize, to: usize) -> (r: Vec<char>)
    requires
        from <= to <= v@.len(),
    ensures
        r@ == v@.subrange(from as int, to as int),
{
    let mut r: Vec<char> = Vec::new();
    let mut i: usize = from;
    while i < to
        invariant
            from <= i <= to <= v@.len(),
            r@ == v@.subrange(from as int, i as int),
        decreases to - i,
    {
        r.push(v[i]);
        i = i + 1;
        assert(v@.subrange(from as int, i as int) =~= v@.subrange(from as int, i - 1).push(
            v@[i - 1],
        ));
    }
    r
}

/// Whether `c` is Unicode white space (the property `White_Space`).
pub open spec fn space_char(c: char) -> bool {
    let n = c as u32;
    ||| 0x09 <= n <= 0x0d
    ||| n == 0x20
    ||| n == 0x85
    ||| n == 0xa0
    ||| n == 0x1680
    ||| 0x2000 <= n <= 0x200a
    ||| n == 0x2028
    ||| n == 0x2029
    ||| n == 0x202f
    ||| n == 0x205f
    ||| n == 0x3000
}

/// Whether `c` is a control character (the general category `Cc`).
pub open spec fn control_char(c: char) -> bool {
    let n = c as u32;
    n <= 0x1f || 0x7f <= n <= 0x9f
}

/// Tests for Unicode white space.
pub fn is_space(c: char) -> (r: bool)
    ensures
        r == space_char(c),
{
    let n: u32 = c as u32;
    (0x09 <= n && n <= 0x0d) || n == 0x20 || n == 0x85 || n == 0xa0 || n == 0x1680 || (0x2000 <= n
        && n <= 0x200a) || n == 0x2028 || n == 0x2029 || n == 0x202f || n == 0x205f || n == 0x3000
}

/// Tests for a control character.
pub fn is_control(c: char) -> (r: bool)
    ensures
        r == control_char(c),
{
    let n: u32 = c as u32;
    n <= 0x1f || (0x7f <= n && n <= 0x9f)
}

/// A set of characters that can be trimmed off the ends of a text.
#[derive(Clone, Copy)]
pub enum Trim {
    /// White space.
    Space,
    /// One given character.
    Only(char),
}

impl Trim {
    /// The characters in the set.
    pub open spec fn has(self, c: char) -> bool {
        match self {
            Trim::Space => space_char(c),
            Trim::Only(d) => c == d,
        }
    }

    /// Tests whether `c` is in the set.
    pub fn holds(&self, c: char) -> (r: bool)
        ensures
            r == self.has(c),
    {
        match self {
            Trim::Space => is_space(c),
            Trim::Only(d) => c == *d,
        }
    }
}

/// `s` without its longest prefix of characters in `set`.
pub open spec fn trimmed_front(s: Seq<char>, set: Trim) -> Seq<char>
    decreases s.len(),
{
    if s.len() > 0 && set.has(s.first()) {
        trimmed_front(s.drop_first(), set)
    } else {
        s
    }
}

/// `s` without its longest suffix of characters in `set`.
pub open spec fn trimmed_back(s: Seq<char>, set: Trim) -> Seq<char>
    decreases s.len(),
{
    if s.len() > 0 && set.has(s.last()) {
        trimmed_back(s.drop_last(), set)
    } else {
        s
    }
}

/// `s` without the characters in `set` at either end.
pub open spec fn trimmed(s: Seq<char>, set: Trim) -> Seq<char> {
    trimmed_back(trimmed_front(s, set), set)
}

/// Trimming at the front keeps a suffix, which does not begin in `set`.
proof fn lemma_trimmed_front(s: Seq<char>, set: Trim) -> (from: int)
    ensures
        0 <= from <= s.len(),
        trimmed_front(s, set) == s.skip(from),
        from < s.len() ==> !set.has(s[from]),
    decreases s.len(),
{
    if s.len() > 0 && set.has(s.first()) {
        let rest = lemma_trimmed_front(s.drop_first(), set);
        assert(s.drop_first().skip(rest) =~= s.skip(rest + 1));
        rest + 1
    } else {
        assert(s.skip(0) =~= s);
        0
    }
}

/// Trimming at the back keeps a prefix, which does not end in `set`.
proof fn lemma_trimmed_back(s: Seq<char>, set: Trim) -> (to: int)
    ensures
        0 <= to <= s.len(),
        trimmed_back(s, set) == s.take(to),
        to > 0 ==> !set.has(s[to - 1]),
    decreases s.len(),
{
    if s.len() > 0 && set.has(s.last()) {
        let n = lemma_trimmed_back(s.drop_last(), set);
        assert(s.drop_last().take(n) =~= s.take(n));
        n
    } else {
        assert(s.take(s.len() as int) =~= s);
        s.len() as int
    }
}

/// Trimming keeps a run of the text that neither begins nor ends in `set`.
pub proof fn lemma_trimmed(s: Seq<char>, set: Trim) -> (bounds: (int, int))
    ensures
        0 <= bounds.0 <= bounds.1 <= s.len(),
        trimmed(s, set) == s.subrange(bounds.0, bounds.1),
        bounds.0 < bounds.1 ==> !set.has(s[bounds.0]) && !set.has(s[bounds.1 - 1]),
{
    let from = lemma_trimmed_front(s, set);
    let rest = s.skip(from);
    let to = lemma_trimmed_back(rest, set);
    assert(rest.take(to) =~= s.subrange(from, from + to));
    (from, from + to)
}

/// A text that neither begins nor ends in `set` is left as it is.
pub proof fn lemma_trimmed_same(s: Seq<char>, set: Trim)
    requires
        s.len() > 0 ==> !set.has(s.first()) && !set.has(s.last()),
    ensures
        trimmed(s, set) == s,
{
}

/// What is left of `s` when its longest prefix of characters in `set` is cut off.
pub fn trim_front(v: &Vec<char>, set: Trim) -> (r: Vec<char>)
    ensures
        r@ == trimmed_front(v@, set),
{
    let mut i: usize = 0;
    assert(v@.skip(0) =~= v@);
    while i < v.len() && set.holds(v[i])
        invariant
            i <= v@.len(),
            trimmed_front(v@.skip(i as int), set) == trimmed_front(v@, set),
        decreases v@.len() - i,
    {
        assert(v@.skip(i as int).drop_first() =~= v@.skip(i + 1));
        i = i + 1;
    }
    assert(v@.skip(i as int) =~= v@.subrange(i as int, v@.len() as int));
    slice_chars(v, i, v.len())
}

/// What is left of `s` when its longest suffix of characters in `set` is cut off.
pub fn trim_back(v: &Vec<char>, set: Trim) -> (r: Vec<char>)
    ensures
        r@ == trimmed_back(v@, set),
{
    let mut n: usize = v.len();
    assert(v@.take(n as int) =~= v@);
    while n > 0 && set.holds(v[n - 1])
        invariant
            n <= v@.len(),
            trimmed_back(v@.take(n as int), set) == trimmed_back(v@, set),
        decreases n,
    {
        assert(v@.take(n as int).drop_last() =~= v@.take(n - 1));
        n = n - 1;
    }
    assert(v@.take(n as int) =~= v@.subrange(0, n as int));
    slice_chars(v, 0, n)
}

/// `v` without the characters in `set` at either end.
pub fn trim(v: &Vec<char>, set: Trim) -> (r: Vec<char>)
    ensures
        r@ == trimmed(v@, set),
{
    let front: Vec<char> = trim_front(v, set);
    trim_back(&front, set)
}

/// The position of the first `c` in `v`.
pub fn find(v: &Vec<char>, c: char) -> (r: Option<usize>)
    ensures
        match r {
            Some(i) => i < v@.len() && v@[i as int] == c && !v@.take(i as int).contains(c),
            None => !v@.contains(c),
        },
{
    let mut i: usize = 0;
    while i < v.len()
        invariant
            i <= v@.len(),
            forall|j: int| 0 <= j < i ==> v@[j] != c,
        decreases v@.len() - i,
    {
        if v[i] == c {
            return Some(i);
        }
        i = i + 1;
    }
    None
}

/// Whether `v` begins with the characters of `prefix`.
pub fn starts_with(v: &Vec<char>, prefix: &str) -> (r: bool)
    ensures
        r == prefix@.is_prefix_of(v@),
{
    let p: Vec<char> = chars_of(prefix);
    if v.len() < p.len() {
        return false;
    }
    let mut i: usize = 0;
    while i < p.len()
        invariant
            p@ == prefix@,
            i <= p@.len() <= v@.len(),
            forall|j: int| 0 <= j < i ==> v@[j] == p@[j],
        decreases p@.len() - i,
    {
        if v[i] != p[i] {
            assert(v@.subrange(0, p@.len() as int)[i as int] != p@[i as int]);
            return false;
        }
        i = i + 1;
    }
    assert(v@.subrange(0, p@.len() as int) =~= p@);
    true
}

/// Whether `a` and `b` have the same characters.
pub fn same_text(a: &str, b: &str) -> (r: bool)
    ensures
        r == (a@ == b@),
{
    let v: Vec<char> = chars_of(a);
    let w: Vec<char> = chars_of(b);
    if v.len() != w.len() {
        return false;
    }
    let mut i: usize = 0;
    while i < v.len()
        invariant
            v@ == a@,
            w@ == b@,
            i <= v@.len() == w@.len(),
            forall|j: int| 0 <= j < i ==> v@[j] == w@[j],
        decreases v@.len() - i,
    {
        if v[i] != w[i] {
            return false;
        }
        i = i + 1;
    }
    assert(v@ =~= w@);
    true
}

/// Whether `c` is an ASCII decimal digit.
pub open spec fn digit_char(c: char) -> bool {
    0x30 <= c as u32 <= 0x39
}

/// The number that the digits `s` write in base ten.
pub open spec fn digits_value(s: Seq<char>) -> nat
    decreases s.len(),
{
    if s.len() == 0 {
        0
    } else {
        digits_value(s.drop_last()) * 10 + (s.last() as u32 - 0x30) as nat
    }
}

/// The digits of a written number: what follows its optional plus sign.
pub open spec fn digits_part(s: Seq<char>) -> Seq<char> {
    if s.len() > 0 && s[0] == '+' {
        s.drop_first()
    } else {
        s
    }
}

/// The number that `s` writes: an optional plus sign, then at least one digit
/// and nothing else, with a value that 64 bits can hold.
pub open spec fn u64_of(s: Seq<char>) -> Option<u64> {
    let d = digits_part(s);
    if d.len() > 0 && (forall|i: int| 0 <= i < d.len() ==> digit_char(#[trigger] d[i]))
        && digits_value(d) <= u64::MAX {
        Some(digits_value(d) as u64)
    } else {
        None
    }
}

/// The decimal digits of `n`, without leading zeros.
pub open spec fn decimal_digits(n: nat) -> Seq<char>
    decreases n,
{
    if n < 10 {
        seq![(0x30 + n) as char]
    } else {
        decimal_digits(n / 10).push((0x30 + n % 10) as char)
    }
}

/// A prefix of a written number is no larger than the whole.
proof fn lemma_digits_value_prefix(s: Seq<char>, i: int)
    requires
        0 <= i <= s.len(),
    ensures
        digits_value(s.take(i)) <= digits_value(s),
    decreases s.len() - i,
{
    if i < s.len() {
        lemma_digits_value_prefix(s, i + 1);
        assert(s.take(i + 1).drop_last() =~= s.take(i));
    } else {
        assert(s.take(i) =~= s);
    }
}

/// Reads an unsigned 64-bit number.
pub fn parse_u64(v: &Vec<char>) -> (r: Option<u64>)
    ensures
        r == u64_of(v@),
{
    let d: Vec<char> = if v.len() > 0 && v[0] == '+' {
        assert(v@.drop_first() =~= v@.subrange(1, v@.len() as int));
        slice_chars(v, 1, v.len())
    } else {
        assert(v@ =~= v@.subrange(0, v@.len() as int));
        slice_chars(v, 0, v.len())
    };
    if d.len() == 0 {
        return None;
    }
    let mut n: u64 = 0;
    let mut i: usize = 0;
    while i < d.len()
        invariant
            d@ == digits_part(v@),
            i <= d@.len(),
            n == digits_value(d@.take(i as int)),
            forall|j: int| 0 <= j < i ==> digit_char(#[trigger] d@[j]),
        decreases d@.len() - i,
    {
        let c: u32 = d[i] as u32;
        if c < 0x30 || c > 0x39 {
            assert(!digit_char(d@[i as int]));
            return None;
        }
        let digit: u64 = (c - 0x30) as u64;
        proof {
            assert(d@.take(i + 1).drop_last() =~= d@.take(i as int));
            lemma_digits_value_prefix(d@, i + 1);
        }
        match n.checked_mul(10) {
            Some(shifted) => match shifted.checked_add(digit) {
                Some(sum) => {
                    n = sum;
                },
                None => {
                    return None;
                },
            },
            None => {
                return None;
            },
        }
        i = i + 1;
    }
    assert(d@.take(d@.len() as int) =~= d@);
    Some(n)
}

/// Writes `n` in base ten.
pub fn decimal(n: u64) -> (s: String)
    ensures
        s@ == decimal_digits(n as nat),
    decreases n,
{
    let last: char = (0x30u8 + (n % 10) as u8) as char;
    let mut s: String = if n < 10 {
        String::new()
    } else {
        decimal(n / 10)
    };
    s.push(last);
    assert(n < 10 ==> s@ =~= seq![(0x30 + n) as char]);
    s
}

/// The digits of a number are digits, there is at least one of them, and they
/// write that number.
pub proof fn lemma_decimal_digits(n: nat)
    ensures
        decimal_digits(n).len() > 0,
        forall|i: int|
            0 <= i < decimal_digits(n).len() ==> digit_char(#[trigger] decimal_digits(n)[i]),
        digits_value(decimal_digits(n)) == n,
    decreases n,
{
    let s = decimal_digits(n);
    if n < 10 {
        assert(s.drop_last() =~= Seq::empty());
        assert(digits_value(s.drop_last()) == 0);
    } else {
        lemma_decimal_digits(n / 10);
        assert(s.drop_last() =~= decimal_digits(n / 10));
    }
}

/// Law: reading back a number that was written gives the number.
pub proof fn law_decimal_round_trip(n: u64)
    ensures
        u64_of(decimal_digits(n as nat)) == Some(n),
{
    lemma_decimal_digits(n as nat);
    let s = decimal_digits(n as nat);
    assert(digit_char(s[0]));
    assert(digits_part(s) == s);
}

/// A character of `set` at the end of a text is trimmed off.
proof fn lemma_trim_last(s: Seq<char>, set: Trim)
    requires
        s.len() > 0,
        set.has(s.last()),
    ensures
        trimmed(s, set) == trimmed(s.drop_last(), set),
    decreases s.len(),
{
    if set.has(s.first()) {
        if s.len() == 1 {
            assert(s.drop_first() =~= Seq::empty());
            assert(s.drop_last() =~= Seq::empty());
        } else {
            assert(s.drop_first().last() == s.last());
            assert(s.drop_first().drop_last() =~= s.drop_last().drop_first());
            assert(s.drop_last().first() == s.first());
            lemma_trim_last(s.drop_first(), set);
        }
    } else {
        assert(s.drop_last().len() > 0 ==> s.drop_last().first() == s.first());
    }
}

/// Law: characters of `set` around a text make no difference to what trimming
/// leaves of it.
pub proof fn law_trimming_ignores_what_is_around(
    w: Seq<char>,
    text: Seq<char>,
    x: Seq<char>,
    set: Trim,
)
    requires
        forall|i: int| 0 <= i < w.len() ==> set.has(#[trigger] w[i]),
        forall|i: int| 0 <= i < x.len() ==> set.has(#[trigger] x[i]),
    ensures
        trimmed(w + text + x, set) == trimmed(text, set),
    decreases w.len() + x.len(),
{
    let all = w + text + x;
    if w.len() > 0 {
        let v = w.drop_first();
        assert(all.first() == w[0]);
        assert(all.drop_first() =~= v + text + x);
        assert forall|i: int| 0 <= i < v.len() implies set.has(#[trigger] v[i]) by {
            assert(v[i] == w[i + 1]);
        }
        law_trimming_ignores_what_is_around(v, text, x, set);
    } else if x.len() > 0 {
        let y = x.drop_last();
        assert forall|i: int| 0 <= i < y.len() implies set.has(#[trigger] y[i]) by {
            assert(y[i] == x[i]);
        }
        assert(all.drop_last() =~= w + text + y);
        assert(all.last() == x.last());
        lemma_trim_last(all, set);
        law_trimming_ignores_what_is_around(w, text, y, set);
    } else {
        assert(all =~= text);
    }
}

/// Law: trimming takes just the characters of `set` off both ends of a text, and
/// leaves what is between them as it is.
pub proof fn law_trimming_takes_the_ends_off(
    w: Seq<char>,
    text: Seq<char>,
    x: Seq<char>,
    set: Trim,
)
    requires
        forall|i: int| 0 <= i < w.len() ==> set.has(#[trigger] w[i]),
        forall|i: int| 0 <= i < x.len() ==> set.has(#[trigger] x[i]),
        text.len() > 0 ==> !set.has(text.first()) && !set.has(text.last()),
    ensures
        trimmed(w + text + x, set) == text,
{
    law_trimming_ignores_what_is_around(w, text, x, set);
    lemma_trimmed_same(text, set);
}

/// The two ways to say what a digit is.
proof fn lemma_digit_char(c: char)
    ensures
        digit_char(c) == ('0' <= c <= '9'),
{
}

/// Law: numbers are read by their digits. One digit is its own value; one more
/// digit behind a number makes it ten times the number and the digit, where 64
/// bits can hold that, and no number otherwise.
pub proof fn law_digits_are_positional(d: Seq<char>, c: char)
    requires
        forall|i: int| 0 <= i < d.len() ==> '0' <= #[trigger] d[i] <= '9',
        '0' <= c <= '9',
    ensures
        u64_of(seq![c]) == Some((c as u32 - '0' as u32) as u64),
        d.len() > 0 ==> u64_of(d.push(c)) == match u64_of(d) {
            Some(n) => if 10 * n + (c as u32 - '0' as u32) <= u64::MAX {
                Some((10 * n + (c as u32 - '0' as u32)) as u64)
            } else {
                None
            },
            None => None,
        },
{
    let one = seq![c];
    assert(one.drop_last() =~= Seq::empty());
    assert(digits_value(one.drop_last()) == 0);
    assert(digits_part(one) == one);
    assert(digit_char(one[0]));
    if d.len() > 0 {
        let e = d.push(c);
        assert(e[0] == d[0]);
        assert(digits_part(d) == d);
        assert(digits_part(e) == e);
        assert(e.drop_last() =~= d);
        assert forall|i: int| 0 <= i < e.len() implies digit_char(#[trigger] e[i]) by {
            if i < d.len() {
                assert(e[i] == d[i]);
            }
        }
        assert forall|i: int| 0 <= i < d.len() implies digit_char(#[trigger] d[i]) by {}
    }
}

/// Law: a number may have a plus sign before it; without a digit, and with any
/// other character in it, it is no number.
pub proof fn law_numbers_are_digits(s: Seq<char>)
    ensures
        s.len() > 0 && s[0] != '+' ==> u64_of(seq!['+'] + s) == u64_of(s),
        s.len() == 0 || s == seq!['+'] ==> u64_of(s) is None,
        (exists|i: int|
            0 <= i < s.len() && !('0' <= #[trigger] s[i] <= '9') && (i > 0 || s[i] != '+'))
            ==> u64_of(s) is None,
{
    let p = seq!['+'] + s;
    assert(p.drop_first() =~= s);
    if exists|i: int|
        0 <= i < s.len() && !('0' <= #[trigger] s[i] <= '9') && (i > 0 || s[i] != '+') {
        let i = choose|i: int|
            0 <= i < s.len() && !('0' <= #[trigger] s[i] <= '9') && (i > 0 || s[i] != '+');
        let d = digits_part(s);
        lemma_digit_char(s[i]);
        if s[0] == '+' {
            assert(d[i - 1] == s[i]);
            assert(!digit_char(d[i - 1]));
        } else {
            assert(!digit_char(d[i]));
        }
    }
    if s == seq!['+'] {
        assert(digits_part(s) =~= Seq::empty());
    }
}

/// Law: a number is written plainly: in digits alone, and without a zero before
/// it.
pub proof fn law_decimal_is_plain(n: nat)
    ensures
        decimal_digits(n).len() > 0,
        forall|i: int|
            0 <= i < decimal_digits(n).len() ==> '0' <= #[trigger] decimal_digits(n)[i] <= '9',
        n > 0 ==> decimal_digits(n)[0] != '0',
        n == 0 ==> decimal_digits(n) == seq!['0'],
    decreases n,
{
    lemma_decimal_digits(n);
    assert forall|i: int| 0 <= i < decimal_digits(n).len() implies '0' <= #[trigger] decimal_digits(
        n,
    )[i] <= '9' by {
        assert(digit_char(decimal_digits(n)[i]));
        lemma_digit_char(decimal_digits(n)[i]);
    }
    if n >= 10 {
        law_decimal_is_plain(n / 10);
    }
}

} // verus!
