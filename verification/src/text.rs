//! Character-level helpers shared by the parsers and formatters of the
//! library: conversion between `str` and character vectors, Unicode
//! whitespace trimming, splitting on a separator and radix conversions.

use vstd::prelude::*;

verus! {

/// Appends one character to a string (`String::push`).
#[verifier::external_body]
pub(crate) fn push_char(s: &mut String, c: char)
    ensures
        final(s)@ == old(s)@.push(c),
{
    s.push(c);
}

/// The characters of `s`, in order.
pub fn chars_of(s: &str) -> (v: Vec<char>)
    ensures
        v@ == s@,
{
    let n = s.unicode_len();
    let mut v: Vec<char> = Vec::new();
    let mut i: usize = 0;
    while i < n
        invariant
            n == s@.len(),
            i <= n,
            v@ == s@.take(i as int),
        decreases n - i,
    {
        let c = s.get_char(i);
        v.push(c);
        i = i + 1;
        assert(v@ =~= s@.take(i as int));
    }
    assert(v@ =~= s@);
    v
}

/// The string made of the characters `v[lo..hi]`.
pub fn string_of_range(v: &Vec<char>, lo: usize, hi: usize) -> (s: String)
    requires
        lo <= hi <= v@.len(),
    ensures
        s@ == v@.subrange(lo as int, hi as int),
{
    let mut s = String::new();
    let mut i = lo;
    while i < hi
        invariant
            lo <= i <= hi,
            hi <= v@.len(),
            s@ == v@.subrange(lo as int, i as int),
        decreases hi - i,
    {
        push_char(&mut s, v[i]);
        i = i + 1;
        assert(s@ =~= v@.subrange(lo as int, i as int));
    }
    s
}

/// The string made of all the characters of `v`.
pub fn string_of(v: &Vec<char>) -> (s: String)
    ensures
        s@ == v@,
{
    let s = string_of_range(v, 0, v.len());
    assert(v@.subrange(0, v@.len() as int) =~= v@);
    s
}


// ---------------------------------------------------------------------------
// Whitespace and trimming
// ---------------------------------------------------------------------------

/// The Unicode `White_Space` property, which `char::is_whitespace` (and so
/// `str::trim`) tests.
pub open spec fn is_unicode_whitespace(c: char) -> bool {
    let u = c as u32;
    ||| 0x9 <= u <= 0xD
    ||| u == 0x20
    ||| u == 0x85
    ||| u == 0xA0
    ||| u == 0x1680
    ||| 0x2000 <= u <= 0x200A
    ||| u == 0x2028
    ||| u == 0x2029
    ||| u == 0x202F
    ||| u == 0x205F
    ||| u == 0x3000
}

pub fn is_whitespace(c: char) -> (b: bool)
    ensures
        b == is_unicode_whitespace(c),
{
    let u = c as u32;
    (0x9 <= u && u <= 0xD) || u == 0x20 || u == 0x85 || u == 0xA0 || u == 0x1680 || (0x2000 <= u
        && u <= 0x200A) || u == 0x2028 || u == 0x2029 || u == 0x202F || u == 0x205F || u == 0x3000
}

/// `s` without its leading whitespace.
pub open spec fn trim_start(s: Seq<char>) -> Seq<char>
    decreases s.len(),
{
    if s.len() > 0 && is_unicode_whitespace(s[0]) {
        trim_start(s.drop_first())
    } else {
        s
    }
}

/// `s` without its trailing whitespace.
pub open spec fn trim_end(s: Seq<char>) -> Seq<char>
    decreases s.len(),
{
    if s.len() > 0 && is_unicode_whitespace(s.last()) {
        trim_end(s.drop_last())
    } else {
        s
    }
}

/// `s` without leading and trailing whitespace (`str::trim`).
pub open spec fn trim(s: Seq<char>) -> Seq<char> {
    trim_end(trim_start(s))
}

/// Bounds of `v[lo..hi]` once trimmed.
pub fn trim_bounds(v: &Vec<char>, lo: usize, hi: usize) -> (r: (usize, usize))
    requires
        lo <= hi <= v@.len(),
    ensures
        lo <= r.0 <= r.1 <= hi,
        v@.subrange(r.0 as int, r.1 as int) == trim(v@.subrange(lo as int, hi as int)),
{
    let mut a = lo;
    while a < hi && is_whitespace(v[a])
        invariant
            lo <= a <= hi,
            hi <= v@.len(),
            trim_start(v@.subrange(lo as int, hi as int)) == trim_start(
                v@.subrange(a as int, hi as int),
            ),
        decreases hi - a,
    {
        assert(v@.subrange(a as int, hi as int).drop_first() =~= v@.subrange(a + 1, hi as int));
        a = a + 1;
    }
    assert(trim_start(v@.subrange(a as int, hi as int)) == v@.subrange(a as int, hi as int));
    let mut b = hi;
    while b > a && is_whitespace(v[b - 1])
        invariant
            lo <= a <= b <= hi,
            hi <= v@.len(),
            trim_end(v@.subrange(a as int, hi as int)) == trim_end(v@.subrange(a as int, b as int)),
        decreases b - a,
    {
        assert(v@.subrange(a as int, b as int).drop_last() =~= v@.subrange(a as int, b - 1));
        b = b - 1;
    }
    (a, b)
}

/// The string `s` trimmed of its leading and trailing whitespace.
pub fn trimmed(s: &str) -> (r: String)
    ensures
        r@ == trim(s@),
{
    let v = chars_of(s);
    let (a, b) = trim_bounds(&v, 0, v.len());
    assert(v@.subrange(0, v@.len() as int) =~= v@);
    string_of_range(&v, a, b)
}

/// Whether `s` holds only whitespace (`s.trim().is_empty()`).
pub fn is_blank(s: &str) -> (r: bool)
    ensures
        r == (trim(s@).len() == 0),
{
    let v = chars_of(s);
    let (a, b) = trim_bounds(&v, 0, v.len());
    assert(v@.subrange(0, v@.len() as int) =~= v@);
    a == b
}

// ---------------------------------------------------------------------------
// Splitting
// ---------------------------------------------------------------------------

/// The pieces of `s` between the occurrences of `sep` (`str::split` with a
/// character pattern): never empty, the empty string gives one empty piece.
pub open spec fn split_on(s: Seq<char>, sep: char) -> Seq<Seq<char>>
    decreases s.len(),
{
    if s.len() == 0 {
        seq![Seq::empty()]
    } else {
        let init = split_on(s.drop_last(), sep);
        if s.last() == sep {
            init.push(Seq::empty())
        } else {
            init.update(init.len() - 1, init.last().push(s.last()))
        }
    }
}

pub proof fn lemma_split_on_nonempty(s: Seq<char>, sep: char)
    ensures
        split_on(s, sep).len() >= 1,
    decreases s.len(),
{
    if s.len() > 0 {
        lemma_split_on_nonempty(s.drop_last(), sep);
    }
}

/// Ranges of the pieces of `v[lo..hi]` split on `sep`.
pub fn split_ranges(v: &Vec<char>, lo: usize, hi: usize, sep: char) -> (r: Vec<(usize, usize)>)
    requires
        lo <= hi <= v@.len(),
    ensures
        r@.len() == split_on(v@.subrange(lo as int, hi as int), sep).len(),
        forall|k: int|
            0 <= k < r@.len() ==> lo <= #[trigger] r@[k].0 <= r@[k].1 <= hi && v@.subrange(
                r@[k].0 as int,
                r@[k].1 as int,
            ) == split_on(v@.subrange(lo as int, hi as int), sep)[k],
{
    let mut r: Vec<(usize, usize)> = Vec::new();
    let mut start = lo;
    let mut i = lo;
    while i < hi
        invariant
            lo <= start <= i <= hi,
            hi <= v@.len(),
            split_on(v@.subrange(lo as int, i as int), sep).len() == r@.len() + 1,
            split_on(v@.subrange(lo as int, i as int), sep).last() == v@.subrange(
                start as int,
                i as int,
            ),
            forall|k: int|
                0 <= k < r@.len() ==> lo <= #[trigger] r@[k].0 <= r@[k].1 <= i && v@.subrange(
                    r@[k].0 as int,
                    r@[k].1 as int,
                ) == split_on(v@.subrange(lo as int, i as int), sep)[k],
        decreases hi - i,
    {
        let ghost prev = split_on(v@.subrange(lo as int, i as int), sep);
        assert(v@.subrange(lo as int, i + 1).drop_last() =~= v@.subrange(lo as int, i as int));
        if v[i] == sep {
            r.push((start, i));
            start = i + 1;
            assert(v@.subrange(start as int, i + 1) =~= Seq::<char>::empty());
        } else {
            assert(v@.subrange(start as int, i + 1) =~= v@.subrange(start as int, i as int).push(
                v@[i as int],
            ));
        }
        i = i + 1;
    }
    r.push((start, hi));
    r
}

// ---------------------------------------------------------------------------
// Radix parsing (`from_str_radix` for unsigned integers)
// ---------------------------------------------------------------------------

/// Value of a digit in `radix` (`char::to_digit`), for radices up to 36.
pub open spec fn digit_value(c: char, radix: nat) -> Option<nat> {
    let u = c as u32;
    let d: int = if '0' <= c <= '9' {
        u - 48
    } else if 'a' <= c <= 'z' {
        u - 97 + 10
    } else if 'A' <= c <= 'Z' {
        u - 65 + 10
    } else {
        radix as int
    };
    if d < radix {
        Some(d as nat)
    } else {
        None
    }
}

pub open spec fn all_digits(s: Seq<char>, radix: nat) -> bool {
    forall|i: int| 0 <= i < s.len() ==> (#[trigger] digit_value(s[i], radix)) is Some
}

/// Big-endian value of a string of digits.
pub open spec fn digits_value(s: Seq<char>, radix: nat) -> nat
    decreases s.len(),
{
    if s.len() == 0 {
        0
    } else {
        digits_value(s.drop_last(), radix) * radix + match digit_value(s.last(), radix) {
            Some(d) => d,
            None => 0,
        }
    }
}

/// `from_str_radix` for an unsigned type whose largest value is `max`: an
/// optional `+`, then at least one digit, and a value that fits.
pub open spec fn parse_unsigned(s: Seq<char>, radix: nat, max: nat) -> Option<nat> {
    let digits = if s.len() > 0 && s[0] == '+' {
        s.drop_first()
    } else {
        s
    };
    if digits.len() > 0 && all_digits(digits, radix) && digits_value(digits, radix) <= max {
        Some(digits_value(digits, radix))
    } else {
        None
    }
}

pub fn digit_of(c: char, radix: u32) -> (r: Option<u32>)
    requires
        2 <= radix <= 36,
    ensures
        match digit_value(c, radix as nat) {
            Some(d) => r == Some(d as u32),
            None => r is None,
        },
{
    let u = c as u32;
    let d: u32 = if '0' <= c && c <= '9' {
        u - 48
    } else if 'a' <= c && c <= 'z' {
        u - 97 + 10
    } else if 'A' <= c && c <= 'Z' {
        u - 65 + 10
    } else {
        radix
    };
    if d < radix {
        Some(d)
    } else {
        None
    }
}

proof fn lemma_digits_value_prefix_le(s: Seq<char>, k: int, radix: nat)
    requires
        0 <= k <= s.len(),
        radix >= 1,
    ensures
        digits_value(s.take(k), radix) <= digits_value(s, radix),
    decreases s.len(),
{
    if k < s.len() {
        lemma_digits_value_prefix_le(s.drop_last(), k, radix);
        assert(s.drop_last().take(k) =~= s.take(k));
        let p = digits_value(s.drop_last(), radix);
        assert(p * radix >= p) by (nonlinear_arith)
            requires
                radix >= 1,
        ;
    } else {
        assert(s.take(k) =~= s);
    }
}

/// `from_str_radix` on the characters `v[lo..hi]`.
pub fn parse_unsigned_range(v: &Vec<char>, lo: usize, hi: usize, radix: u32, max: u64) -> (r:
    Option<u64>)
    requires
        lo <= hi <= v@.len(),
        2 <= radix <= 36,
    ensures
        match parse_unsigned(v@.subrange(lo as int, hi as int), radix as nat, max as nat) {
            Some(n) => r == Some(n as u64),
            None => r is None,
        },
{
    let ghost s = v@.subrange(lo as int, hi as int);
    let start = if lo < hi && v[lo] == '+' {
        lo + 1
    } else {
        lo
    };
    let ghost digits = v@.subrange(start as int, hi as int);
    assert(digits =~= (if s.len() > 0 && s[0] == '+' {
        s.drop_first()
    } else {
        s
    }));
    if start == hi {
        assert(parse_unsigned(s, radix as nat, max as nat) is None);
        return None;
    }
    let mut acc: u64 = 0;
    let mut i = start;
    while i < hi
        invariant
            start <= i <= hi,
            hi <= v@.len(),
            2 <= radix <= 36,
            digits == v@.subrange(start as int, hi as int),
            s == v@.subrange(lo as int, hi as int),
            digits == (if s.len() > 0 && s[0] == '+' {
                s.drop_first()
            } else {
                s
            }),
            digits.len() > 0,
            all_digits(v@.subrange(start as int, i as int), radix as nat),
            acc as nat == digits_value(v@.subrange(start as int, i as int), radix as nat),
            acc <= max,
        decreases hi - i,
    {
        let ghost prefix = v@.subrange(start as int, i as int);
        let ghost next = v@.subrange(start as int, i + 1);
        assert(next.drop_last() =~= prefix);
        assert(next.last() == v@[i as int]);
        match digit_of(v[i], radix) {
            None => {
                assert(digits[i - start] == v@[i as int]);
                assert(digit_value(digits[i - start], radix as nat) is None);
                assert(!all_digits(digits, radix as nat));
                assert(parse_unsigned(s, radix as nat, max as nat) is None);
                return None;
            },
            Some(d) => {
                assert(next =~= digits.take(i - start + 1));
                let m = acc.checked_mul(radix as u64);
                match m {
                    None => {
                        proof {
                            lemma_digits_value_prefix_le(digits, i - start + 1, radix as nat);
                        }
                        return None;
                    },
                    Some(m) => {
                        let n = m.checked_add(d as u64);
                        match n {
                            None => {
                                proof {
                                    lemma_digits_value_prefix_le(
                                        digits,
                                        i - start + 1,
                                        radix as nat,
                                    );
                                }
                                return None;
                            },
                            Some(n) => {
                                if n > max {
                                    proof {
                                        lemma_digits_value_prefix_le(
                                            digits,
                                            i - start + 1,
                                            radix as nat,
                                        );
                                    }
                                    return None;
                                }
                                acc = n;
                            },
                        }
                    },
                }
            },
        }
        assert(all_digits(next, radix as nat)) by {
            assert forall|j: int| 0 <= j < next.len() implies (#[trigger] digit_value(
                next[j],
                radix as nat,
            )) is Some by {
                if j < prefix.len() {
                    assert(next[j] == prefix[j]);
                }
            }
        }
        i = i + 1;
    }
    assert(v@.subrange(start as int, i as int) =~= digits);
    Some(acc)
}

/// `from_str_radix` on a whole string.
pub fn parse_unsigned_str(s: &str, radix: u32, max: u64) -> (r: Option<u64>)
    requires
        2 <= radix <= 36,
    ensures
        match parse_unsigned(s@, radix as nat, max as nat) {
            Some(n) => r == Some(n as u64),
            None => r is None,
        },
{
    let v = chars_of(s);
    assert(v@.subrange(0, v@.len() as int) =~= v@);
    parse_unsigned_range(&v, 0, v.len(), radix, max)
}


// ---------------------------------------------------------------------------
// Formatting of unsigned integers
// ---------------------------------------------------------------------------

/// Lower-case digit character of `d` (`0-9a-z`).
pub open spec fn digit_char(d: nat) -> char {
    if d < 10 {
        (48 + d) as char
    } else {
        (97 + d - 10) as char
    }
}

/// `v` written in base 16 on exactly `n` lower-case digits, keeping the
/// `n` low-order digits (`{v:0nx}` for a value that fits).
pub open spec fn hex_fixed(v: nat, n: nat) -> Seq<char>
    decreases n,
{
    if n == 0 {
        Seq::empty()
    } else {
        hex_fixed(v / 16, (n - 1) as nat).push(digit_char(v % 16))
    }
}

/// `v` written in base 10 without leading zeros (`{v}`).
pub open spec fn dec_digits(v: nat) -> Seq<char>
    decreases v,
{
    if v < 10 {
        seq![digit_char(v)]
    } else {
        dec_digits(v / 10).push(digit_char(v % 10))
    }
}

pub open spec fn pow16(n: nat) -> nat
    decreases n,
{
    if n == 0 {
        1
    } else {
        16 * pow16((n - 1) as nat)
    }
}

pub proof fn lemma_digit_char_value(d: nat, radix: nat)
    requires
        d < radix <= 36,
    ensures
        digit_value(digit_char(d), radix) == Some(d),
{
}

pub proof fn lemma_hex_fixed_value(v: nat, n: nat)
    requires
        v < pow16(n),
    ensures
        hex_fixed(v, n).len() == n,
        all_digits(hex_fixed(v, n), 16),
        digits_value(hex_fixed(v, n), 16) == v,
    decreases n,
{
    if n > 0 {
        lemma_hex_fixed_value(v / 16, (n - 1) as nat);
        lemma_digit_char_value(v % 16, 16);
        let h = hex_fixed(v, n);
        assert(h.drop_last() =~= hex_fixed(v / 16, (n - 1) as nat));
        assert forall|i: int| 0 <= i < h.len() implies (#[trigger] digit_value(h[i], 16)) is Some by {
            if i < h.len() - 1 {
                assert(h[i] == hex_fixed(v / 16, (n - 1) as nat)[i]);
            }
        }
    }
}

pub proof fn lemma_dec_digits_value(v: nat)
    ensures
        dec_digits(v).len() >= 1,
        all_digits(dec_digits(v), 10),
        digits_value(dec_digits(v), 10) == v,
    decreases v,
{
    if v < 10 {
        lemma_digit_char_value(v, 10);
        let h = dec_digits(v);
        assert(h.drop_last() =~= Seq::<char>::empty());
        assert(h[0] == digit_char(v));
        assert(h.last() == digit_char(v));
        assert(digits_value(h.drop_last(), 10) == 0);
        assert(digits_value(h, 10) == v);
        assert forall|i: int| 0 <= i < h.len() implies (#[trigger] digit_value(h[i], 10)) is Some by {
            assert(i == 0);
        }
    } else {
        lemma_dec_digits_value(v / 10);
        lemma_digit_char_value(v % 10, 10);
        let h = dec_digits(v);
        assert(h.drop_last() =~= dec_digits(v / 10));
        assert forall|i: int| 0 <= i < h.len() implies (#[trigger] digit_value(h[i], 10)) is Some by {
            if i < h.len() - 1 {
                assert(h[i] == dec_digits(v / 10)[i]);
            }
        }
    }
}

pub proof fn lemma_pow16_16()
    ensures
        pow16(16) == 0x1_0000_0000_0000_0000,
{
    reveal_with_fuel(pow16, 17);
}

fn digit_char_exec(d: u64) -> (c: char)
    requires
        d < 36,
    ensures
        c == digit_char(d as nat),
{
    if d < 10 {
        ((48 + d) as u8) as char
    } else {
        ((97 + d - 10) as u8) as char
    }
}

/// Appends `hex_fixed(v, n)` to `out`.
pub fn push_hex_fixed(out: &mut Vec<char>, v: u64, n: usize)
    ensures
        final(out)@ == old(out)@ + hex_fixed(v as nat, n as nat),
    decreases n,
{
    if n > 0 {
        push_hex_fixed(out, v / 16, n - 1);
        out.push(digit_char_exec(v % 16));
    } else {
        assert(old(out)@ + hex_fixed(v as nat, 0) =~= old(out)@);
    }
}

/// Appends `dec_digits(v)` to `out`.
pub fn push_dec(out: &mut Vec<char>, v: u64)
    ensures
        final(out)@ == old(out)@ + dec_digits(v as nat),
    decreases v,
{
    if v >= 10 {
        push_dec(out, v / 10);
    }
    out.push(digit_char_exec(v % 10));
}

// ---------------------------------------------------------------------------
// ASCII case
// ---------------------------------------------------------------------------

pub open spec fn ascii_lower(c: char) -> char {
    if 'A' <= c <= 'Z' {
        ((c as u32) + 32) as char
    } else {
        c
    }
}

/// `str::to_ascii_lowercase`.
pub open spec fn to_ascii_lower(s: Seq<char>) -> Seq<char> {
    Seq::new(s.len(), |i: int| ascii_lower(s[i]))
}

/// `str::eq_ignore_ascii_case`.
pub open spec fn eq_ignore_ascii_case(a: Seq<char>, b: Seq<char>) -> bool {
    to_ascii_lower(a) == to_ascii_lower(b)
}

pub fn ascii_lower_char(c: char) -> (r: char)
    ensures
        r == ascii_lower(c),
{
    if 'A' <= c && c <= 'Z' {
        ((c as u8) + 32) as char
    } else {
        c
    }
}

/// The lower-cased copy of `s` (`str::to_ascii_lowercase`).
pub fn lowercase_ascii(s: &str) -> (r: String)
    ensures
        r@ == to_ascii_lower(s@),
{
    let v = chars_of(s);
    let mut out = String::new();
    let mut i: usize = 0;
    while i < v.len()
        invariant
            i <= v@.len(),
            v@ == s@,
            out@ == to_ascii_lower(v@.take(i as int)),
        decreases v@.len() - i,
    {
        push_char(&mut out, ascii_lower_char(v[i]));
        i = i + 1;
        assert(out@ =~= to_ascii_lower(v@.take(i as int)));
    }
    assert(v@.take(i as int) =~= v@);
    out
}

/// Compares two strings ignoring ASCII case.
pub fn equal_ignore_ascii_case(a: &str, b: &str) -> (r: bool)
    ensures
        r == eq_ignore_ascii_case(a@, b@),
{
    let la = lowercase_ascii(a);
    let lb = lowercase_ascii(b);
    la == lb
}

/// Character-wise equality of two strings.
pub fn str_eq(a: &str, b: &str) -> (r: bool)
    ensures
        r == (a@ == b@),
{
    let sa = a.to_owned();
    let sb = b.to_owned();
    sa == sb
}


// ---------------------------------------------------------------------------
// Lists of items and first occurrences
// ---------------------------------------------------------------------------

/// The trimmed, non-empty pieces among `pieces`, in order.
pub open spec fn nonempty_trimmed(pieces: Seq<Seq<char>>) -> Seq<Seq<char>>
    decreases pieces.len(),
{
    if pieces.len() == 0 {
        Seq::empty()
    } else {
        let init = nonempty_trimmed(pieces.drop_last());
        let t = trim(pieces.last());
        if t.len() > 0 {
            init.push(t)
        } else {
            init
        }
    }
}

/// Items of a `sep`-separated list: pieces trimmed, empty pieces dropped
/// (`s.split(sep).map(str::trim).filter(|e| !e.is_empty())`).
pub open spec fn list_items(s: Seq<char>, sep: char) -> Seq<Seq<char>> {
    nonempty_trimmed(split_on(s, sep))
}

/// Ranges in `v` of the items of the `sep`-separated list `v`.
pub fn list_item_ranges(v: &Vec<char>, sep: char) -> (r: Vec<(usize, usize)>)
    ensures
        r@.len() == list_items(v@, sep).len(),
        forall|k: int| 0 <= k < r@.len() ==> #[trigger] range_holds(v@, r@[k], list_items(v@, sep)[k]),
{
    let pieces = split_ranges(v, 0, v.len(), sep);
    assert(v@.subrange(0, v@.len() as int) =~= v@);
    let ghost all = split_on(v@, sep);
    let mut r: Vec<(usize, usize)> = Vec::new();
    let mut k: usize = 0;
    while k < pieces.len()
        invariant
            k <= pieces@.len(),
            pieces@.len() == all.len(),
            all == split_on(v@, sep),
            forall|j: int|
                0 <= j < pieces@.len() ==> #[trigger] pieces@[j].0 <= pieces@[j].1 <= v@.len()
                    && v@.subrange(pieces@[j].0 as int, pieces@[j].1 as int) == all[j],
            r@.len() == nonempty_trimmed(all.take(k as int)).len(),
            forall|j: int|
                0 <= j < r@.len() ==> #[trigger] range_holds(
                    v@,
                    r@[j],
                    nonempty_trimmed(all.take(k as int))[j],
                ),
        decreases pieces@.len() - k,
    {
        let (lo, hi) = pieces[k];
        let (a, b) = trim_bounds(v, lo, hi);
        let ghost prev = nonempty_trimmed(all.take(k as int));
        assert(all.take(k + 1).drop_last() =~= all.take(k as int));
        assert(all.take(k + 1).last() == all[k as int]);
        assert(v@.subrange(a as int, b as int) == trim(all[k as int]));
        let ghost old_r = r@;
        if a < b {
            r.push((a, b));
            assert(nonempty_trimmed(all.take(k + 1)) == prev.push(trim(all[k as int])));
            assert forall|j: int| 0 <= j < r@.len() implies #[trigger] range_holds(
                v@,
                r@[j],
                nonempty_trimmed(all.take(k + 1))[j],
            ) by {
                if j < old_r.len() {
                    assert(r@[j] == old_r[j]);
                    assert(range_holds(v@, old_r[j], prev[j]));
                }
            }
        } else {
            assert(nonempty_trimmed(all.take(k + 1)) == prev);
        }
        k = k + 1;
    }
    assert(all.take(k as int) =~= all);
    r
}

/// `v[r.0..r.1]` is the sequence `item`.
pub open spec fn range_holds(v: Seq<char>, r: (usize, usize), item: Seq<char>) -> bool {
    r.0 <= r.1 <= v.len() && v.subrange(r.0 as int, r.1 as int) == item
}

/// First index of `c` in `s`, if any.
pub open spec fn first_index(s: Seq<char>, c: char) -> Option<int> {
    if exists|i: int| 0 <= i < s.len() && s[i] == c {
        Some(
            choose|i: int|
                0 <= i < s.len() && s[i] == c && forall|j: int| 0 <= j < i ==> s[j] != c,
        )
    } else {
        None
    }
}

/// Index of the first `c` in `v[lo..hi]`, relative to the whole vector.
pub fn find_char(v: &Vec<char>, lo: usize, hi: usize, c: char) -> (r: Option<usize>)
    requires
        lo <= hi <= v@.len(),
    ensures
        r matches Some(i) ==> lo <= i < hi && v@[i as int] == c && first_index(
            v@.subrange(lo as int, hi as int),
            c,
        ) == Some(i - lo),
        r is None ==> first_index(v@.subrange(lo as int, hi as int), c) is None,
{
    let ghost s = v@.subrange(lo as int, hi as int);
    let mut i = lo;
    while i < hi
        invariant
            lo <= i <= hi <= v@.len(),
            s == v@.subrange(lo as int, hi as int),
            forall|j: int| 0 <= j < i - lo ==> s[j] != c,
        decreases hi - i,
    {
        if v[i] == c {
            proof {
                let k: int = i - lo;
                assert(s[k] == c);
                assert(exists|i: int| 0 <= i < s.len() && s[i] == c);
                let chosen = choose|i: int|
                    0 <= i < s.len() && s[i] == c && forall|j: int| 0 <= j < i ==> s[j] != c;
                assert(0 <= k < s.len() && s[k] == c && forall|j: int| 0 <= j < k ==> s[j] != c);
                assert(chosen == k) by {
                    if chosen < k {
                        assert(s[chosen] != c);
                    } else if chosen > k {
                        assert(s[k] != c);
                    }
                }
            }
            return Some(i);
        }
        i = i + 1;
    }
    None
}

/// Whether `s` starts with one of the spreadsheet formula characters
/// `=`, `+`, `-` or `@`.
pub open spec fn starts_with_formula_char(s: Seq<char>) -> bool {
    s.len() > 0 && (s[0] == '=' || s[0] == '+' || s[0] == '-' || s[0] == '@')
}


// ---------------------------------------------------------------------------
// Lemmas on splitting and trimming
// ---------------------------------------------------------------------------

/// A string without separator is its own single piece.
pub proof fn lemma_split_no_sep(s: Seq<char>, sep: char)
    requires
        !s.contains(sep),
    ensures
        split_on(s, sep) == seq![s],
    decreases s.len(),
{
    if s.len() > 0 {
        assert(!s.drop_last().contains(sep)) by {
            if s.drop_last().contains(sep) {
                let i = choose|i: int| 0 <= i < s.drop_last().len() && s.drop_last()[i] == sep;
                assert(s[i] == sep);
            }
        }
        lemma_split_no_sep(s.drop_last(), sep);
        assert(s.last() != sep) by {
            if s.last() == sep {
                assert(s[s.len() - 1] == sep);
            }
        }
        assert(s.drop_last().push(s.last()) =~= s);
        assert(seq![s.drop_last()].update(0, s.drop_last().push(s.last())) =~= seq![s]);
    } else {
        assert(s =~= Seq::<char>::empty());
    }
}

/// Appending a separator and a piece without separator appends the piece.
pub proof fn lemma_split_append_piece(a: Seq<char>, b: Seq<char>, sep: char)
    requires
        !b.contains(sep),
    ensures
        split_on(a + seq![sep] + b, sep) == split_on(a, sep).push(b),
    decreases b.len(),
{
    if b.len() == 0 {
        assert((a + seq![sep] + b).drop_last() =~= a);
        assert(b =~= Seq::<char>::empty());
        assert((a + seq![sep] + b).last() == sep);
        assert((a + seq![sep] + b).len() > 0);
    } else {
        let b0 = b.drop_last();
        assert(!b0.contains(sep)) by {
            if b0.contains(sep) {
                let i = choose|i: int| 0 <= i < b0.len() && b0[i] == sep;
                assert(b[i] == sep);
            }
        }
        assert(b.last() != sep) by {
            if b.last() == sep {
                assert(b[b.len() - 1] == sep);
            }
        }
        lemma_split_append_piece(a, b0, sep);
        let s = a + seq![sep] + b;
        assert(s.drop_last() =~= a + seq![sep] + b0);
        assert(s.last() == b.last());
        assert(b0.push(b.last()) =~= b);
        let init = split_on(a, sep).push(b0);
        assert(init.update(init.len() - 1, init.last().push(s.last())) =~= split_on(a, sep).push(
            b,
        ));
    }
}

/// A string whose first and last characters are not whitespace is its
/// own trimmed form.
pub proof fn lemma_trim_noop(s: Seq<char>)
    requires
        s.len() > 0,
        !is_unicode_whitespace(s[0]),
        !is_unicode_whitespace(s.last()),
    ensures
        trim(s) == s,
{
}

/// The trimmed non-empty pieces of pieces already trimmed and non-empty are
/// those pieces.
pub proof fn lemma_nonempty_trimmed_noop(pieces: Seq<Seq<char>>)
    requires
        forall|i: int| 0 <= i < pieces.len() ==> #[trigger] trim(pieces[i]) == pieces[i] && pieces[i].len() > 0,
    ensures
        nonempty_trimmed(pieces) == pieces,
    decreases pieces.len(),
{
    if pieces.len() > 0 {
        let init = pieces.drop_last();
        assert forall|i: int| 0 <= i < init.len() implies #[trigger] trim(init[i]) == init[i] && init[i].len() > 0 by {
            assert(init[i] == pieces[i]);
        }
        lemma_nonempty_trimmed_noop(init);
        assert(trim(pieces.last()) == pieces[pieces.len() - 1]);
        assert(init.push(pieces.last()) =~= pieces);
    }
}

pub proof fn lemma_digit_char_not_special(d: nat)
    requires
        d < 36,
    ensures
        !is_unicode_whitespace(digit_char(d)),
        digit_char(d) != ':',
        digit_char(d) != '|',
        digit_char(d) != '+',
{
}

/// Characters of `hex_fixed` are digit characters.
pub proof fn lemma_hex_fixed_chars(v: nat, n: nat)
    ensures
        forall|i: int|
            0 <= i < hex_fixed(v, n).len() ==> exists|d: nat| d < 16 && #[trigger] hex_fixed(
                v,
                n,
            )[i] == digit_char(d),
        hex_fixed(v, n).len() == n,
    decreases n,
{
    if n > 0 {
        lemma_hex_fixed_chars(v / 16, (n - 1) as nat);
        let h = hex_fixed(v, n);
        let p = hex_fixed(v / 16, (n - 1) as nat);
        assert forall|i: int| 0 <= i < h.len() implies exists|d: nat| d < 16 && #[trigger] h[i]
            == digit_char(d) by {
            if i < p.len() {
                assert(h[i] == p[i]);
            } else {
                assert(h[i] == digit_char(v % 16));
            }
        }
    }
}

/// Characters of `dec_digits` are digit characters.
pub proof fn lemma_dec_digits_chars(v: nat)
    ensures
        forall|i: int|
            0 <= i < dec_digits(v).len() ==> exists|d: nat| d < 10 && #[trigger] dec_digits(v)[i]
                == digit_char(d),
        dec_digits(v).len() >= 1,
    decreases v,
{
    if v >= 10 {
        lemma_dec_digits_chars(v / 10);
        let h = dec_digits(v);
        let p = dec_digits(v / 10);
        assert forall|i: int| 0 <= i < h.len() implies exists|d: nat| d < 10 && #[trigger] h[i]
            == digit_char(d) by {
            if i < p.len() {
                assert(h[i] == p[i]);
            } else {
                assert(h[i] == digit_char(v % 10));
            }
        }
    } else {
        let h = dec_digits(v);
        assert forall|i: int| 0 <= i < h.len() implies exists|d: nat| d < 10 && #[trigger] h[i]
            == digit_char(d) by {
            assert(h[i] == digit_char(v));
        }
    }
}


pub proof fn lemma_first_index_is(s: Seq<char>, c: char, k: int)
    requires
        0 <= k < s.len(),
        s[k] == c,
        forall|j: int| 0 <= j < k ==> s[j] != c,
    ensures
        first_index(s, c) == Some(k),
{
    assert(exists|i: int| 0 <= i < s.len() && s[i] == c);
    let chosen = choose|i: int|
        0 <= i < s.len() && s[i] == c && forall|j: int| 0 <= j < i ==> s[j] != c;
    assert(0 <= k < s.len() && s[k] == c && forall|j: int| 0 <= j < k ==> s[j] != c);
    assert(chosen == k) by {
        if chosen < k {
            assert(s[chosen] != c);
        } else if chosen > k {
            assert(s[k] != c);
        }
    }
}

pub proof fn lemma_first_index_none(s: Seq<char>, c: char)
    requires
        forall|j: int| 0 <= j < s.len() ==> s[j] != c,
    ensures
        first_index(s, c) is None,
{
}

/// A fixed-width hexadecimal text parses back to its value.
pub proof fn lemma_parse_hex_fixed(v: u64)
    ensures
        parse_unsigned(hex_fixed(v as nat, 16), 16, u64::MAX as nat) == Some(v as nat),
{
    lemma_pow16_16();
    lemma_hex_fixed_value(v as nat, 16);
    lemma_hex_fixed_chars(v as nat, 16);
    let h = hex_fixed(v as nat, 16);
    let d = choose|d: nat| d < 16 && #[trigger] h[0] == digit_char(d);
    lemma_digit_char_not_special(d);
}

/// A decimal text parses back to its value.
pub proof fn lemma_parse_dec(v: u64)
    ensures
        parse_unsigned(dec_digits(v as nat), 10, u64::MAX as nat) == Some(v as nat),
{
    lemma_dec_digits_value(v as nat);
    lemma_dec_digits_chars(v as nat);
    let h = dec_digits(v as nat);
    let d = choose|d: nat| d < 10 && #[trigger] h[0] == digit_char(d);
    lemma_digit_char_not_special(d);
}


/// `a` followed by `b`.
pub fn concat2(a: &str, b: &str) -> (r: String)
    ensures
        r@ == a@ + b@,
{
    let mut r = a.to_owned();
    r.append(b);
    r
}

/// `a`, `b` and `c` end to end.
pub fn concat3(a: &str, b: &str, c: &str) -> (r: String)
    ensures
        r@ == a@ + b@ + c@,
{
    let mut r = a.to_owned();
    r.append(b);
    r.append(c);
    r
}

} // verus!
