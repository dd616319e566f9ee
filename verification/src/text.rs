//! Text helpers: trimming, unsigned-number parsing and number formatting.

use vstd::arithmetic::power::pow;
use vstd::prelude::*;

verus! {

/// Unicode `White_Space`.
pub open spec fn is_space(c: char) -> bool {
    let u = c as u32;
    ||| 0x9 <= u <= 0xd
    ||| u == 0x20
    ||| u == 0x85
    ||| u == 0xa0
    ||| u == 0x1680
    ||| 0x2000 <= u <= 0x200a
    ||| u == 0x2028
    ||| u == 0x2029
    ||| u == 0x202f
    ||| u == 0x205f
    ||| u == 0x3000
}

/// `s` without its leading white space.
pub open spec fn trim_start(s: Seq<char>) -> Seq<char>
    decreases s.len(),
{
    if s.len() > 0 && is_space(s[0]) {
        trim_start(s.drop_first())
    } else {
        s
    }
}

/// `s` without its trailing white space.
pub open spec fn trim_end(s: Seq<char>) -> Seq<char>
    decreases s.len(),
{
    if s.len() > 0 && is_space(s.last()) {
        trim_end(s.drop_last())
    } else {
        s
    }
}

/// `s` without leading and trailing white space.
pub open spec fn trim(s: Seq<char>) -> Seq<char> {
    trim_end(trim_start(s))
}

pub open spec fn is_digit(c: char) -> bool {
    '0' <= c && c <= '9'
}

pub open spec fn digit_value(c: char) -> int {
    c as int - '0' as int
}

/// The number a run of decimal digits stands for.
pub open spec fn digits_value(s: Seq<char>) -> int
    decreases s.len(),
{
    if s.len() == 0 {
        0
    } else {
        digits_value(s.drop_last()) * 10 + digit_value(s.last())
    }
}

/// Digits with an optional leading plus sign.
pub open spec fn unsigned_digits(s: Seq<char>) -> Seq<char> {
    if s.len() > 0 && s[0] == '+' {
        s.drop_first()
    } else {
        s
    }
}

/// The unsigned number written in `s`, if `s` is an optional plus sign
/// followed by at least one decimal digit and the number is at most `max`.
pub open spec fn parse_unsigned(s: Seq<char>, max: int) -> Option<int> {
    let d = unsigned_digits(s);
    if d.len() > 0 && (forall|i: int| 0 <= i < d.len() ==> is_digit(#[trigger] d[i]))
        && digits_value(d) <= max {
        Some(digits_value(d))
    } else {
        None
    }
}

/// The decimal digit `d`.
pub open spec fn digit_char(d: int) -> char {
    if d == 0 {
        '0'
    } else if d == 1 {
        '1'
    } else if d == 2 {
        '2'
    } else if d == 3 {
        '3'
    } else if d == 4 {
        '4'
    } else if d == 5 {
        '5'
    } else if d == 6 {
        '6'
    } else if d == 7 {
        '7'
    } else if d == 8 {
        '8'
    } else {
        '9'
    }
}

/// The lower-case hexadecimal digit `d`.
pub open spec fn hex_char(d: int) -> char {
    if d < 10 {
        digit_char(d)
    } else if d == 10 {
        'a'
    } else if d == 11 {
        'b'
    } else if d == 12 {
        'c'
    } else if d == 13 {
        'd'
    } else if d == 14 {
        'e'
    } else {
        'f'
    }
}

/// `n` in decimal, without leading zeros.
pub open spec fn decimal(n: nat) -> Seq<char>
    decreases n,
{
    if n < 10 {
        seq![digit_char(n as int)]
    } else {
        decimal(n / 10).push(digit_char((n % 10) as int))
    }
}

/// The last `width` hexadecimal digits of `n`, zero-padded.
pub open spec fn hex(n: nat, width: nat) -> Seq<char>
    decreases width,
{
    if width == 0 {
        Seq::empty()
    } else {
        hex(n / 16, (width - 1) as nat).push(hex_char((n % 16) as int))
    }
}

/// Whether `s` begins with `prefix`.
pub open spec fn starts_with(s: Seq<char>, prefix: Seq<char>) -> bool {
    prefix.len() <= s.len() && s.take(prefix.len() as int) == prefix
}

/// Whether `s` ends with `suffix`.
pub open spec fn ends_with(s: Seq<char>, suffix: Seq<char>) -> bool {
    suffix.len() <= s.len() && s.skip(s.len() - suffix.len()) == suffix
}

/// The characters of `s`.
pub fn chars_of(s: &str) -> (v: Vec<char>)
    ensures
        v@ == s@,
{
    let mut v: Vec<char> = Vec::new();
    for c in it: s.chars()
        invariant
            v@ == it.seq().take(it.index() as int),
    {
        v.push(c);
    }
    v
}

/// Whether two strings hold the same characters.
pub fn same_text(a: &str, b: &str) -> (r: bool)
    ensures
        r == (a@ == b@),
{
    let x = chars_of(a);
    let y = chars_of(b);
    if x.len() != y.len() {
        return false;
    }
    let mut i: usize = 0;
    while i < x.len()
        invariant
            i <= x.len(),
            x.len() == y.len(),
            x@ == a@,
            y@ == b@,
            forall|j: int| 0 <= j < i ==> x[j] == y[j],
        decreases x.len() - i,
    {
        if x[i] != y[i] {
            return false;
        }
        i += 1;
    }
    assert(a@ =~= b@);
    true
}

/// Whether `s[lo..hi]` begins with `prefix`.
pub fn starts_with_at(s: &Vec<char>, lo: usize, hi: usize, prefix: &str) -> (r: bool)
    requires
        lo <= hi <= s.len(),
    ensures
        r == starts_with(s@.subrange(lo as int, hi as int), prefix@),
{
    let p = chars_of(prefix);
    let ghost t = s@.subrange(lo as int, hi as int);
    if p.len() > hi - lo {
        return false;
    }
    let mut i: usize = 0;
    while i < p.len()
        invariant
            i <= p.len(),
            p@ == prefix@,
            p.len() <= hi - lo,
            lo <= hi <= s.len(),
            t == s@.subrange(lo as int, hi as int),
            forall|j: int| 0 <= j < i ==> t[j] == p[j],
        decreases p.len() - i,
    {
        if s[lo + i] != p[i] {
            assert(t.take(p.len() as int)[i as int] != p[i as int]);
            return false;
        }
        i += 1;
    }
    assert(t.take(p.len() as int) =~= p@);
    true
}

/// Whether `c` is white space.
pub fn is_space_char(c: char) -> (r: bool)
    ensures
        r == is_space(c),
{
    let u: u32 = c as u32;
    (0x9 <= u && u <= 0xd) || u == 0x20 || u == 0x85 || u == 0xa0 || u == 0x1680 || (0x2000 <= u
        && u <= 0x200a) || u == 0x2028 || u == 0x2029 || u == 0x202f || u == 0x205f || u == 0x3000
}

/// The bounds of `s[lo..hi]` without leading and trailing white space.
pub fn trim_bounds(s: &Vec<char>, lo: usize, hi: usize) -> (r: (usize, usize))
    requires
        lo <= hi <= s.len(),
    ensures
        lo <= r.0 <= r.1 <= hi,
        s@.subrange(r.0 as int, r.1 as int) == trim(s@.subrange(lo as int, hi as int)),
{
    let mut a: usize = lo;
    while a < hi && is_space_char(s[a])
        invariant
            lo <= a <= hi <= s.len(),
            trim_start(s@.subrange(a as int, hi as int)) == trim_start(
                s@.subrange(lo as int, hi as int),
            ),
        decreases hi - a,
    {
        assert(s@.subrange(a as int, hi as int).drop_first() =~= s@.subrange(a + 1, hi as int));
        a += 1;
    }
    let ghost t = s@.subrange(a as int, hi as int);
    assert(trim_start(t) == t);
    let mut b: usize = hi;
    while b > a && is_space_char(s[b - 1])
        invariant
            lo <= a <= b <= hi <= s.len(),
            trim_end(s@.subrange(a as int, b as int)) == trim_end(t),
        decreases b - a,
    {
        assert(s@.subrange(a as int, b as int).drop_last() =~= s@.subrange(a as int, b - 1));
        assert(s@.subrange(a as int, b as int).last() == s@[b - 1]);
        b -= 1;
    }
    proof {
        let u = s@.subrange(a as int, b as int);
        assert(u.len() > 0 ==> u.last() == s@[b - 1]);
        assert(trim_end(u) == u);
    }
    (a, b)
}

proof fn lemma_digits_value_prefix(s: Seq<char>, n: int)
    requires
        0 <= n <= s.len(),
        forall|i: int| 0 <= i < s.len() ==> is_digit(#[trigger] s[i]),
    ensures
        0 <= digits_value(s.take(n)) <= digits_value(s),
    decreases s.len(), n,
{
    if n == s.len() {
        assert(s.take(n) =~= s);
        if n > 0 {
            lemma_digits_value_prefix(s.drop_last(), n - 1);
            assert(s.drop_last().take(n - 1) =~= s.drop_last());
            assert(is_digit(s[n - 1]));
        }
    } else {
        lemma_digits_value_prefix(s.drop_last(), n);
        assert(s.drop_last().take(n) =~= s.take(n));
        assert(is_digit(s[s.len() - 1]));
    }
}

/// Parse `s[lo..hi]` as an unsigned number of at most `max`.
pub fn parse_unsigned_at(s: &Vec<char>, lo: usize, hi: usize, max: u64) -> (r: Option<u64>)
    requires
        lo <= hi <= s.len(),
    ensures
        r is Some == parse_unsigned(s@.subrange(lo as int, hi as int), max as int) is Some,
        r matches Some(v) ==> parse_unsigned(s@.subrange(lo as int, hi as int), max as int) == Some(
            v as int,
        ),
{
    let ghost t = s@.subrange(lo as int, hi as int);
    let a: usize = if lo < hi && s[lo] == '+' {
        lo + 1
    } else {
        lo
    };
    let ghost d = unsigned_digits(t);
    assert(d =~= s@.subrange(a as int, hi as int));
    if a == hi {
        return None;
    }
    let mut acc: u64 = 0;
    let mut i: usize = a;
    while i < hi
        invariant
            lo <= a <= i <= hi <= s.len(),
            d == s@.subrange(a as int, hi as int),
            d == unsigned_digits(t),
            t == s@.subrange(lo as int, hi as int),
            forall|j: int| 0 <= j < i - a ==> is_digit(#[trigger] d[j]),
            acc == digits_value(d.take(i - a)),
            acc <= max,
        decreases hi - i,
    {
        let c = s[i];
        if c < '0' || '9' < c {
            assert(!is_digit(d[i - a]));
            return None;
        }
        let v: u64 = (c as u32 - '0' as u32) as u64;
        assert(d.take(i - a + 1).drop_last() =~= d.take(i - a));
        assert(d.take(i - a + 1).last() == c);
        assert(digits_value(d.take(i - a + 1)) == acc * 10 + v);
        if acc > max / 10 || v > max - acc * 10 {
            proof {
                assert(acc * 10 + v > max);
                if forall|j: int| 0 <= j < d.len() ==> is_digit(#[trigger] d[j]) {
                    lemma_digits_value_prefix(d, i - a + 1);
                }
            }
            return None;
        }
        acc = acc * 10 + v;
        i += 1;
    }
    assert(d.take(hi - a) =~= d);
    Some(acc)
}

/// Parse `text`, white space around it aside, as an unsigned 64-bit number.
pub fn parse_u64(text: &str) -> (r: Option<u64>)
    ensures
        r is Some == parse_unsigned(trim(text@), u64::MAX as int) is Some,
        r matches Some(v) ==> parse_unsigned(trim(text@), u64::MAX as int) == Some(v as int),
{
    let s = chars_of(text);
    let n = s.len();
    assert(s@.subrange(0, n as int) =~= text@);
    let (a, b) = trim_bounds(&s, 0, n);
    parse_unsigned_at(&s, a, b, u64::MAX)
}

/// The decimal digit `d` as a string.
fn digit_str(d: u8) -> (r: &'static str)
    requires
        d < 10,
    ensures
        r@ == seq![digit_char(d as int)],
{
    proof {
        reveal_strlit("0");
        reveal_strlit("1");
        reveal_strlit("2");
        reveal_strlit("3");
        reveal_strlit("4");
        reveal_strlit("5");
        reveal_strlit("6");
        reveal_strlit("7");
        reveal_strlit("8");
        reveal_strlit("9");
    }
    let r = match d {
        0 => "0",
        1 => "1",
        2 => "2",
        3 => "3",
        4 => "4",
        5 => "5",
        6 => "6",
        7 => "7",
        8 => "8",
        _ => "9",
    };
    assert(r@ =~= seq![digit_char(d as int)]);
    r
}

/// The hexadecimal digit `d` as a string.
fn hex_str(d: u8) -> (r: &'static str)
    requires
        d < 16,
    ensures
        r@ == seq![hex_char(d as int)],
{
    if d < 10 {
        return digit_str(d);
    }
    proof {
        reveal_strlit("a");
        reveal_strlit("b");
        reveal_strlit("c");
        reveal_strlit("d");
        reveal_strlit("e");
        reveal_strlit("f");
    }
    let r = match d {
        10 => "a",
        11 => "b",
        12 => "c",
        13 => "d",
        14 => "e",
        _ => "f",
    };
    assert(r@ =~= seq![hex_char(d as int)]);
    r
}

/// Append `n` in decimal.
pub fn push_decimal(out: &mut String, n: u128)
    ensures
        final(out)@ == old(out)@ + decimal(n as nat),
    decreases n,
{
    if n >= 10 {
        push_decimal(out, n / 10);
    }
    out.append(digit_str((n % 10) as u8));
    assert(out@ =~= old(out)@ + decimal(n as nat));
}

/// Append the last `width` hexadecimal digits of `n`.
pub fn push_hex(out: &mut String, n: u64, width: u32)
    ensures
        final(out)@ == old(out)@ + hex(n as nat, width as nat),
    decreases width,
{
    if width > 0 {
        push_hex(out, n / 16, width - 1);
        out.append(hex_str((n % 16) as u8));
    }
    assert(out@ =~= old(out)@ + hex(n as nat, width as nat));
}

/// `decimal(n)` has at most `k` digits when `n` is below the `k`-th power of ten.
pub proof fn lemma_decimal_len(n: nat, k: nat)
    requires
        k > 0,
        n < vstd::arithmetic::power::pow(10, k),
    ensures
        1 <= decimal(n).len() <= k,
    decreases k,
{
    reveal(vstd::arithmetic::power::pow);
    if n >= 10 {
        if k == 1 {
            assert(vstd::arithmetic::power::pow(10, 1) == 10 * vstd::arithmetic::power::pow(10, 0));
        } else {
            assert(n / 10 < vstd::arithmetic::power::pow(10, (k - 1) as nat)) by (nonlinear_arith)
                requires
                    n < vstd::arithmetic::power::pow(10, k),
                    vstd::arithmetic::power::pow(10, k) == 10 * vstd::arithmetic::power::pow(
                        10,
                        (k - 1) as nat,
                    ),
            ;
            lemma_decimal_len(n / 10, (k - 1) as nat);
        }
    }
}

/// Reading the decimal text of a number back gives the number.
pub proof fn lemma_decimal_round_trip(n: nat)
    ensures
        parse_unsigned(decimal(n), n as int) == Some(n as int),
    decreases n,
{
    lemma_decimal_digits(n);
    let d = decimal(n);
    assert(is_digit(d[0]));
    assert(unsigned_digits(d) == d);
}

proof fn lemma_decimal_digits(n: nat)
    ensures
        decimal(n).len() > 0,
        forall|i: int| 0 <= i < decimal(n).len() ==> is_digit(#[trigger] decimal(n)[i]),
        digits_value(decimal(n)) == n,
    decreases n,
{
    let d = decimal(n);
    if n < 10 {
        assert(d.drop_last() =~= Seq::<char>::empty());
        assert(digits_value(d.drop_last()) == 0);
    } else {
        lemma_decimal_digits(n / 10);
        assert(d.drop_last() =~= decimal(n / 10));
    }
}

// ── Laws of text ────────────────────────────────────────────────────────

/// White space is given by code points.
pub proof fn lemma_white_space_by_code_point(c: char)
    ensures
        is_space(c) <==> {
            ||| c as int == 9 || c as int == 10 || c as int == 11 || c as int == 12 || c as int == 13
            ||| c as int == 32 || c as int == 133 || c as int == 160 || c as int == 5760
            ||| 8192 <= c as int <= 8202
            ||| c as int == 8232 || c as int == 8233 || c as int == 8239 || c as int == 8287
            ||| c as int == 12288
        },
{
}

proof fn lemma_trim_start_split(s: Seq<char>) -> (a: int)
    ensures
        0 <= a <= s.len(),
        trim_start(s) == s.skip(a),
        forall|i: int| 0 <= i < a ==> is_space(#[trigger] s[i]),
        a < s.len() ==> !is_space(s[a]),
    decreases s.len(),
{
    if s.len() > 0 && is_space(s[0]) {
        let rest = s.drop_first();
        let a = lemma_trim_start_split(rest);
        assert(rest.skip(a) =~= s.skip(a + 1));
        assert forall|i: int| 0 <= i < a + 1 implies is_space(#[trigger] s[i]) by {
            if i > 0 {
                assert(s[i] == rest[i - 1]);
            }
        }
        if a < rest.len() {
            assert(s[a + 1] == rest[a]);
        }
        a + 1
    } else {
        assert(s.skip(0) =~= s);
        0
    }
}

proof fn lemma_trim_end_split(s: Seq<char>) -> (b: int)
    ensures
        0 <= b <= s.len(),
        trim_end(s) == s.take(b),
        forall|i: int| b <= i < s.len() ==> is_space(#[trigger] s[i]),
        b > 0 ==> !is_space(s[b - 1]),
    decreases s.len(),
{
    if s.len() > 0 && is_space(s.last()) {
        let rest = s.drop_last();
        let b = lemma_trim_end_split(rest);
        assert(rest.take(b) =~= s.take(b));
        assert forall|i: int| b <= i < s.len() implies is_space(#[trigger] s[i]) by {
            if i < rest.len() {
                assert(s[i] == rest[i]);
            }
        }
        if b > 0 {
            assert(s[b - 1] == rest[b - 1]);
        }
        b
    } else {
        assert(s.take(s.len() as int) =~= s);
        s.len() as int
    }
}

/// Trimming keeps the middle of a text: what it cuts off on either side is
/// white space, and what it keeps neither starts nor ends with any. The middle
/// is returned by its bounds.
pub proof fn lemma_trim_keeps_the_middle(s: Seq<char>) -> (r: (int, int))
    ensures
        0 <= r.0 <= r.1 <= s.len(),
        trim(s) == s.subrange(r.0, r.1),
        forall|i: int| 0 <= i < r.0 || r.1 <= i < s.len() ==> is_space(#[trigger] s[i]),
        r.0 < r.1 ==> !is_space(s[r.0]) && !is_space(s[r.1 - 1]),
{
    let a = lemma_trim_start_split(s);
    let t = s.skip(a);
    let b = lemma_trim_end_split(t);
    assert(t.take(b) =~= s.subrange(a, a + b));
    assert forall|i: int| 0 <= i < a || a + b <= i < s.len() implies is_space(#[trigger] s[i]) by {
        if i >= a {
            assert(s[i] == t[i - a]);
        }
    }
    if b > 0 {
        assert(s[a + b - 1] == t[b - 1]);
    }
    (a, a + b)
}

/// A text without white space around it is what trimming gives back, whatever
/// white space is put around it.
pub proof fn lemma_trim_removes_padding(before: Seq<char>, s: Seq<char>, after: Seq<char>)
    requires
        forall|i: int| 0 <= i < before.len() ==> is_space(#[trigger] before[i]),
        forall|i: int| 0 <= i < after.len() ==> is_space(#[trigger] after[i]),
        s.len() > 0,
        !is_space(s[0]),
        !is_space(s.last()),
    ensures
        trim(before + s + after) == s,
{
    let t = before + s + after;
    let (a, b) = lemma_trim_keeps_the_middle(t);
    let lo = before.len() as int;
    let hi = (before.len() + s.len()) as int;
    assert(t[lo] == s[0] && t[hi - 1] == s.last());
    assert(!(lo < a) && !(lo >= b)) by {
        if lo < a || lo >= b {
            assert(is_space(t[lo]));
        }
    }
    assert(!(hi - 1 >= b)) by {
        if hi - 1 >= b {
            assert(is_space(t[hi - 1]));
        }
    }
    if a < lo {
        assert(t[a] == before[a]);
    }
    if hi < b {
        assert(t[b - 1] == after[b - 1 - hi]);
    }
    assert(t.subrange(lo, hi) =~= s);
}

/// A text begins with a prefix exactly if it is at least as long and agrees
/// with it, character by character; likewise at its end.
pub proof fn lemma_prefix_and_suffix(s: Seq<char>, part: Seq<char>)
    ensures
        starts_with(s, part) <==> part.len() <= s.len() && (forall|i: int|
            0 <= i < part.len() ==> s[i] == #[trigger] part[i]),
        ends_with(s, part) <==> part.len() <= s.len() && (forall|i: int|
            0 <= i < part.len() ==> s[s.len() - part.len() + i] == #[trigger] part[i]),
{
    if part.len() <= s.len() {
        let head = s.take(part.len() as int);
        let tail = s.skip(s.len() - part.len());
        if forall|i: int| 0 <= i < part.len() ==> s[i] == #[trigger] part[i] {
            assert(head =~= part);
        }
        if starts_with(s, part) {
            assert forall|i: int| 0 <= i < part.len() implies s[i] == #[trigger] part[i] by {
                assert(head[i] == part[i]);
            }
        }
        if forall|i: int|
            0 <= i < part.len() ==> s[s.len() - part.len() + i] == #[trigger] part[i] {
            assert(tail =~= part);
        }
        if ends_with(s, part) {
            assert forall|i: int| 0 <= i < part.len() implies s[s.len() - part.len() + i]
                == #[trigger] part[i] by {
                assert(tail[i] == part[i]);
            }
        }
    }
}

/// Each place of a decimal text holds the digit of its power of ten, and there
/// are as many places as the number needs: one for zero, no leading zero else.
pub proof fn lemma_decimal_places(n: nat, k: nat)
    requires
        k < decimal(n).len(),
    ensures
        decimal(n)[decimal(n).len() - 1 - k] as int == 48 + (n as int / pow(10, k)) % 10,
        n < pow(10, decimal(n).len()),
        decimal(n).len() > 1 ==> pow(10, (decimal(n).len() - 1) as nat) <= n,
    decreases n,
{
    reveal(pow);
    let d = decimal(n);
    assert(pow(10, 0) == 1);
    if n < 10 {
        assert(pow(10, 1) == 10 * pow(10, 0));
        assert(n as int / 1 == n);
    } else {
        let m = n / 10;
        let e = decimal(m);
        assert(d.len() == e.len() + 1);
        lemma_decimal_digits(m);
        if k == 0 {
            assert(n as int / 1 == n);
            lemma_decimal_places(m, 0);
        } else {
            let j = (k - 1) as nat;
            lemma_decimal_places(m, j);
            assert(d[d.len() - 1 - k] == e[e.len() - 1 - j]);
            vstd::arithmetic::power::lemma_pow_positive(10, j);
            vstd::arithmetic::div_mod::lemma_div_denominator(n as int, 10, pow(10, j));
        }
        assert(pow(10, d.len()) == 10 * pow(10, e.len()));
        assert(n < 10 * (m + 1));
        if e.len() > 1 {
            assert(pow(10, (d.len() - 1) as nat) == 10 * pow(10, (e.len() - 1) as nat));
        } else {
            assert(pow(10, 1) == 10 * pow(10, 0));
        }
    }
}

/// A hexadecimal text has exactly the asked number of places, and each holds the
/// lower-case digit of its power of sixteen.
pub proof fn lemma_hex_places(n: nat, width: nat, k: nat)
    requires
        k < width,
    ensures
        hex(n, width).len() == width,
        hex(n, width)[width - 1 - k] as int == ({
            let d = (n as int / pow(16, k)) % 16;
            if d < 10 {
                48 + d
            } else {
                87 + d
            }
        }),
    decreases width,
{
    reveal(pow);
    let rest = (width - 1) as nat;
    lemma_hex_len(n / 16, rest);
    assert(pow(16, 0) == 1);
    assert(n as int / 1 == n);
    if k > 0 {
        let j = (k - 1) as nat;
        lemma_hex_places(n / 16, rest, j);
        vstd::arithmetic::power::lemma_pow_positive(16, j);
        vstd::arithmetic::div_mod::lemma_div_denominator(n as int, 16, pow(16, j));
    }
}

proof fn lemma_hex_len(n: nat, width: nat)
    ensures
        hex(n, width).len() == width,
    decreases width,
{
    if width > 0 {
        lemma_hex_len(n / 16, (width - 1) as nat);
    }
}

/// What a text must look like to be a number: digits only, behind at most one
/// plus sign; one more digit multiplies by ten and adds; a number beyond the
/// limit is no number.
pub proof fn lemma_parse_unsigned_digit_by_digit(s: Seq<char>, c: char, max: int)
    requires
        s.len() > 0,
        s.len() == 1 ==> s[0] != '+',
    ensures
        parse_unsigned(s.push(c), max) == match parse_unsigned(s, max) {
            Some(v) => if 48 <= c as int <= 57 && 10 * v + (c as int - 48) <= max {
                Some(10 * v + (c as int - 48))
            } else {
                None
            },
            None => None,
        },
{
    let t = s.push(c);
    let d = unsigned_digits(s);
    let e = unsigned_digits(t);
    assert(e =~= d.push(c));
    assert(e.drop_last() =~= d);
    assert(e.last() == c);
    if forall|i: int| 0 <= i < e.len() ==> is_digit(#[trigger] e[i]) {
        assert forall|i: int| 0 <= i < d.len() implies is_digit(#[trigger] d[i]) by {
            assert(d[i] == e[i]);
        }
        assert(is_digit(e[d.len() as int]));
        lemma_digits_value_prefix(e, d.len() as int);
        assert(e.take(d.len() as int) =~= d);
    } else if parse_unsigned(s, max) is Some && is_digit(c) {
        assert forall|i: int| 0 <= i < e.len() implies is_digit(#[trigger] e[i]) by {
            if i < d.len() {
                assert(e[i] == d[i]);
            }
        }
    }
}

/// The shortest numbers: one digit, and a plus sign before it changes nothing;
/// no digit is no number.
pub proof fn lemma_parse_unsigned_one_digit(c: char, max: int)
    ensures
        parse_unsigned(seq![c], max) == if 48 <= c as int <= 57 && c as int - 48 <= max {
            Some(c as int - 48)
        } else {
            None
        },
        parse_unsigned(seq!['+', c], max) == parse_unsigned(seq![c], max) || c == '+',
        parse_unsigned(seq!['+', '+'], max) is None,
        parse_unsigned(Seq::empty(), max) is None,
{
    let one = seq![c];
    assert(one.drop_last() =~= Seq::<char>::empty());
    assert(digits_value(one.drop_last()) == 0);
    assert(one.last() == c);
    assert(seq!['+', c].drop_first() =~= one);
    assert(seq!['+', '+'].drop_first()[0] == '+');
    if c == '+' {
        assert(one.drop_first() =~= Seq::<char>::empty());
    } else {
        assert(unsigned_digits(one) == one);
        assert(is_digit(one[0]) == is_digit(c));
    }
}

} // verus!
