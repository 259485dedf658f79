//! Numbers as text: decimal ports and fixed-width hexadecimal hashes.
use vstd::prelude::*;
use crate::text::{chars_of, string_of, trim_range, trim_spec};
use vstd::arithmetic::power::pow;

verus! {

/// The character of a digit value below 16 (`0`-`9`, then `a`-`f`).
pub open spec fn digit_char(d: int) -> char {
    if d < 10 {
        (48 + d) as char
    } else {
        (87 + d) as char
    }
}

/// `u16::to_string`: the decimal digits of `x`, without leading zeros.
pub open spec fn dec_digits(x: nat) -> Seq<char>
    decreases x,
{
    if x < 10 {
        seq![digit_char(x as int)]
    } else {
        dec_digits(x / 10).push(digit_char((x % 10) as int))
    }
}

/// An ASCII decimal digit.
pub open spec fn is_digit(c: char) -> bool {
    '0' <= c && c <= '9'
}

/// The value of a text of decimal digits.
pub open spec fn digits_value(s: Seq<char>) -> nat
    decreases s.len(),
{
    if s.len() == 0 {
        0
    } else {
        digits_value(s.drop_last()) * 10 + ((s.last() as int - 48) as nat)
    }
}

/// `u16::from_str`: an optional `+`, then one or more decimal digits whose
/// value fits in 16 bits.
pub open spec fn parse_u16_spec(s: Seq<char>) -> Option<u16> {
    let d = if s.len() > 0 && s[0] == '+' {
        s.drop_first()
    } else {
        s
    };
    if d.len() > 0 {
        digits_u16(d)
    } else {
        None
    }
}

/// The value of a text of decimal digits, if it is one and the value fits in 16 bits.
pub open spec fn digits_u16(d: Seq<char>) -> Option<u16> {
    if (forall|k: int| 0 <= k < d.len() ==> is_digit(#[trigger] d[k])) && digits_value(d) <= 65535 {
        Some(digits_value(d) as u16)
    } else {
        None
    }
}

/// A recorded port: the text, trimmed, read as a `u16`.
pub open spec fn parse_port_spec(s: Seq<char>) -> Option<u16> {
    parse_u16_spec(trim_spec(s))
}

/// The `n` lowest hexadecimal digits of `x`, most significant first, in lower case.
pub open spec fn hex_digits(x: nat, n: nat) -> Seq<char>
    decreases n,
{
    if n == 0 {
        Seq::empty()
    } else {
        hex_digits(x / 16, (n - 1) as nat).push(digit_char((x % 16) as int))
    }
}

/// The character of the digit value `d`.
fn digit_of(d: u64) -> (c: char)
    requires
        d < 16,
    ensures
        c == digit_char(d as int),
{
    if d < 10 {
        ((48 + d) as u8) as char
    } else {
        ((87 + d) as u8) as char
    }
}

/// The decimal text of a port (`u16::to_string`).
pub fn port_text(port: u16) -> (r: String)
    ensures
        r@ == dec_digits(port as nat),
{
    let mut x: u64 = port as u64;
    let mut out: Vec<char> = Vec::new();
    loop
        invariant_except_break
            dec_digits(port as nat) == dec_digits(x as nat) + out@,
        ensures
            dec_digits(port as nat) == out@,
        decreases x,
    {
        let ghost old_out = out@;
        let d = digit_of(x % 10);
        out.insert(0, d);
        assert(out@ == seq![digit_char((x % 10) as int)] + old_out);
        if x < 10 {
            assert(dec_digits(x as nat) == seq![digit_char(x as int)]);
            break;
        }
        assert(dec_digits(x as nat) == dec_digits((x / 10) as nat).push(digit_char((x % 10) as int)));
        assert(dec_digits((x / 10) as nat).push(digit_char((x % 10) as int)) + old_out == dec_digits(
            (x / 10) as nat,
        ) + (seq![digit_char((x % 10) as int)] + old_out));
        x = x / 10;
    }
    string_of(&out)
}

proof fn lemma_digits_value_mono(s: Seq<char>, k: int)
    requires
        0 <= k <= s.len(),
        forall|t: int| 0 <= t < s.len() ==> is_digit(#[trigger] s[t]),
    ensures
        digits_value(s.take(k)) <= digits_value(s),
    decreases s.len() - k,
{
    if k < s.len() {
        lemma_digits_value_mono(s, k + 1);
        assert(s.take(k + 1).drop_last() == s.take(k));
        assert(is_digit(s.take(k + 1).last()));
    } else {
        assert(s.take(k) == s);
    }
}

/// The value of the digits `v[a..b]`, if they are all digits and the value fits in 16 bits.
fn parse_digits(v: &Vec<char>, a: usize, b: usize) -> (r: Option<u16>)
    requires
        a <= b <= v@.len(),
    ensures
        r == digits_u16(v@.subrange(a as int, b as int)),
{
    let ghost d = v@.subrange(a as int, b as int);
    let mut value: u64 = 0;
    let mut i = a;
    while i < b
        invariant
            a <= i <= b <= v@.len(),
            d == v@.subrange(a as int, b as int),
            forall|k: int| 0 <= k < i - a ==> is_digit(#[trigger] d[k]),
            value == digits_value(d.take(i - a)),
            value <= 65535,
        decreases b - i,
    {
        let c = v[i];
        if !('0' <= c && c <= '9') {
            assert(!is_digit(d[i - a]));
            return None;
        }
        assert(d.take(i - a + 1).drop_last() == d.take(i - a));
        assert(d.take(i - a + 1).last() == c);
        value = value * 10 + (c as u64 - 48);
        if value > 65535 {
            proof {
                assert forall|k: int| 0 <= k < i - a + 1 implies is_digit(#[trigger] d[k]) by {}
                if forall|k: int| 0 <= k < d.len() ==> is_digit(#[trigger] d[k]) {
                    lemma_digits_value_mono(d, i - a + 1);
                }
            }
            return None;
        }
        i = i + 1;
    }
    assert(d.take(b - a) == d);
    Some(value as u16)
}

/// A port read back from its recorded text: trimmed, then read as a `u16`.
pub fn parse_port(s: &str) -> (r: Option<u16>)
    ensures
        r == parse_port_spec(s@),
{
    let v = chars_of(s);
    let (a, b) = trim_range(&v, 0, v.len());
    assert(v@.subrange(0, v@.len() as int) == v@);
    let ghost t = v@.subrange(a as int, b as int);
    assert(t.len() > 0 ==> t[0] == v@[a as int]);
    assert(trim_spec(s@) == t);
    if a < b && v[a] == '+' {
        assert(t.drop_first() == v@.subrange(a + 1, b as int));
        if a + 1 == b {
            return None;
        }
        let r = parse_digits(&v, a + 1, b);
        assert(r == parse_u16_spec(t));
        r
    } else {
        if a == b {
            assert(t.len() == 0);
            return None;
        }
        let r = parse_digits(&v, a, b);
        assert(r == parse_u16_spec(t));
        r
    }
}

/// The 16 lowest hexadecimal digits of `x` (`format!("{:016x}", x)`).
pub fn hex16(x: u64) -> (r: String)
    ensures
        r@ == hex_digits(x as nat, 16),
{
    let mut out: Vec<char> = Vec::new();
    let mut y: u64 = x;
    let mut i: u64 = 0;
    while i < 16
        invariant
            i <= 16,
            hex_digits(x as nat, 16) == hex_digits(y as nat, (16 - i) as nat) + out@,
        decreases 16 - i,
    {
        let ghost old_out = out@;
        let d = digit_of(y % 16);
        out.insert(0, d);
        assert(hex_digits(y as nat, (16 - i) as nat) == hex_digits((y / 16) as nat, (16 - i - 1) as nat).push(
            digit_char((y % 16) as int),
        ));
        assert(hex_digits((y / 16) as nat, (16 - i - 1) as nat).push(digit_char((y % 16) as int))
            + old_out == hex_digits((y / 16) as nat, (16 - i - 1) as nat) + out@);
        y = y / 16;
        i = i + 1;
    }
    assert(hex_digits(y as nat, 0) + out@ == out@);
    string_of(&out)
}

proof fn lemma_dec_digits(x: nat)
    ensures
        dec_digits(x).len() > 0,
        forall|k: int| 0 <= k < dec_digits(x).len() ==> is_digit(#[trigger] dec_digits(x)[k]),
        digits_value(dec_digits(x)) == x,
    decreases x,
{
    if x < 10 {
        let c = digit_char(x as int);
        assert(c as int == 48 + x);
        assert(seq![c].drop_last() == Seq::<char>::empty());
        assert(digits_value(seq![c]) == digits_value(Seq::<char>::empty()) * 10 + ((c as int - 48) as nat));
    } else {
        lemma_dec_digits(x / 10);
        let c = digit_char((x % 10) as int);
        assert(c as int == 48 + x % 10);
        let s = dec_digits(x);
        assert(s.drop_last() == dec_digits(x / 10));
        assert(s.last() == c);
        assert(x == (x / 10) * 10 + x % 10);
        assert(digits_value(s) == digits_value(dec_digits(x / 10)) * 10 + ((c as int - 48) as nat));
        assert forall|k: int| 0 <= k < s.len() implies is_digit(#[trigger] s[k]) by {
            if k < s.len() - 1 {
                assert(s[k] == dec_digits(x / 10)[k]);
            }
        }
    }
}

proof fn lemma_trim_digits(s: Seq<char>)
    requires
        s.len() > 0,
        forall|k: int| 0 <= k < s.len() ==> is_digit(#[trigger] s[k]),
    ensures
        trim_spec(s) == s,
{
    assert(is_digit(s[0]));
    assert(is_digit(s.last()));
    assert(crate::text::trim_start_spec(s) == s);
    assert(crate::text::trim_end_spec(s) == s);
}

/// What is recorded of a port reads back as that port: `parse_port` of
/// `port_text(p)` is `p`.
pub proof fn lemma_port_round_trip(p: u16)
    ensures
        parse_port_spec(dec_digits(p as nat)) == Some(p),
{
    let s = dec_digits(p as nat);
    lemma_dec_digits(p as nat);
    lemma_trim_digits(s);
    assert(is_digit(s[0]));
}

proof fn lemma_hex_digits(x: nat, y: nat, n: nat)
    requires
        x < pow(16, n),
        y < pow(16, n),
        hex_digits(x, n) == hex_digits(y, n),
    ensures
        x == y,
    decreases n,
{
    if n == 0 {
        assert(pow(16, 0) == 1) by {
            reveal(pow);
        }
    } else {
        let hx = hex_digits(x, n);
        let hy = hex_digits(y, n);
        assert(hx.drop_last() == hex_digits(x / 16, (n - 1) as nat));
        assert(hy.drop_last() == hex_digits(y / 16, (n - 1) as nat));
        let dx = (x % 16) as int;
        let dy = (y % 16) as int;
        assert(hx.last() == digit_char(dx));
        assert(hy.last() == digit_char(dy));
        assert(digit_char(dx) as int == if dx < 10 { 48 + dx } else { 87 + dx });
        assert(digit_char(dy) as int == if dy < 10 { 48 + dy } else { 87 + dy });
        assert(dx == dy);
        assert(pow(16, n) == 16 * pow(16, (n - 1) as nat)) by {
            reveal(pow);
        }
        let m = pow(16, (n - 1) as nat);
        assert(x / 16 < m) by (nonlinear_arith)
            requires
                x < 16 * m,
                m > 0,
        ;
        assert(y / 16 < m) by (nonlinear_arith)
            requires
                y < 16 * m,
                m > 0,
        ;
        lemma_hex_digits(x / 16, y / 16, (n - 1) as nat);
        assert(x == 16 * (x / 16) + x % 16);
        assert(y == 16 * (y / 16) + y % 16);
    }
}

/// Distinct 64-bit values have distinct 16-digit hexadecimal texts.
pub proof fn lemma_hex16_injective(x: u64, y: u64)
    requires
        hex_digits(x as nat, 16) == hex_digits(y as nat, 16),
    ensures
        x == y,
{
    assert(pow(16, 16) == 0x1_0000_0000_0000_0000) by {
        reveal_with_fuel(pow, 17);
    }
    lemma_hex_digits(x as nat, y as nat, 16);
}

pub proof fn lemma_hex_len(x: nat, n: nat)
    ensures
        hex_digits(x, n).len() == n,
    decreases n,
{
    if n > 0 {
        lemma_hex_len(x / 16, (n - 1) as nat);
    }
}

} // verus!
