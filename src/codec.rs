//! Numbers and addresses as the kernel's connection tables write them:
//! digits in a radix up to sixteen, and IPv4 / IPv6 addresses in fixed-width
//! hexadecimal.
use vstd::prelude::*;
use vstd::arithmetic::div_mod::lemma_mod_breakdown;
use crate::text::chars_of;

verus! {

/// An IPv4 or IPv6 address, held as the number whose big-endian bytes are
/// the address's octets (`1.2.3.4` is `V4(0x01020304)`).
#[derive(Clone, Copy, Debug, PartialEq, Eq, Structural, Hash, PartialOrd, Ord)]
pub enum IpAddress {
    V4(u32),
    V6(u128),
}

/// The value of a digit character in radix sixteen or below; 16 for any
/// other character.
pub open spec fn digit_value(c: char) -> nat {
    let u = c as u32;
    if 0x30 <= u && u <= 0x39 {
        (u - 0x30) as nat
    } else if 0x61 <= u && u <= 0x66 {
        (u - 0x61 + 10) as nat
    } else if 0x41 <= u && u <= 0x46 {
        (u - 0x41 + 10) as nat
    } else {
        16
    }
}

/// Every character of `s` is a digit in `radix`.
pub open spec fn all_digits(s: Seq<char>, radix: nat) -> bool {
    forall|i: int| 0 <= i < s.len() ==> #[trigger] digit_value(s[i]) < radix
}

/// The number that the digits `s` write in `radix`, most significant first.
pub open spec fn number_value(s: Seq<char>, radix: nat) -> nat
    decreases s.len(),
{
    if s.len() == 0 {
        0
    } else {
        number_value(s.drop_last(), radix) * radix + digit_value(s.last())
    }
}

/// `b` to the power `n`.
pub open spec fn power(b: nat, n: nat) -> nat
    decreases n,
{
    if n == 0 {
        1
    } else {
        b * power(b, (n - 1) as nat)
    }
}

/// What `u16::from_str_radix(s, radix)` gives: an optional `+`, then one or
/// more digits whose value fits in 16 bits.
pub open spec fn u16_of_digits(s: Seq<char>, radix: nat) -> Option<u16> {
    let d = if s.len() > 0 && s[0] == '+' {
        s.drop_first()
    } else {
        s
    };
    if d.len() > 0 && all_digits(d, radix) && number_value(d, radix) < 0x10000 {
        Some(number_value(d, radix) as u16)
    } else {
        None
    }
}

/// The eight hex digits of an IPv4 address as the table stores it: the
/// 32-bit value in little-endian byte order, so the digit pairs come in
/// reverse order of the octets.
pub open spec fn swap_pairs4(s: Seq<char>) -> Seq<char> {
    s.subrange(6, 8) + s.subrange(4, 6) + s.subrange(2, 4) + s.subrange(0, 2)
}

/// The address that eight hex digits of the IPv4 table denote, if they are
/// eight hex digits.
pub open spec fn ipv4_of_hex(s: Seq<char>) -> Option<IpAddress> {
    if s.len() == 8 && all_digits(s, 16) {
        Some(IpAddress::V4(number_value(swap_pairs4(s), 16) as u32))
    } else {
        None
    }
}

/// The address that thirty-two hex digits of the IPv6 table denote, read
/// big-endian, if they are thirty-two hex digits.
pub open spec fn ipv6_of_hex(s: Seq<char>) -> Option<IpAddress> {
    if s.len() == 32 && all_digits(s, 16) {
        Some(IpAddress::V6(number_value(s, 16) as u128))
    } else {
        None
    }
}

/// The upper-case hex digit for `d < 16`.
pub open spec fn hex_char(d: nat) -> char {
    if d == 0 { '0' } else if d == 1 { '1' } else if d == 2 { '2' } else if d == 3 { '3' }
    else if d == 4 { '4' } else if d == 5 { '5' } else if d == 6 { '6' } else if d == 7 { '7' }
    else if d == 8 { '8' } else if d == 9 { '9' } else if d == 10 { 'A' } else if d == 11 { 'B' }
    else if d == 12 { 'C' } else if d == 13 { 'D' } else if d == 14 { 'E' } else { 'F' }
}

/// The lowest `n` hex digits of `v`, most significant first, upper case.
pub open spec fn hex_digits(v: nat, n: nat) -> Seq<char>
    decreases n,
{
    if n == 0 {
        Seq::empty()
    } else {
        hex_digits(v / 16, (n - 1) as nat).push(hex_char(v % 16))
    }
}

/// How the IPv4 table writes an address.
pub open spec fn ipv4_hex(a: u32) -> Seq<char> {
    swap_pairs4(hex_digits(a as nat, 8))
}

/// How the IPv6 table writes an address.
pub open spec fn ipv6_hex(a: u128) -> Seq<char> {
    hex_digits(a as nat, 32)
}

proof fn lemma_power16()
    ensures
        power(16, 8) == 0x1_0000_0000,
        power(16, 31) == 0x1000_0000_0000_0000_0000_0000_0000_0000,
        power(16, 32) == 0x1_0000_0000_0000_0000_0000_0000_0000_0000,
{
    reveal_with_fuel(power, 33);
}

proof fn lemma_power_monotone(b: nat, m: nat, n: nat)
    requires
        b >= 1,
        m <= n,
    ensures
        power(b, m) <= power(b, n),
    decreases n,
{
    if m < n {
        lemma_power_monotone(b, m, (n - 1) as nat);
        assert(power(b, (n - 1) as nat) <= b * power(b, (n - 1) as nat)) by (nonlinear_arith)
            requires b >= 1;
    }
}

proof fn lemma_number_value_bound(s: Seq<char>, radix: nat)
    requires
        radix >= 1,
        all_digits(s, radix),
    ensures
        number_value(s, radix) < power(radix, s.len()),
    decreases s.len(),
{
    if s.len() > 0 {
        let t = s.drop_last();
        assert(all_digits(t, radix)) by {
            assert forall|i: int| 0 <= i < t.len() implies #[trigger] digit_value(t[i]) < radix by {
                assert(t[i] == s[i]);
            }
        }
        lemma_number_value_bound(t, radix);
        let v = number_value(t, radix);
        let p = power(radix, t.len());
        let d = digit_value(s.last());
        assert(digit_value(s[s.len() - 1]) < radix);
        assert(v * radix + d < radix * p) by (nonlinear_arith)
            requires v < p, d < radix;
    }
}

proof fn lemma_number_value_prefix(s: Seq<char>, radix: nat, k: int)
    requires
        radix >= 1,
        0 <= k <= s.len(),
    ensures
        number_value(s.take(k), radix) <= number_value(s, radix),
    decreases s.len(),
{
    if k < s.len() {
        let t = s.drop_last();
        assert(s.take(k) == t.take(k));
        lemma_number_value_prefix(t, radix, k);
        let v = number_value(t, radix);
        assert(v <= v * radix) by (nonlinear_arith)
            requires radix >= 1;
    } else {
        assert(s.take(k) == s);
    }
}

/// A hex digit as the tables write it: `0`-`9` or `A`-`F`.
pub open spec fn is_upper_hex(c: char) -> bool {
    let u = c as u32;
    (0x30 <= u && u <= 0x39) || (0x41 <= u && u <= 0x46)
}

proof fn lemma_hex_char(d: nat)
    requires
        d < 16,
    ensures
        digit_value(hex_char(d)) == d,
        is_upper_hex(hex_char(d)),
{
}

proof fn lemma_hex_char_of_digit(c: char)
    requires
        is_upper_hex(c),
    ensures
        hex_char(digit_value(c)) == c,
{
}

proof fn lemma_hex_digits(v: nat, n: nat)
    ensures
        hex_digits(v, n).len() == n,
        all_digits(hex_digits(v, n), 16),
        forall|i: int| 0 <= i < n ==> is_upper_hex(#[trigger] hex_digits(v, n)[i]),
        number_value(hex_digits(v, n), 16) == v % power(16, n),
    decreases n,
{
    if n > 0 {
        let m = (n - 1) as nat;
        let h = hex_digits(v, n);
        let t = hex_digits(v / 16, m);
        lemma_hex_digits(v / 16, m);
        lemma_hex_char(v % 16);
        assert(h.drop_last() == t);
        assert forall|i: int| 0 <= i < n implies #[trigger] digit_value(h[i]) < 16 && is_upper_hex(
            h[i],
        ) by {
            if i < m {
                assert(h[i] == t[i]);
            }
        }
        lemma_power_monotone(16, 0, m);
        lemma_mod_breakdown(v as int, 16, power(16, m) as int);
    }
}

proof fn lemma_hex_digits_of_value(s: Seq<char>)
    requires
        forall|i: int| 0 <= i < s.len() ==> is_upper_hex(#[trigger] s[i]),
    ensures
        hex_digits(number_value(s, 16), s.len()) == s,
    decreases s.len(),
{
    if s.len() > 0 {
        let t = s.drop_last();
        assert forall|i: int| 0 <= i < t.len() implies is_upper_hex(#[trigger] t[i]) by {
            assert(t[i] == s[i]);
        }
        lemma_hex_digits_of_value(t);
        assert(is_upper_hex(s[s.len() - 1]));
        lemma_hex_char_of_digit(s.last());
        let w = number_value(t, 16);
        let d = digit_value(s.last());
        assert((w * 16 + d) / 16 == w && (w * 16 + d) % 16 == d) by (nonlinear_arith)
            requires d < 16;
        assert(hex_digits(number_value(s, 16), s.len()) =~= t.push(s.last()));
    }
}

proof fn lemma_swap_pairs4(s: Seq<char>)
    requires
        s.len() == 8,
    ensures
        swap_pairs4(swap_pairs4(s)) == s,
        swap_pairs4(s).len() == 8,
        forall|i: int| 0 <= i < 8 ==> #[trigger] swap_pairs4(s)[i] == s[if i % 2 == 0 { 6 - i } else { 8 - i }],
{
    assert(swap_pairs4(swap_pairs4(s)) =~= s);
}

/// Writing an IPv4 address as the IPv4 table does and decoding the text
/// gives the address back.
pub proof fn lemma_ipv4_round_trip(a: u32)
    ensures
        ipv4_of_hex(ipv4_hex(a)) == Some(IpAddress::V4(a)),
{
    let s = hex_digits(a as nat, 8);
    lemma_hex_digits(a as nat, 8);
    lemma_power16();
    lemma_swap_pairs4(s);
    let w = swap_pairs4(s);
    assert forall|i: int| 0 <= i < 8 implies #[trigger] digit_value(w[i]) < 16 by {
        assert(w[i] == s[if i % 2 == 0 { 6 - i } else { 8 - i }]);
    }
}

/// Every text of eight upper-case hex digits is how the IPv4 table writes
/// the address it decodes to.
pub proof fn lemma_ipv4_text_round_trip(s: Seq<char>)
    requires
        s.len() == 8,
        forall|i: int| 0 <= i < 8 ==> is_upper_hex(#[trigger] s[i]),
    ensures
        ipv4_of_hex(s) matches Some(IpAddress::V4(a)) && ipv4_hex(a) == s,
{
    lemma_swap_pairs4(s);
    let w = swap_pairs4(s);
    assert forall|i: int| 0 <= i < 8 implies is_upper_hex(#[trigger] w[i]) by {
        assert(w[i] == s[if i % 2 == 0 { 6 - i } else { 8 - i }]);
    }
    assert forall|i: int| 0 <= i < 8 implies #[trigger] digit_value(s[i]) < 16 by {
        assert(is_upper_hex(s[i]));
    }
    assert forall|i: int| 0 <= i < 8 implies #[trigger] digit_value(w[i]) < 16 by {
        assert(is_upper_hex(w[i]));
    }
    lemma_number_value_bound(w, 16);
    lemma_power16();
    lemma_hex_digits_of_value(w);
}

/// Writing an IPv6 address as the IPv6 table does and decoding the text
/// gives the address back.
pub proof fn lemma_ipv6_round_trip(a: u128)
    ensures
        ipv6_of_hex(ipv6_hex(a)) == Some(IpAddress::V6(a)),
{
    lemma_hex_digits(a as nat, 32);
    lemma_power16();
}

/// Every text of thirty-two upper-case hex digits is how the IPv6 table
/// writes the address it decodes to.
pub proof fn lemma_ipv6_text_round_trip(s: Seq<char>)
    requires
        s.len() == 32,
        forall|i: int| 0 <= i < 32 ==> is_upper_hex(#[trigger] s[i]),
    ensures
        ipv6_of_hex(s) matches Some(IpAddress::V6(a)) && ipv6_hex(a) == s,
{
    assert forall|i: int| 0 <= i < 32 implies #[trigger] digit_value(s[i]) < 16 by {
        assert(is_upper_hex(s[i]));
    }
    lemma_number_value_bound(s, 16);
    lemma_power16();
    lemma_hex_digits_of_value(s);
}

/// The upper-case hex digit for `d < 16`.
fn hex_char_of(d: u32) -> (r: char)
    requires
        d < 16,
    ensures
        r == hex_char(d as nat),
{
    if d == 0 { '0' } else if d == 1 { '1' } else if d == 2 { '2' } else if d == 3 { '3' }
    else if d == 4 { '4' } else if d == 5 { '5' } else if d == 6 { '6' } else if d == 7 { '7' }
    else if d == 8 { '8' } else if d == 9 { '9' } else if d == 10 { 'A' } else if d == 11 { 'B' }
    else if d == 12 { 'C' } else if d == 13 { 'D' } else if d == 14 { 'E' } else { 'F' }
}

/// The lowest `n` hex digits of `v`, most significant first, upper case.
fn hex_digits_of(v: u128, n: usize) -> (r: Vec<char>)
    ensures
        r@ == hex_digits(v as nat, n as nat),
    decreases n,
{
    if n == 0 {
        Vec::new()
    } else {
        let mut r = hex_digits_of(v / 16, n - 1);
        r.push(hex_char_of((v % 16) as u32));
        r
    }
}

/// The eight hex digits with which the IPv4 table writes `a`.
pub fn encode_ipv4(a: u32) -> (r: Vec<char>)
    ensures
        r@ == ipv4_hex(a),
{
    let c = hex_digits_of(a as u128, 8);
    proof {
        lemma_hex_digits(a as nat, 8);
    }
    let r = vec![c[6], c[7], c[4], c[5], c[2], c[3], c[0], c[1]];
    assert(r@ =~= swap_pairs4(c@));
    r
}

/// The thirty-two hex digits with which the IPv6 table writes `a`.
pub fn encode_ipv6(a: u128) -> (r: Vec<char>)
    ensures
        r@ == ipv6_hex(a),
{
    hex_digits_of(a, 32)
}

/// The value of a digit character in radix sixteen or below; 16 for any
/// other character.
pub fn digit_of(c: char) -> (r: u32)
    ensures
        r as nat == digit_value(c),
{
    let u = c as u32;
    if 0x30 <= u && u <= 0x39 {
        u - 0x30
    } else if 0x61 <= u && u <= 0x66 {
        u - 0x61 + 10
    } else if 0x41 <= u && u <= 0x46 {
        u - 0x41 + 10
    } else {
        16
    }
}

/// Reads a 16-bit number in `radix` as `u16::from_str_radix` does: an
/// optional `+`, then one or more digits whose value fits in 16 bits.
pub fn parse_u16_radix(s: &Vec<char>, radix: u32) -> (r: Option<u16>)
    requires
        2 <= radix <= 16,
    ensures
        r == u16_of_digits(s@, radix as nat),
{
    let start: usize = if s.len() > 0 && s[0] == '+' {
        1
    } else {
        0
    };
    let ghost d = if s@.len() > 0 && s@[0] == '+' {
        s@.drop_first()
    } else {
        s@
    };
    assert(d =~= s@.skip(start as int));
    if start == s.len() {
        return None;
    }
    let mut acc: u32 = 0;
    let mut k: usize = start;
    while k < s.len()
        invariant
            start <= k <= s.len(),
            d == s@.skip(start as int),
            d == (if s@.len() > 0 && s@[0] == '+' {
                s@.drop_first()
            } else {
                s@
            }),
            d.len() > 0,
            2 <= radix <= 16,
            acc < 0x10000,
            acc as nat == number_value(d.take(k - start), radix as nat),
            all_digits(d.take(k - start), radix as nat),
        decreases s.len() - k,
    {
        let ghost pre = d.take(k - start);
        let ghost next = d.take(k + 1 - start);
        assert(next.drop_last() == pre);
        assert(next.last() == s@[k as int]);
        let v = digit_of(s[k]);
        if v >= radix {
            assert(d[k - start] == s@[k as int]);
            assert(digit_value(d[k - start]) >= radix);
            assert(!all_digits(d, radix as nat));
            return None;
        }
        assert(acc * radix + v < 0x200000) by (nonlinear_arith)
            requires acc < 0x10000, radix <= 16, v < radix;
        acc = acc * radix + v;
        assert(all_digits(next, radix as nat)) by {
            assert forall|i: int| 0 <= i < next.len() implies #[trigger] digit_value(next[i])
                < radix by {
                if i < next.len() - 1 {
                    assert(next[i] == pre[i]);
                }
            }
        }
        if acc >= 0x10000 {
            proof {
                lemma_number_value_prefix(d, radix as nat, k + 1 - start);
            }
            assert(number_value(d, radix as nat) >= 0x10000);
            return None;
        }
        k = k + 1;
    }
    assert(d.take(s.len() - start) == d);
    Some(acc as u16)
}

/// Reads up to thirty-two hex digits as a number; `None` where a character
/// is not a hex digit.
pub fn hex_number(s: &Vec<char>) -> (r: Option<u128>)
    requires
        s.len() <= 32,
    ensures
        r == (if all_digits(s@, 16) {
            Some(number_value(s@, 16) as u128)
        } else {
            None::<u128>
        }),
{
    let mut acc: u128 = 0;
    let mut k: usize = 0;
    proof {
        lemma_power16();
    }
    while k < s.len()
        invariant
            k <= s.len() <= 32,
            acc as nat == number_value(s@.take(k as int), 16),
            all_digits(s@.take(k as int), 16),
            power(16, 31) == 0x1000_0000_0000_0000_0000_0000_0000_0000,
        decreases s.len() - k,
    {
        let ghost pre = s@.take(k as int);
        let ghost next = s@.take(k + 1);
        assert(next.drop_last() == pre);
        let v = digit_of(s[k]);
        if v >= 16 {
            return None;
        }
        proof {
            lemma_number_value_bound(pre, 16);
            lemma_power_monotone(16, k as nat, 31);
        }
        acc = acc * 16 + v as u128;
        assert(all_digits(next, 16)) by {
            assert forall|i: int| 0 <= i < next.len() implies #[trigger] digit_value(next[i])
                < 16 by {
                if i < next.len() - 1 {
                    assert(next[i] == pre[i]);
                }
            }
        }
        k = k + 1;
    }
    assert(s@.take(s.len() as int) == s@);
    Some(acc)
}

/// Decodes the eight hex digits that the IPv4 table writes for an address:
/// the 32-bit value they spell is read back in little-endian byte order.
pub fn decode_ipv4(hex: &str) -> (r: Option<IpAddress>)
    ensures
        r == ipv4_of_hex(hex@),
{
    let c = chars_of(hex);
    ipv4_of_chars(&c)
}

/// Decodes the IPv4 table's eight hex digits for an address, given as
/// characters.
pub fn ipv4_of_chars(c: &Vec<char>) -> (r: Option<IpAddress>)
    ensures
        r == ipv4_of_hex(c@),
{
    if c.len() != 8 {
        return None;
    }
    let swapped = vec![c[6], c[7], c[4], c[5], c[2], c[3], c[0], c[1]];
    assert(swapped@ =~= swap_pairs4(c@));
    let ghost sw = swapped@;
    assert(all_digits(sw, 16) == all_digits(c@, 16)) by {
        if all_digits(c@, 16) {
            assert forall|i: int| 0 <= i < 8 implies #[trigger] digit_value(sw[i]) < 16 by {
                assert(sw[i] == c@[if i % 2 == 0 { 6 - i } else { 8 - i }]);
            }
        }
        if all_digits(sw, 16) {
            assert forall|i: int| 0 <= i < 8 implies #[trigger] digit_value(c@[i]) < 16 by {
                assert(c@[i] == sw[if i % 2 == 0 { 6 - i } else { 8 - i }]);
            }
        }
    }
    match hex_number(&swapped) {
        Some(v) => {
            proof {
                lemma_number_value_bound(sw, 16);
                lemma_power16();
            }
            Some(IpAddress::V4(v as u32))
        },
        None => None,
    }
}

/// Decodes the thirty-two hex digits that the IPv6 table writes for an
/// address, read as a big-endian 128-bit value.
pub fn decode_ipv6(hex: &str) -> (r: Option<IpAddress>)
    ensures
        r == ipv6_of_hex(hex@),
{
    let c = chars_of(hex);
    ipv6_of_chars(&c)
}

/// Decodes the IPv6 table's thirty-two hex digits for an address, given as
/// characters.
pub fn ipv6_of_chars(c: &Vec<char>) -> (r: Option<IpAddress>)
    ensures
        r == ipv6_of_hex(c@),
{
    if c.len() != 32 {
        return None;
    }
    match hex_number(c) {
        Some(v) => Some(IpAddress::V6(v)),
        None => None,
    }
}

} // verus!
