//! Dotted-decimal IPv4 address strings: building the canonical decimal form
//! of a host number, and parsing and validating address literals.

use vstd::prelude::*;

verus! {

/// A decimal digit character.
pub open spec fn is_digit(c: char) -> bool {
    '0' <= c && c <= '9'
}

/// Numeric value of a decimal digit character.
pub open spec fn digit_val(c: char) -> int
    recommends
        is_digit(c),
{
    c as int - '0' as int
}

/// The decimal digit character for a value below ten.
pub open spec fn digit_char(d: int) -> char
    recommends
        0 <= d <= 9,
{
    if d == 0 {
        '0'
    } else if d == 1 {
        '1'
    } else if d == 2 {
        '2'
    } else if d == 3 {
        '3'
    } else if d == 4 {
        '4'
    } else if d == 5 {
        '5'
    } else if d == 6 {
        '6'
    } else if d == 7 {
        '7'
    } else if d == 8 {
        '8'
    } else {
        '9'
    }
}

/// The canonical decimal spelling of an octet value: one to three digits,
/// with no leading zero.
pub open spec fn dec_chars(v: int) -> Seq<char>
    recommends
        0 <= v <= 255,
{
    if v < 10 {
        seq![digit_char(v)]
    } else if v < 100 {
        seq![digit_char(v / 10), digit_char(v % 10)]
    } else {
        seq![digit_char(v / 100), digit_char((v / 10) % 10), digit_char(v % 10)]
    }
}

/// The address string for host number `h` under network prefix `net`:
/// the prefix, a dot, and the canonical decimal of `h`.
pub open spec fn ip_chars(net: Seq<char>, h: int) -> Seq<char> {
    net + seq!['.'] + dec_chars(h)
}

/// The canonical-decimal parse of a whole string: `Some(v)` exactly when the
/// string is one to three digits with no leading zero and value at most 255.
pub open spec fn parse_dec(s: Seq<char>) -> Option<int> {
    if s.len() == 1 && is_digit(s[0]) {
        Some(digit_val(s[0]))
    } else if s.len() == 2 && is_digit(s[0]) && is_digit(s[1]) && s[0] != '0' {
        Some(10 * digit_val(s[0]) + digit_val(s[1]))
    } else if s.len() == 3 && is_digit(s[0]) && is_digit(s[1]) && is_digit(s[2]) && s[0] != '0'
        && 100 * digit_val(s[0]) + 10 * digit_val(s[1]) + digit_val(s[2]) <= 255 {
        Some(100 * digit_val(s[0]) + 10 * digit_val(s[1]) + digit_val(s[2]))
    } else {
        None
    }
}

/// Canonical decimals parse back to their value.
pub proof fn lemma_dec_chars_parse(v: int)
    requires
        0 <= v <= 255,
    ensures
        parse_dec(dec_chars(v)) == Some(v),
{
}

/// A string with a canonical-decimal parse is that value's canonical decimal:
/// the spelling of each octet value is unique.
pub proof fn lemma_parse_dec_canonical(s: Seq<char>, v: int)
    requires
        parse_dec(s) == Some(v),
    ensures
        0 <= v <= 255,
        s == dec_chars(v),
{
    assert(s =~= dec_chars(v));
}

/// Position `i` holds a digit.
pub open spec fn is_digit_at(s: Seq<char>, i: int) -> bool {
    0 <= i < s.len() && is_digit(s[i])
}

/// Position `i` holds a dot.
pub open spec fn is_dot_at(s: Seq<char>, i: int) -> bool {
    0 <= i < s.len() && s[i] == '.'
}

/// Reads one octet of an IPv4 literal starting at position `i`: the value and
/// the position after it, or `None` where no well-formed octet starts there.
/// An octet is one to three digits, has no leading zero, is at most 255, and
/// is not followed by a further digit.
pub open spec fn octet_at(s: Seq<char>, i: int) -> Option<(int, int)> {
    if !is_digit_at(s, i) {
        None
    } else if !is_digit_at(s, i + 1) {
        Some((digit_val(s[i]), i + 1))
    } else if s[i] == '0' {
        None
    } else if !is_digit_at(s, i + 2) {
        Some((10 * digit_val(s[i]) + digit_val(s[i + 1]), i + 2))
    } else if is_digit_at(s, i + 3) {
        None
    } else if 100 * digit_val(s[i]) + 10 * digit_val(s[i + 1]) + digit_val(s[i + 2]) <= 255 {
        Some((100 * digit_val(s[i]) + 10 * digit_val(s[i + 1]) + digit_val(s[i + 2]), i + 3))
    } else {
        None
    }
}

/// The string is a well-formed IPv4 literal: four octets separated by dots
/// and nothing else.
pub open spec fn is_ipv4_chars(s: Seq<char>) -> bool {
    match octet_at(s, 0) {
        Option::None => false,
        Option::Some(o1) => is_dot_at(s, o1.1) && match octet_at(s, o1.1 + 1) {
            Option::None => false,
            Option::Some(o2) => is_dot_at(s, o2.1) && match octet_at(s, o2.1 + 1) {
                Option::None => false,
                Option::Some(o3) => is_dot_at(s, o3.1) && match octet_at(s, o3.1 + 1) {
                    Option::None => false,
                    Option::Some(o4) => o4.1 == s.len(),
                },
            },
        },
    }
}

/// The address is acceptable for the pool's network: a well-formed IPv4
/// literal that starts with the network prefix followed by a dot.
pub open spec fn valid_for_network(net: Seq<char>, ip: Seq<char>) -> bool {
    &&& is_ipv4_chars(ip)
    &&& ip.len() > net.len()
    &&& ip.subrange(0, net.len() as int) == net
    &&& ip[net.len() as int] == '.'
}

/// The digit character of a value below ten, as a string slice.
fn digit_str(d: u8) -> (r: &'static str)
    requires
        d <= 9,
    ensures
        r@ == seq![digit_char(d as int)],
{
    let s: &'static str = match d {
        0 => "0",
        1 => "1",
        2 => "2",
        3 => "3",
        4 => "4",
        5 => "5",
        6 => "6",
        7 => "7",
        8 => "8",
        _ => "9",
    };
    proof {
        reveal_strlit("0");
        reveal_strlit("1");
        reveal_strlit("2");
        reveal_strlit("3");
        reveal_strlit("4");
        reveal_strlit("5");
        reveal_strlit("6");
        reveal_strlit("7");
        reveal_strlit("8");
        reveal_strlit("9");
        assert(s@ =~= seq![digit_char(d as int)]);
    }
    s
}

/// The canonical decimal spelling of an octet value.
pub fn dec_string(v: u8) -> (r: String)
    ensures
        r@ == dec_chars(v as int),
{
    if v < 10 {
        String::from_str(digit_str(v))
    } else if v < 100 {
        let mut s = String::from_str(digit_str(v / 10));
        s.append(digit_str(v % 10));
        proof {
            assert(s@ =~= dec_chars(v as int));
        }
        s
    } else {
        let mut s = String::from_str(digit_str(v / 100));
        s.append(digit_str((v / 10) % 10));
        s.append(digit_str(v % 10));
        proof {
            assert(s@ =~= dec_chars(v as int));
        }
        s
    }
}

/// The address string for host number `h` under network prefix `net`.
pub fn ip_string(net: &str, h: u8) -> (r: String)
    ensures
        r@ == ip_chars(net@, h as int),
{
    let mut s = String::from_str(net);
    s.append(".");
    let d = dec_string(h);
    s.append(d.as_str());
    proof {
        reveal_strlit(".");
        assert(s@ =~= ip_chars(net@, h as int));
    }
    s
}

/// Character-wise string equality.
pub fn str_eq(a: &str, b: &str) -> (r: bool)
    ensures
        r == (a@ == b@),
{
    let n = a.unicode_len();
    if n != b.unicode_len() {
        return false;
    }
    let mut i: usize = 0;
    while i < n
        invariant
            n == a@.len(),
            n == b@.len(),
            i <= n,
            forall|k: int| 0 <= k < i ==> a@[k] == b@[k],
        decreases n - i,
    {
        if a.get_char(i) != b.get_char(i) {
            return false;
        }
        i = i + 1;
    }
    proof {
        assert(a@ =~= b@);
    }
    true
}

/// The digit value at a position, where the position holds a digit.
fn digit_at(s: &str, n: usize, i: usize) -> (r: Option<u8>)
    requires
        n == s@.len(),
        i <= n,
    ensures
        r is Some <==> is_digit_at(s@, i as int),
        r is Some ==> r->0 as int == digit_val(s@[i as int]),
{
    if i < n {
        let c = s.get_char(i);
        if '0' <= c && c <= '9' {
            Some((c as u32 - '0' as u32) as u8)
        } else {
            None
        }
    } else {
        None
    }
}

/// Reads one octet starting at position `i`, mirroring `octet_at`.
fn octet_exec(s: &str, n: usize, i: usize) -> (r: Option<(u8, usize)>)
    requires
        n == s@.len(),
        i <= n,
    ensures
        match r {
            Option::Some(p) => octet_at(s@, i as int) == Some((p.0 as int, p.1 as int)),
            Option::None => octet_at(s@, i as int) is None,
        },
{
    let d0 = match digit_at(s, n, i) {
        Option::None => {
            return None;
        },
        Option::Some(d) => d,
    };
    let d1 = match digit_at(s, n, i + 1) {
        Option::None => {
            return Some((d0, i + 1));
        },
        Option::Some(d) => d,
    };
    if d0 == 0 {
        return None;
    }
    let d2 = match digit_at(s, n, i + 2) {
        Option::None => {
            return Some((10 * d0 + d1, i + 2));
        },
        Option::Some(d) => d,
    };
    if digit_at(s, n, i + 3).is_some() {
        return None;
    }
    let v: u32 = 100 * (d0 as u32) + 10 * (d1 as u32) + (d2 as u32);
    if v <= 255 {
        Some((v as u8, i + 3))
    } else {
        None
    }
}

/// Whether position `i` holds a dot.
fn dot_at(s: &str, n: usize, i: usize) -> (r: bool)
    requires
        n == s@.len(),
    ensures
        r == is_dot_at(s@, i as int),
{
    i < n && s.get_char(i) == '.'
}

/// Whether the string is a well-formed IPv4 literal.
pub fn is_ipv4_literal(s: &str) -> (r: bool)
    ensures
        r == is_ipv4_chars(s@),
{
    let n = s.unicode_len();
    let o1 = match octet_exec(s, n, 0) {
        Option::None => {
            return false;
        },
        Option::Some(p) => p,
    };
    if !dot_at(s, n, o1.1) {
        return false;
    }
    let o2 = match octet_exec(s, n, o1.1 + 1) {
        Option::None => {
            return false;
        },
        Option::Some(p) => p,
    };
    if !dot_at(s, n, o2.1) {
        return false;
    }
    let o3 = match octet_exec(s, n, o2.1 + 1) {
        Option::None => {
            return false;
        },
        Option::Some(p) => p,
    };
    if !dot_at(s, n, o3.1) {
        return false;
    }
    let o4 = match octet_exec(s, n, o3.1 + 1) {
        Option::None => {
            return false;
        },
        Option::Some(p) => p,
    };
    o4.1 == n
}

/// Whether the address is acceptable for the given network prefix.
pub fn is_valid_ip(network: &str, ip: &str) -> (r: bool)
    ensures
        r == valid_for_network(network@, ip@),
{
    if !is_ipv4_literal(ip) {
        return false;
    }
    let m = network.unicode_len();
    let n = ip.unicode_len();
    if n <= m {
        return false;
    }
    let mut i: usize = 0;
    while i < m
        invariant
            m == network@.len(),
            n == ip@.len(),
            n > m,
            i <= m,
            forall|k: int| 0 <= k < i ==> ip@[k] == network@[k],
        decreases m - i,
    {
        if ip.get_char(i) != network.get_char(i) {
            proof {
                assert(ip@.subrange(0, m as int)[i as int] != network@[i as int]);
            }
            return false;
        }
        i = i + 1;
    }
    proof {
        assert(ip@.subrange(0, m as int) =~= network@);
    }
    ip.get_char(m) == '.'
}

/// Parses a whole string as a canonical octet decimal.
pub fn parse_host(s: &str) -> (r: Option<u8>)
    ensures
        match r {
            Option::Some(h) => parse_dec(s@) == Some(h as int),
            Option::None => parse_dec(s@) is None,
        },
{
    let n = s.unicode_len();
    if n == 1 {
        digit_at(s, n, 0)
    } else if n == 2 {
        let d0 = match digit_at(s, n, 0) {
            Option::None => {
                return None;
            },
            Option::Some(d) => d,
        };
        let d1 = match digit_at(s, n, 1) {
            Option::None => {
                return None;
            },
            Option::Some(d) => d,
        };
        if d0 == 0 {
            None
        } else {
            Some(10 * d0 + d1)
        }
    } else if n == 3 {
        let d0 = match digit_at(s, n, 0) {
            Option::None => {
                return None;
            },
            Option::Some(d) => d,
        };
        let d1 = match digit_at(s, n, 1) {
            Option::None => {
                return None;
            },
            Option::Some(d) => d,
        };
        let d2 = match digit_at(s, n, 2) {
            Option::None => {
                return None;
            },
            Option::Some(d) => d,
        };
        let v: u32 = 100 * (d0 as u32) + 10 * (d1 as u32) + (d2 as u32);
        if d0 == 0 || v > 255 {
            None
        } else {
            Some(v as u8)
        }
    } else {
        None
    }
}

} // verus!
