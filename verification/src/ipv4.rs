//! IPv4 addresses as 32-bit numbers: reading and writing dotted-quad text.

use crate::text::{
    all_digits, decimal, decimal_round_trip, decimal_value, find_char, is_digit, push_decimal,
    read_decimal, split, split_at_first, split_is_nonempty, split_of_joined,
};
use vstd::prelude::*;

verus! {

/// The value of one field of a dotted quad: one to three decimal digits, at
/// most 255, with no leading zero in front of another digit.
pub open spec fn octet_value(s: Seq<char>) -> Option<int> {
    if 1 <= s.len() <= 3 && all_digits(s) && (s.len() == 1 || s[0] != '0') && decimal_value(s)
        <= 255 {
        Some(decimal_value(s))
    } else {
        None
    }
}

/// The address whose four fields, from the most significant, are `a`, `b`,
/// `c` and `d`.
pub open spec fn quad(a: int, b: int, c: int, d: int) -> int {
    ((a * 256 + b) * 256 + c) * 256 + d
}

/// The address that `s` writes as a dotted quad, where it is one: exactly
/// four fields separated by single dots, and nothing else.
pub open spec fn parse_ipv4(s: Seq<char>) -> Option<u32> {
    let parts = split(s, '.');
    if parts.len() == 4 && octet_value(parts[0]) is Some && octet_value(parts[1]) is Some
        && octet_value(parts[2]) is Some && octet_value(parts[3]) is Some {
        Some(
            quad(
                octet_value(parts[0])->0,
                octet_value(parts[1])->0,
                octet_value(parts[2])->0,
                octet_value(parts[3])->0,
            ) as u32,
        )
    } else {
        None
    }
}

/// The dotted quad that writes `addr`.
pub open spec fn ipv4_text(addr: u32) -> Seq<char> {
    decimal((addr / 16_777_216) as nat) + seq!['.'] + decimal((addr / 65_536 % 256) as nat)
        + seq!['.'] + decimal((addr / 256 % 256) as nat) + seq!['.'] + decimal(
        (addr % 256) as nat,
    )
}

/// Reads `chars[from..to]` as one field of a dotted quad.
pub fn read_octet(chars: &Vec<char>, from: usize, to: usize) -> (r: Option<u8>)
    requires
        from <= to <= chars@.len(),
    ensures
        r is Some <==> octet_value(chars@.subrange(from as int, to as int)) is Some,
        r matches Some(v) ==> octet_value(chars@.subrange(from as int, to as int)) == Some(
            v as int,
        ),
{
    if to - from < 1 || to - from > 3 {
        return None;
    }
    proof {
        let s = chars@.subrange(from as int, to as int);
        assert(s[0] == chars@[from as int]);
    }
    match read_decimal(chars, from, to, 256) {
        None => None,
        Some(v) => {
            if v > 255 {
                None
            } else if to - from > 1 && chars[from] == '0' {
                None
            } else {
                Some(v as u8)
            }
        },
    }
}

/// Reads `chars[from..to]` as a dotted quad.
pub fn read_ipv4(chars: &Vec<char>, from: usize, to: usize) -> (r: Option<u32>)
    requires
        from <= to <= chars@.len(),
    ensures
        r == parse_ipv4(chars@.subrange(from as int, to as int)),
{
    let ghost s = chars@;
    let ghost whole = s.subrange(from as int, to as int);
    let d1 = find_char(chars, from, to, '.');
    proof {
        split_at_first(s, from as int, to as int, d1 as int, '.');
    }
    if d1 == to {
        return None;
    }
    let d2 = find_char(chars, d1 + 1, to, '.');
    proof {
        split_at_first(s, d1 + 1, to as int, d2 as int, '.');
    }
    if d2 == to {
        assert(split(whole, '.').len() == 2);
        return None;
    }
    let d3 = find_char(chars, d2 + 1, to, '.');
    proof {
        split_at_first(s, d2 + 1, to as int, d3 as int, '.');
    }
    if d3 == to {
        assert(split(whole, '.').len() == 3);
        return None;
    }
    let d4 = find_char(chars, d3 + 1, to, '.');
    proof {
        split_at_first(s, d3 + 1, to as int, d4 as int, '.');
    }
    if d4 != to {
        proof {
            split_is_nonempty(s.subrange(d4 + 1, to as int), '.');
            assert(split(whole, '.').len() >= 5);
        }
        return None;
    }
    proof {
        let parts = split(whole, '.');
        assert(parts =~= seq![
            s.subrange(from as int, d1 as int),
            s.subrange(d1 + 1, d2 as int),
            s.subrange(d2 + 1, d3 as int),
            s.subrange(d3 + 1, to as int),
        ]);
    }
    let a = match read_octet(chars, from, d1) {
        Some(v) => v,
        None => {
            return None;
        },
    };
    let b = match read_octet(chars, d1 + 1, d2) {
        Some(v) => v,
        None => {
            return None;
        },
    };
    let c = match read_octet(chars, d2 + 1, d3) {
        Some(v) => v,
        None => {
            return None;
        },
    };
    let d = match read_octet(chars, d3 + 1, to) {
        Some(v) => v,
        None => {
            return None;
        },
    };
    let ab: u32 = a as u32 * 256 + b as u32;
    let abc: u32 = ab * 256 + c as u32;
    let abcd: u32 = abc * 256 + d as u32;
    Some(abcd)
}

/// Appends the dotted quad of `addr` to `out`.
pub fn push_ipv4(out: &mut String, addr: u32)
    ensures
        final(out)@ == old(out)@ + ipv4_text(addr),
{
    push_decimal(out, (addr / 16_777_216) as u64);
    out.push('.');
    push_decimal(out, (addr / 65_536 % 256) as u64);
    out.push('.');
    push_decimal(out, (addr / 256 % 256) as u64);
    out.push('.');
    push_decimal(out, (addr % 256) as u64);
    proof {
        assert(out@ =~= old(out)@ + ipv4_text(addr));
    }
}

/// The dotted quad of `addr`.
pub fn format_ipv4(addr: u32) -> (s: String)
    ensures
        s@ == ipv4_text(addr),
{
    let mut s = String::new();
    push_ipv4(&mut s, addr);
    proof {
        assert(s@ =~= ipv4_text(addr));
    }
    s
}


/// The numeral of a number up to 255 is a field of a dotted quad, and reads
/// back as that number.
pub proof fn octet_round_trip(o: nat)
    requires
        o <= 255,
    ensures
        octet_value(decimal(o)) == Some(o as int),
        !decimal(o).contains('.'),
{
    decimal_round_trip(o);
    let d = decimal(o);
    if d.contains('.') {
        let j = choose|j: int| 0 <= j < d.len() && d[j] == '.';
        assert(is_digit(d[j]));
    }
}

/// Every address reads back from its dotted quad.
pub proof fn ipv4_round_trip(addr: u32)
    ensures
        parse_ipv4(ipv4_text(addr)) == Some(addr),
{
    let a = (addr / 16_777_216) as nat;
    let b = (addr / 65_536 % 256) as nat;
    let c = (addr / 256 % 256) as nat;
    let d = (addr % 256) as nat;
    octet_round_trip(a);
    octet_round_trip(b);
    octet_round_trip(c);
    octet_round_trip(d);
    let t3 = decimal(d);
    let t2 = decimal(c) + seq!['.'] + t3;
    let t1 = decimal(b) + seq!['.'] + t2;
    let t0 = decimal(a) + seq!['.'] + t1;
    assert(ipv4_text(addr) =~= t0);
    split_of_joined(decimal(d), Seq::empty(), '.');
    split_of_joined(decimal(c), t3, '.');
    split_of_joined(decimal(b), t2, '.');
    split_of_joined(decimal(a), t1, '.');
    let parts = split(t0, '.');
    assert(parts =~= seq![decimal(a), decimal(b), decimal(c), decimal(d)]);
    assert(quad(a as int, b as int, c as int, d as int) == addr);
}

} // verus!
