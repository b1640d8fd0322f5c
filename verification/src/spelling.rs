//! How addresses are written for people: the spelling the standard library gives them.
//!
//! An IPv4 address is four decimal octets joined by dots. An IPv6 address is eight groups
//! in lowercase hexadecimal without leading zeros joined by colons, with the longest run of
//! two or more zero groups (the first, where runs tie) written as `::`, and an
//! IPv4-mapped address written `::ffff:` and its IPv4 spelling.

use crate::address::IpAddr;
use crate::platform::process::{decimal, decimal_text};
use vstd::prelude::*;

verus! {

/// The hexadecimal digit for `d`, lowercase.
pub open spec fn hex_digit_char(d: nat) -> char {
    if d < 10 {
        (48 + d) as char
    } else {
        (87 + d) as char
    }
}

/// `n` in lowercase hexadecimal, most significant digit first, with no prefix or padding.
pub open spec fn hex_text(n: nat) -> Seq<char>
    decreases n,
{
    if n < 16 {
        seq![hex_digit_char(n)]
    } else {
        hex_text(n / 16).push(hex_digit_char(n % 16))
    }
}

/// `n` formatted with `LowerHex`.
///
/// The contract claims what the standard library documents of `{:x}` on an unsigned
/// integer: its lowercase hexadecimal digits, with no prefix and no leading zeros.
#[verifier::external_body]
fn lower_hex(n: u16) -> (s: String)
    ensures
        s@ == hex_text(n as nat),
{
    format!("{:x}", n)
}

/// Octet `k` of an IPv4 address, the first most significant.
pub open spec fn octet(bits: u32, k: u32) -> u32 {
    (bits >> (24 - 8 * k) as u32) & 0xff
}

/// The spelling of an IPv4 address.
pub open spec fn v4_spelling(bits: u32) -> Seq<char> {
    decimal_text(octet(bits, 0) as nat) + seq!['.'] + decimal_text(octet(bits, 1) as nat) + seq!['.']
        + decimal_text(octet(bits, 2) as nat) + seq!['.'] + decimal_text(octet(bits, 3) as nat)
}

/// Group `k` of an IPv6 address, the first most significant.
pub open spec fn group(bits: u128, k: u128) -> u16 {
    ((bits >> (112 - 16 * k) as u128) & 0xffff) as u16
}

/// The eight groups of an IPv6 address.
pub open spec fn groups_of(bits: u128) -> Seq<u16> {
    Seq::new(8, |k: int| group(bits, k as u128))
}

/// The groups in hexadecimal, joined by colons.
pub open spec fn joined(groups: Seq<u16>) -> Seq<char>
    decreases groups.len(),
{
    if groups.len() == 0 {
        Seq::empty()
    } else if groups.len() == 1 {
        hex_text(groups[0] as nat)
    } else {
        joined(groups.drop_last()) + seq![':'] + hex_text(groups.last() as nat)
    }
}

/// Whether the `len` groups from `start` are all zero.
pub open spec fn zeros(groups: Seq<u16>, start: int, len: int) -> bool {
    &&& 0 <= start
    &&& 0 <= len
    &&& start + len <= groups.len()
    &&& forall|k: int| start <= k < start + len ==> groups[k] == 0
}

/// Whether the zero groups from `start` are the longest run, and the first of the longest.
pub open spec fn longest_zeros(groups: Seq<u16>, start: int, len: int) -> bool {
    &&& zeros(groups, start, len)
    &&& forall|s: int, l: int| #[trigger] zeros(groups, s, l) ==> l < len || (l == len && s >= start)
}

/// Whether the address is an IPv4 address mapped into IPv6.
pub open spec fn is_mapped(groups: Seq<u16>) -> bool {
    groups[0] == 0 && groups[1] == 0 && groups[2] == 0 && groups[3] == 0 && groups[4] == 0
        && groups[5] == 0xffff
}

/// The spelling of an IPv6 address.
pub open spec fn v6_spelling(bits: u128) -> Seq<char> {
    let groups = groups_of(bits);
    if is_mapped(groups) {
        seq![':', ':', 'f', 'f', 'f', 'f', ':'] + v4_spelling((bits & 0xffff_ffff) as u32)
    } else {
        let (start, len) = choose|start: int, len: int| longest_zeros(groups, start, len);
        if len > 1 {
            joined(groups.subrange(0, start)) + seq![':', ':'] + joined(groups.subrange(start + len, 8))
        } else {
            joined(groups)
        }
    }
}

/// The spelling of an address.
pub open spec fn ip_spelling(address: IpAddr) -> Seq<char> {
    match address {
        IpAddr::V4(bits) => v4_spelling(bits),
        IpAddr::V6(bits) => v6_spelling(bits),
    }
}

/// Writes an IPv4 address.
fn spell_v4(bits: u32) -> (s: String)
    ensures
        s@ == v4_spelling(bits),
{
    let dot = ".";
    proof {
        reveal_strlit(".");
    }
    let mut s = decimal((bits >> 24) & 0xff);
    s.append(dot);
    let second = decimal((bits >> 16) & 0xff);
    s.append(second.as_str());
    s.append(dot);
    let third = decimal((bits >> 8) & 0xff);
    s.append(third.as_str());
    s.append(dot);
    let fourth = decimal(bits & 0xff);
    s.append(fourth.as_str());
    proof {
        assert(octet(bits, 0) == (bits >> 24) & 0xff);
        assert(octet(bits, 1) == (bits >> 16) & 0xff);
        assert(octet(bits, 2) == (bits >> 8) & 0xff);
        assert(octet(bits, 3) == (bits >> 0) & 0xff);
        assert((bits >> 0) == bits) by (bit_vector);
        assert(s@ =~= v4_spelling(bits));
    }
    s
}

/// Writes groups in hexadecimal joined by colons.
fn spell_groups(groups: &[u16; 8], from: usize, to: usize) -> (s: String)
    requires
        from <= to <= 8,
    ensures
        s@ == joined(groups@.subrange(from as int, to as int)),
{
    let colon = ":";
    proof {
        reveal_strlit(":");
    }
    let mut s = String::new();
    let mut i = from;
    proof {
        assert(groups@.subrange(from as int, from as int) =~= Seq::<u16>::empty());
    }
    while i < to
        invariant
            from <= i <= to <= 8,
            groups@.len() == 8,
            s@ == joined(groups@.subrange(from as int, i as int)),
            colon@ == seq![':'],
        decreases to - i,
    {
        let part = lower_hex(groups[i]);
        let ghost before = groups@.subrange(from as int, i as int);
        let ghost after = groups@.subrange(from as int, i + 1);
        proof {
            assert(after.drop_last() =~= before);
        }
        if i > from {
            s.append(colon);
        }
        s.append(part.as_str());
        proof {
            if i == from {
                assert(after =~= seq![groups@[i as int]]);
            }
            assert(s@ =~= joined(after));
        }
        i = i + 1;
    }
    s
}

/// The groups of an IPv6 address.
fn groups_array(bits: u128) -> (g: [u16; 8])
    ensures
        g@ == groups_of(bits),
{
    let g = [
        ((bits >> 112) & 0xffff) as u16,
        ((bits >> 96) & 0xffff) as u16,
        ((bits >> 80) & 0xffff) as u16,
        ((bits >> 64) & 0xffff) as u16,
        ((bits >> 48) & 0xffff) as u16,
        ((bits >> 32) & 0xffff) as u16,
        ((bits >> 16) & 0xffff) as u16,
        (bits & 0xffff) as u16,
    ];
    proof {
        assert((bits >> 0u128) == bits) by (bit_vector);
        assert(g@ =~= groups_of(bits));
    }
    g
}

/// Where the longest run of zero groups starts and how long it is, the first of the
/// longest where runs tie.
fn longest_run(groups: &[u16; 8]) -> (r: (usize, usize))
    ensures
        longest_zeros(groups@, r.0 as int, r.1 as int),
{
    let mut best_start: usize = 0;
    let mut best_len: usize = 0;
    let mut run_start: usize = 0;
    let mut run_len: usize = 0;
    let mut i: usize = 0;
    while i < 8
        invariant
            i <= 8,
            groups@.len() == 8,
            run_start + run_len == i,
            zeros(groups@, run_start as int, run_len as int),
            run_start > 0 ==> groups@[run_start - 1] != 0,
            zeros(groups@, best_start as int, best_len as int),
            best_start + best_len <= i,
            forall|s: int, l: int|
                #[trigger] zeros(groups@, s, l) && s + l <= i ==> l < best_len || (l == best_len && s
                    >= best_start),
        decreases 8 - i,
    {
        if groups[i] == 0 {
            run_len = run_len + 1;
            if run_len > best_len {
                best_start = run_start;
                best_len = run_len;
            }
            proof {
                assert forall|s: int, l: int| #[trigger] zeros(groups@, s, l) && s + l <= i + 1 implies l
                    < best_len || (l == best_len && s >= best_start) by {
                    if s + l == i + 1 && l > 0 {
                        if s < run_start {
                            assert(groups@[run_start - 1] == 0);
                        }
                    }
                }
            }
        } else {
            proof {
                assert forall|s: int, l: int| #[trigger] zeros(groups@, s, l) && s + l <= i + 1 implies l
                    < best_len || (l == best_len && s >= best_start) by {
                    if s + l == i + 1 && l > 0 {
                        assert(groups@[i as int] == 0);
                    }
                }
            }
            run_start = i + 1;
            run_len = 0;
        }
        i = i + 1;
    }
    (best_start, best_len)
}

/// Writes an address as the standard library spells it.
pub fn spell_ip(address: IpAddr) -> (s: String)
    ensures
        s@ == ip_spelling(address),
{
    match address {
        IpAddr::V4(bits) => spell_v4(bits),
        IpAddr::V6(bits) => {
            let g = groups_array(bits);
            if g[0] == 0 && g[1] == 0 && g[2] == 0 && g[3] == 0 && g[4] == 0 && g[5] == 0xffff {
                let prefix = "::ffff:";
                proof {
                    reveal_strlit("::ffff:");
                }
                let mut s = String::from_str(prefix);
                let tail = spell_v4((bits & 0xffff_ffff) as u32);
                s.append(tail.as_str());
                return s;
            }
            let (start, len) = longest_run(&g);
            proof {
                let choice = choose|start: int, len: int| longest_zeros(groups_of(bits), start, len);
                assert(longest_zeros(groups_of(bits), choice.0, choice.1));
                assert(zeros(groups_of(bits), choice.0, choice.1));
                assert(zeros(groups_of(bits), start as int, len as int));
            }
            if len > 1 {
                let mut s = spell_groups(&g, 0, start);
                let gap = "::";
                proof {
                    reveal_strlit("::");
                }
                s.append(gap);
                let rest = spell_groups(&g, start + len, 8);
                s.append(rest.as_str());
                s
            } else {
                let s = spell_groups(&g, 0, 8);
                proof {
                    assert(g@.subrange(0, 8) =~= g@);
                }
                s
            }
        },
    }
}

/// The spelling of a block: its address, a slash, and the prefix length in decimal.
pub open spec fn cidr_spelling(network: IpAddr, prefix_len: u8) -> Seq<char> {
    ip_spelling(network) + seq!['/'] + decimal_text(prefix_len as nat)
}

/// Writes a block as `network/prefix`.
pub fn spell_cidr(network: IpAddr, prefix_len: u8) -> (s: String)
    ensures
        s@ == cidr_spelling(network, prefix_len),
{
    let mut s = spell_ip(network);
    let slash = "/";
    proof {
        reveal_strlit("/");
    }
    s.append(slash);
    let prefix = decimal(prefix_len as u32);
    s.append(prefix.as_str());
    s
}

} // verus!
