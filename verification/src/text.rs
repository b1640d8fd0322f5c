//! Reading numbers and addresses from text, byte by byte.
//!
//! Configuration files and bundled tables spell addresses and numbers as text. What each
//! spelling means is stated here as a small grammar, and the readers are proved to accept
//! exactly that grammar: an unsigned number is an optional `+` and decimal digits; an IPv4
//! address is four dot-separated decimal octets without leading zeros; an IPv6 address is
//! colon-separated groups of one to four hex digits, with at most one `::` standing for
//! one or more zero groups and an optional dotted quad in the last two groups.

use crate::address::{groups_value, IpAddr};
use vstd::prelude::*;
use vstd::string::StringSliceAdditionalSpecFns;
use vstd::utf8::{
    encode_utf8_valid_utf8, is_char_boundary, is_char_boundary_iff_not_is_continuation_byte,
    is_char_boundary_start_end_of_seq, is_continuation_byte, length_of_first_scalar, valid_utf8,
    valid_utf8_split,
};

verus! {

/// Whether `b` is an ASCII decimal digit.
pub open spec fn is_digit(b: u8) -> bool {
    48 <= b <= 57
}

/// The value of an ASCII hex digit of either case.
pub open spec fn hex_digit(b: u8) -> Option<nat> {
    if 48 <= b <= 57 {
        Some((b - 48) as nat)
    } else if 97 <= b <= 102 {
        Some((b - 87) as nat)
    } else if 65 <= b <= 70 {
        Some((b - 55) as nat)
    } else {
        None
    }
}

/// Whether every byte of `s` is a decimal digit.
pub open spec fn all_digits(s: Seq<u8>) -> bool {
    forall|i: int| 0 <= i < s.len() ==> is_digit(#[trigger] s[i])
}

/// Whether every byte of `s` is a hex digit.
pub open spec fn all_hex(s: Seq<u8>) -> bool {
    forall|i: int| 0 <= i < s.len() ==> (#[trigger] hex_digit(s[i])) is Some
}

/// The number decimal digits `s` spell.
pub open spec fn decimal_value(s: Seq<u8>) -> nat
    decreases s.len(),
{
    if s.len() == 0 {
        0
    } else {
        decimal_value(s.drop_last()) * 10 + (s.last() - 48) as nat
    }
}

/// The number hex digits `s` spell.
pub open spec fn hex_value(s: Seq<u8>) -> nat
    decreases s.len(),
{
    if s.len() == 0 {
        0
    } else {
        hex_value(s.drop_last()) * 16 + match hex_digit(s.last()) {
            Some(d) => d,
            None => 0,
        }
    }
}

/// The unsigned number `s` spells: an optional `+`, then one or more decimal digits,
/// leading zeros allowed.
pub open spec fn unsigned_text(s: Seq<u8>) -> Option<nat> {
    let digits = if s.len() > 0 && s[0] == 43 {
        s.skip(1)
    } else {
        s
    };
    if digits.len() > 0 && all_digits(digits) {
        Some(decimal_value(digits))
    } else {
        None
    }
}

/// `s` cut at every `sep`: one more part than there are separators, empty parts included.
pub open spec fn split_on(s: Seq<u8>, sep: u8) -> Seq<Seq<u8>>
    decreases s.len(),
{
    if s.len() == 0 {
        seq![Seq::<u8>::empty()]
    } else {
        let earlier = split_on(s.drop_last(), sep);
        if s.last() == sep {
            earlier.push(Seq::<u8>::empty())
        } else {
            earlier.update(earlier.len() - 1, earlier.last().push(s.last()))
        }
    }
}

/// An octet of a dotted quad: one to three decimal digits, no leading zero unless the
/// octet is `0` itself, at most 255.
pub open spec fn octet_text(p: Seq<u8>) -> Option<u8> {
    if 1 <= p.len() <= 3 && all_digits(p) && !(p.len() > 1 && p[0] == 48) && decimal_value(p)
        <= 255 {
        Some(decimal_value(p) as u8)
    } else {
        None
    }
}

/// The IPv4 address a dotted quad spells, as its 32 bits.
pub open spec fn dotted_text(p: Seq<u8>) -> Option<u32> {
    let parts = split_on(p, 46);
    if parts.len() == 4 && octet_text(parts[0]) is Some && octet_text(parts[1]) is Some
        && octet_text(parts[2]) is Some && octet_text(parts[3]) is Some {
        Some(
            (octet_text(parts[0])->0 * 0x100_0000 + octet_text(parts[1])->0 * 0x1_0000
                + octet_text(parts[2])->0 * 0x100 + octet_text(parts[3])->0) as u32,
        )
    } else {
        None
    }
}

proof fn lemma_decimal_monotone(s: Seq<u8>, d: u8)
    requires
        is_digit(d),
    ensures
        decimal_value(s.push(d)) >= decimal_value(s),
        decimal_value(s.push(d)) == decimal_value(s) * 10 + (d - 48),
{
    assert(s.push(d).drop_last() =~= s);
}

/// The number the decimal digits of `s` spell, capped at one more than `max`.
fn decimal_capped(s: &[u8], lo: usize, hi: usize, max: u64) -> (r: u64)
    requires
        lo <= hi <= s@.len(),
        max < 0x1_0000_0000,
        all_digits(s@.subrange(lo as int, hi as int)),
    ensures
        decimal_value(s@.subrange(lo as int, hi as int)) <= max ==> r == decimal_value(
            s@.subrange(lo as int, hi as int),
        ),
        decimal_value(s@.subrange(lo as int, hi as int)) > max ==> r == max + 1,
{
    let mut acc: u64 = 0;
    let mut i: usize = lo;
    proof {
        assert(s@.subrange(lo as int, lo as int) =~= Seq::<u8>::empty());
    }
    while i < hi
        invariant
            lo <= i <= hi <= s@.len(),
            max < 0x1_0000_0000,
            all_digits(s@.subrange(lo as int, hi as int)),
            decimal_value(s@.subrange(lo as int, i as int)) <= max ==> acc == decimal_value(
                s@.subrange(lo as int, i as int),
            ),
            decimal_value(s@.subrange(lo as int, i as int)) > max ==> acc == max + 1,
        decreases hi - i,
    {
        let d = s[i];
        proof {
            assert(s@.subrange(lo as int, hi as int)[i - lo] == d);
            assert(s@.subrange(lo as int, i + 1) =~= s@.subrange(lo as int, i as int).push(d));
            lemma_decimal_monotone(s@.subrange(lo as int, i as int), d);
        }
        if acc <= max {
            let next = acc * 10 + (d - 48) as u64;
            acc = if next > max {
                max + 1
            } else {
                next
            };
        }
        i = i + 1;
    }
    acc
}

/// Whether the bytes of `s` from `lo` to `hi` are all decimal digits.
fn digits_only(s: &[u8], lo: usize, hi: usize) -> (b: bool)
    requires
        lo <= hi <= s@.len(),
    ensures
        b == all_digits(s@.subrange(lo as int, hi as int)),
{
    let mut i: usize = lo;
    while i < hi
        invariant
            lo <= i <= hi <= s@.len(),
            forall|k: int| lo <= k < i ==> is_digit(#[trigger] s@[k]),
        decreases hi - i,
    {
        if s[i] < 48 || s[i] > 57 {
            assert(s@.subrange(lo as int, hi as int)[i - lo] == s@[i as int]);
            return false;
        }
        i = i + 1;
    }
    assert forall|k: int| 0 <= k < hi - lo implies is_digit(
        #[trigger] s@.subrange(lo as int, hi as int)[k],
    ) by {
        assert(s@.subrange(lo as int, hi as int)[k] == s@[lo + k]);
    }
    true
}

/// Reads the unsigned number `s` spells, refusing one above `max`.
pub fn parse_unsigned(s: &[u8], max: u64) -> (r: Option<u64>)
    requires
        max < 0x1_0000_0000,
    ensures
        match unsigned_text(s@) {
            Some(n) => if n <= max {
                r == Some(n as u64)
            } else {
                r is None
            },
            None => r is None,
        },
{
    let lo: usize = if s.len() > 0 && s[0] == 43 {
        1
    } else {
        0
    };
    proof {
        if lo == 1 {
            assert(s@.skip(1) =~= s@.subrange(1, s@.len() as int));
        } else {
            assert(s@ =~= s@.subrange(0, s@.len() as int));
        }
    }
    if lo == s.len() || !digits_only(s, lo, s.len()) {
        return None;
    }
    let value = decimal_capped(s, lo, s.len(), max);
    if value > max {
        None
    } else {
        Some(value)
    }
}

/// The bytes of `s` from `lo` to `hi`.
pub(crate) fn segment(s: &[u8], lo: usize, hi: usize) -> (v: Vec<u8>)
    requires
        lo <= hi <= s@.len(),
    ensures
        v@ == s@.subrange(lo as int, hi as int),
{
    let mut v: Vec<u8> = Vec::new();
    let mut i: usize = lo;
    while i < hi
        invariant
            lo <= i <= hi <= s@.len(),
            v@ == s@.subrange(lo as int, i as int),
        decreases hi - i,
    {
        v.push(s[i]);
        i = i + 1;
        assert(v@ =~= s@.subrange(lo as int, i as int));
    }
    v
}

/// `s` cut at every `sep`.
pub(crate) fn split_bytes(s: &[u8], sep: u8) -> (parts: Vec<Vec<u8>>)
    ensures
        parts@.len() == split_on(s@, sep).len(),
        forall|k: int| 0 <= k < parts@.len() ==> (#[trigger] parts@[k])@ == split_on(s@, sep)[k],
{
    let mut parts: Vec<Vec<u8>> = Vec::new();
    let mut start: usize = 0;
    let mut i: usize = 0;
    proof {
        assert(s@.take(0) =~= Seq::<u8>::empty());
        assert(s@.subrange(0, 0) =~= Seq::<u8>::empty());
    }
    while i < s.len()
        invariant
            start <= i <= s@.len(),
            split_on(s@.take(i as int), sep).len() == parts@.len() + 1,
            forall|k: int|
                0 <= k < parts@.len() ==> (#[trigger] parts@[k])@ == split_on(s@.take(i as int), sep)[k],
            split_on(s@.take(i as int), sep).last() == s@.subrange(start as int, i as int),
        decreases s@.len() - i,
    {
        proof {
            assert(s@.take(i + 1).drop_last() =~= s@.take(i as int));
            assert(s@.take(i + 1).last() == s@[i as int]);
        }
        if s[i] == sep {
            let part = segment(s, start, i);
            parts.push(part);
            start = i + 1;
            proof {
                assert(s@.subrange(start as int, i + 1) =~= Seq::<u8>::empty());
            }
        } else {
            proof {
                assert(s@.subrange(start as int, i + 1) =~= s@.subrange(start as int, i as int).push(
                    s@[i as int],
                ));
            }
        }
        i = i + 1;
    }
    let last = segment(s, start, s.len());
    parts.push(last);
    proof {
        assert(s@.take(s@.len() as int) =~= s@);
    }
    parts
}

/// Reads an octet of a dotted quad.
fn parse_octet(p: &[u8]) -> (r: Option<u8>)
    ensures
        r == octet_text(p@),
{
    if p.len() < 1 || p.len() > 3 || !digits_only(p, 0, p.len()) {
        proof {
            assert(p@.subrange(0, p@.len() as int) =~= p@);
        }
        return None;
    }
    proof {
        assert(p@.subrange(0, p@.len() as int) =~= p@);
    }
    if p.len() > 1 && p[0] == 48 {
        return None;
    }
    let value = decimal_capped(p, 0, p.len(), 255);
    if value > 255 {
        None
    } else {
        Some(value as u8)
    }
}

/// Reads the IPv4 address a dotted quad spells.
pub fn parse_dotted(p: &[u8]) -> (r: Option<u32>)
    ensures
        r == dotted_text(p@),
{
    let parts = split_bytes(p, 46);
    if parts.len() != 4 {
        return None;
    }
    let a = match parse_octet(parts[0].as_slice()) {
        Some(a) => a,
        None => {
            return None;
        },
    };
    let b = match parse_octet(parts[1].as_slice()) {
        Some(b) => b,
        None => {
            return None;
        },
    };
    let c = match parse_octet(parts[2].as_slice()) {
        Some(c) => c,
        None => {
            return None;
        },
    };
    let d = match parse_octet(parts[3].as_slice()) {
        Some(d) => d,
        None => {
            return None;
        },
    };
    Some((a as u32) * 0x100_0000 + (b as u32) * 0x1_0000 + (c as u32) * 0x100 + d as u32)
}

/// One group of an IPv6 address: one to four hex digits of either case.
pub open spec fn hextet_text(p: Seq<u8>) -> Option<u16> {
    if 1 <= p.len() <= 4 && all_hex(p) {
        Some(hex_value(p) as u16)
    } else {
        None
    }
}

/// The groups that `parts` spell, one group each.
pub open spec fn hextets_text(parts: Seq<Seq<u8>>) -> Option<Seq<u16>>
    decreases parts.len(),
{
    if parts.len() == 0 {
        Some(Seq::empty())
    } else {
        match (hextets_text(parts.drop_last()), hextet_text(parts.last())) {
            (Some(groups), Some(last)) => Some(groups.push(last)),
            _ => None,
        }
    }
}

/// The groups that `parts` spell, where the last part may instead be a dotted quad
/// standing for the final two groups.
pub open spec fn groups_text(parts: Seq<Seq<u8>>) -> Option<Seq<u16>> {
    if parts.len() > 0 && dotted_text(parts.last()) is Some {
        let quad = dotted_text(parts.last())->0;
        match hextets_text(parts.drop_last()) {
            Some(groups) => Some(groups.push((quad / 0x1_0000) as u16).push((quad % 0x1_0000) as u16)),
            None => None,
        }
    } else {
        hextets_text(parts)
    }
}

/// Whether a `::` begins at `i` in `s`.
pub open spec fn double_colon(s: Seq<u8>, i: int) -> bool {
    0 <= i && i + 1 < s.len() && s[i] == 58 && s[i + 1] == 58
}

/// Where the first `::` of `s` begins, if there is one.
pub open spec fn first_double_colon(s: Seq<u8>) -> Option<int> {
    if exists|i: int| #[trigger] double_colon(s, i) {
        Some(choose|i: int| #[trigger] double_colon(s, i) && forall|j: int| 0 <= j < i ==> !double_colon(s, j))
    } else {
        None
    }
}

/// The eight groups an IPv6 spelling stands for.
///
/// Without `::` the parts must spell exactly eight groups. With one, the parts before it
/// are plain groups, the parts after it may end in a dotted quad, and together they leave
/// at least one group for the `::` to fill with zeros; a second `::` leaves an empty part,
/// which spells nothing.
pub open spec fn v6_text(s: Seq<u8>) -> Option<Seq<u16>> {
    match first_double_colon(s) {
        None => uncompressed_text(s),
        Some(i) => compressed_text(s, i),
    }
}

/// The eight groups a spelling without `::` stands for.
pub open spec fn uncompressed_text(s: Seq<u8>) -> Option<Seq<u16>> {
    match groups_text(split_on(s, 58)) {
        Some(groups) => if groups.len() == 8 {
            Some(groups)
        } else {
            None
        },
        None => None,
    }
}

/// The eight groups a spelling stands for whose first `::` begins at `i`.
pub open spec fn compressed_text(s: Seq<u8>, i: int) -> Option<Seq<u16>> {
    let head = s.take(i);
    let tail = s.skip(i + 2);
    let h = if head.len() == 0 {
        Some(Seq::<u16>::empty())
    } else {
        hextets_text(split_on(head, 58))
    };
    let t = if tail.len() == 0 {
        Some(Seq::<u16>::empty())
    } else {
        groups_text(split_on(tail, 58))
    };
    match (h, t) {
        (Some(h), Some(t)) => if h.len() + t.len() <= 7 {
            Some(h + Seq::new((8 - h.len() - t.len()) as nat, |k: int| 0u16) + t)
        } else {
            None
        },
        _ => None,
    }
}

/// The address a spelling stands for: a dotted quad, else an IPv6 spelling.
pub open spec fn ip_text(s: Seq<u8>) -> Option<IpAddr> {
    match dotted_text(s) {
        Some(bits) => Some(IpAddr::V4(bits)),
        None => match v6_text(s) {
            Some(groups) => Some(IpAddr::V6(groups_value(groups, 8) as u128)),
            None => None,
        },
    }
}

/// The contents of each of `parts`.
pub open spec fn contents(parts: Seq<Vec<u8>>) -> Seq<Seq<u8>> {
    parts.map_values(|p: Vec<u8>| p@)
}

proof fn lemma_hex_value_push(s: Seq<u8>, d: u8)
    requires
        hex_digit(d) is Some,
    ensures
        hex_value(s.push(d)) == hex_value(s) * 16 + hex_digit(d)->0,
{
    assert(s.push(d).drop_last() =~= s);
}

proof fn lemma_hex_value_bound(s: Seq<u8>)
    requires
        all_hex(s),
    ensures
        hex_value(s) < pow16(s.len()),
    decreases s.len(),
{
    if s.len() > 0 {
        assert(all_hex(s.drop_last())) by {
            assert forall|i: int| 0 <= i < s.drop_last().len() implies (#[trigger] hex_digit(
                s.drop_last()[i],
            )) is Some by {
                assert(s.drop_last()[i] == s[i]);
            }
        }
        lemma_hex_value_bound(s.drop_last());
        assert(hex_digit(s[s.len() - 1]) is Some);
        let d = hex_digit(s.last())->0;
        assert(d < 16);
        assert(hex_value(s) == hex_value(s.drop_last()) * 16 + d);
        assert(hex_value(s.drop_last()) * 16 + d < pow16(s.len())) by (nonlinear_arith)
            requires
                hex_value(s.drop_last()) < pow16(s.drop_last().len()),
                d < 16,
                pow16(s.len()) == pow16(s.drop_last().len()) * 16,
        ;
    }
}

/// 16 to the `n`.
pub open spec fn pow16(n: nat) -> nat
    decreases n,
{
    if n == 0 {
        1
    } else {
        pow16((n - 1) as nat) * 16
    }
}

/// Reads one group of an IPv6 address.
fn parse_hextet(p: &[u8]) -> (r: Option<u16>)
    ensures
        r == hextet_text(p@),
{
    if p.len() < 1 || p.len() > 4 {
        return None;
    }
    let mut value: u32 = 0;
    let mut i: usize = 0;
    proof {
        assert(p@.take(0) =~= Seq::<u8>::empty());
        reveal_with_fuel(pow16, 5);
    }
    while i < p.len()
        invariant
            i <= p@.len() <= 4,
            all_hex(p@.take(i as int)),
            value == hex_value(p@.take(i as int)),
            value < pow16(i as nat),
            pow16(4) == 0x1_0000,
        decreases p@.len() - i,
    {
        let b = p[i];
        let digit: u32 = if 48 <= b && b <= 57 {
            (b - 48) as u32
        } else if 97 <= b && b <= 102 {
            (b - 87) as u32
        } else if 65 <= b && b <= 70 {
            (b - 55) as u32
        } else {
            proof {
                assert(hex_digit(p@[i as int]) is None);
            }
            return None;
        };
        proof {
            assert(p@.take(i + 1) =~= p@.take(i as int).push(b));
            lemma_hex_value_push(p@.take(i as int), b);
            assert(pow16(i as nat + 1) == pow16(i as nat) * 16);
            assert(value * 16 + digit < pow16(i as nat + 1)) by (nonlinear_arith)
                requires
                    value < pow16(i as nat),
                    digit < 16,
                    pow16(i as nat + 1) == pow16(i as nat) * 16,
            ;
            assert forall|k: int| 0 <= k < i + 1 implies (#[trigger] hex_digit(p@.take(i + 1)[k])) is Some by {
                if k < i {
                    assert(p@.take(i + 1)[k] == p@.take(i as int)[k]);
                }
            }
            assert(pow16(i as nat + 1) <= pow16(4)) by {
                reveal_with_fuel(pow16, 5);
            }
        }
        value = value * 16 + digit;
        i = i + 1;
    }
    proof {
        assert(p@.take(p@.len() as int) =~= p@);
        reveal_with_fuel(pow16, 5);
    }
    Some(value as u16)
}

proof fn lemma_hextets_fail(parts: Seq<Seq<u8>>, k: int)
    requires
        0 <= k <= parts.len(),
        hextets_text(parts.take(k)) is None,
    ensures
        hextets_text(parts) is None,
    decreases parts.len() - k,
{
    if k < parts.len() {
        assert(parts.take(k + 1).drop_last() =~= parts.take(k));
        lemma_hextets_fail(parts, k + 1);
    } else {
        assert(parts.take(k) =~= parts);
    }
}

/// Reads the groups `parts[..end]` spell, one group each.
fn parse_hextets(parts: &Vec<Vec<u8>>, end: usize) -> (r: Option<Vec<u16>>)
    requires
        end <= parts@.len(),
    ensures
        match hextets_text(contents(parts@).take(end as int)) {
            Some(groups) => r matches Some(v) && v@ == groups,
            None => r is None,
        },
{
    let ghost all = contents(parts@).take(end as int);
    let mut groups: Vec<u16> = Vec::new();
    let mut k: usize = 0;
    proof {
        assert(all.take(0) =~= Seq::<Seq<u8>>::empty());
    }
    while k < end
        invariant
            k <= end <= parts@.len(),
            all == contents(parts@).take(end as int),
            hextets_text(all.take(k as int)) == Some(groups@),
        decreases end - k,
    {
        proof {
            assert(all.take(k + 1).drop_last() =~= all.take(k as int));
            assert(all.take(k + 1).last() == parts@[k as int]@);
        }
        match parse_hextet(parts[k].as_slice()) {
            Some(g) => {
                groups.push(g);
            },
            None => {
                proof {
                    lemma_hextets_fail(all, k + 1);
                }
                return None;
            },
        }
        k = k + 1;
    }
    proof {
        assert(all.take(end as int) =~= all);
    }
    Some(groups)
}

/// Reads the groups `parts` spell, where the last part may be a dotted quad.
fn parse_groups(parts: &Vec<Vec<u8>>) -> (r: Option<Vec<u16>>)
    ensures
        match groups_text(contents(parts@)) {
            Some(groups) => r matches Some(v) && v@ == groups,
            None => r is None,
        },
{
    let n = parts.len();
    proof {
        assert(contents(parts@).take(n as int) =~= contents(parts@));
    }
    if n > 0 {
        proof {
            assert(contents(parts@).last() == parts@[n - 1]@);
            assert(contents(parts@).drop_last() =~= contents(parts@).take(n - 1));
        }
        match parse_dotted(parts[n - 1].as_slice()) {
            Some(quad) => {
                let mut groups = match parse_hextets(parts, n - 1) {
                    Some(groups) => groups,
                    None => {
                        return None;
                    },
                };
                groups.push((quad / 0x1_0000) as u16);
                groups.push((quad % 0x1_0000) as u16);
                return Some(groups);
            },
            None => {},
        }
    }
    parse_hextets(parts, n)
}

/// Where the first `::` of `s` begins.
fn find_double_colon(s: &[u8]) -> (r: Option<usize>)
    ensures
        r matches Some(i) ==> first_double_colon(s@) == Some(i as int) && i + 2 <= s@.len(),
        r is None ==> first_double_colon(s@) is None,
{
    let mut i: usize = 0;
    while s.len() > 1 && i < s.len() - 1
        invariant
            forall|j: int| 0 <= j < i ==> !double_colon(s@, j),
        decreases s@.len() - i,
    {
        if s[i] == 58 && s[i + 1] == 58 {
            proof {
                assert(double_colon(s@, i as int));
                let c = choose|c: int| #[trigger] double_colon(s@, c) && forall|j: int| 0 <= j < c ==> !double_colon(s@, j);
                if c < i {
                } else if c > i {
                    assert(!double_colon(s@, i as int));
                }
            }
            return Some(i);
        }
        i = i + 1;
    }
    proof {
        assert forall|j: int| !#[trigger] double_colon(s@, j) by {
            if 0 <= j < i {
            }
        }
    }
    None
}

/// The groups of `h`, then zeros, then the groups of `t`, eight in all.
fn padded(h: &Vec<u16>, t: &Vec<u16>) -> (g: [u16; 8])
    requires
        h@.len() + t@.len() <= 7,
    ensures
        g@ == h@ + Seq::new((8 - h@.len() - t@.len()) as nat, |k: int| 0u16) + t@,
{
    let mut all: Vec<u16> = Vec::new();
    let mut i: usize = 0;
    while i < h.len()
        invariant
            i <= h@.len(),
            all@ == h@.take(i as int),
        decreases h@.len() - i,
    {
        all.push(h[i]);
        i = i + 1;
        assert(all@ =~= h@.take(i as int));
    }
    let zeros = 8 - h.len() - t.len();
    let mut z: usize = 0;
    while z < zeros
        invariant
            z <= zeros,
            zeros == 8 - h@.len() - t@.len(),
            all@ == h@ + Seq::new(z as nat, |k: int| 0u16),
        decreases zeros - z,
    {
        all.push(0);
        z = z + 1;
        assert(all@ =~= h@ + Seq::new(z as nat, |k: int| 0u16));
    }
    let mut j: usize = 0;
    while j < t.len()
        invariant
            j <= t@.len(),
            zeros == 8 - h@.len() - t@.len(),
            all@ == h@ + Seq::new(zeros as nat, |k: int| 0u16) + t@.take(j as int),
        decreases t@.len() - j,
    {
        all.push(t[j]);
        j = j + 1;
        assert(all@ =~= h@ + Seq::new(zeros as nat, |k: int| 0u16) + t@.take(j as int));
    }
    assert(all@ =~= h@ + Seq::new(zeros as nat, |k: int| 0u16) + t@);
    let g = [all[0], all[1], all[2], all[3], all[4], all[5], all[6], all[7]];
    assert(g@ =~= all@);
    g
}

/// Reads the eight groups a spelling without `::` stands for.
fn parse_uncompressed(s: &[u8]) -> (r: Option<[u16; 8]>)
    ensures
        match uncompressed_text(s@) {
            Some(groups) => r matches Some(g) && g@ == groups,
            None => r is None,
        },
{
    let parts = split_bytes(s, 58);
    proof {
        assert(contents(parts@) =~= split_on(s@, 58));
    }
    let groups = match parse_groups(&parts) {
        Some(groups) => groups,
        None => {
            return None;
        },
    };
    if groups.len() != 8 {
        return None;
    }
    let g = [groups[0], groups[1], groups[2], groups[3], groups[4], groups[5], groups[6], groups[7]];
    assert(g@ =~= groups@);
    Some(g)
}

/// Reads the eight groups a spelling stands for whose first `::` begins at `i`.
fn parse_compressed(s: &[u8], i: usize) -> (r: Option<[u16; 8]>)
    requires
        i + 2 <= s@.len(),
    ensures
        match compressed_text(s@, i as int) {
            Some(groups) => r matches Some(g) && g@ == groups,
            None => r is None,
        },
{
    let n = s.len();
    let head = segment(s, 0, i);
    let tail = segment(s, i + 2, n);
    proof {
        assert(head@ =~= s@.take(i as int));
        assert(tail@ =~= s@.skip(i + 2));
    }
    let h = if head.len() == 0 {
        Vec::new()
    } else {
        let parts = split_bytes(head.as_slice(), 58);
        proof {
            assert(contents(parts@) =~= split_on(head@, 58));
            assert(contents(parts@).take(parts@.len() as int) =~= contents(parts@));
        }
        match parse_hextets(&parts, parts.len()) {
            Some(h) => h,
            None => {
                return None;
            },
        }
    };
    let t = if tail.len() == 0 {
        Vec::new()
    } else {
        let parts = split_bytes(tail.as_slice(), 58);
        proof {
            assert(contents(parts@) =~= split_on(tail@, 58));
        }
        match parse_groups(&parts) {
            Some(t) => t,
            None => {
                return None;
            },
        }
    };
    if h.len() > 7 || t.len() > 7 - h.len() {
        return None;
    }
    Some(padded(&h, &t))
}

/// Reads the eight groups an IPv6 spelling stands for.
pub fn parse_v6(s: &[u8]) -> (r: Option<[u16; 8]>)
    ensures
        match v6_text(s@) {
            Some(groups) => r matches Some(g) && g@ == groups,
            None => r is None,
        },
{
    match find_double_colon(s) {
        None => parse_uncompressed(s),
        Some(i) => parse_compressed(s, i),
    }
}

/// Reads the address a spelling stands for: a dotted quad, else an IPv6 spelling.
pub fn parse_ip(s: &[u8]) -> (r: Option<IpAddr>)
    ensures
        r == ip_text(s@),
{
    match parse_dotted(s) {
        Some(bits) => Some(IpAddr::V4(bits)),
        None => match parse_v6(s) {
            Some(groups) => Some(IpAddr::v6(groups)),
            None => None,
        },
    }
}

/// The text of `s` is well-formed UTF-8, as every string's is.
pub proof fn lemma_text_bytes(s: &str)
    ensures
        valid_utf8(s.spec_bytes()),
        is_char_boundary(s.spec_bytes(), 0),
        is_char_boundary(s.spec_bytes(), s.spec_bytes().len() as int),
{
    encode_utf8_valid_utf8(s@);
    is_char_boundary_start_end_of_seq(s.spec_bytes());
}

/// Within well-formed text, a position starts a character exactly when it is the end or
/// its byte is not a continuation byte.
pub proof fn lemma_boundary(b: Seq<u8>, i: int)
    requires
        valid_utf8(b),
        0 <= i <= b.len(),
    ensures
        is_char_boundary(b, i) <==> (i == b.len() || !is_continuation_byte(b[i])),
{
    if i == b.len() {
        is_char_boundary_start_end_of_seq(b);
    } else {
        is_char_boundary_iff_not_is_continuation_byte(b, i);
    }
}

/// The character starting at a boundary ends at one: its length is read off its first byte.
pub proof fn lemma_boundary_after(b: Seq<u8>, i: int)
    requires
        valid_utf8(b),
        0 <= i < b.len(),
        is_char_boundary(b, i),
    ensures
        i + length_of_first_scalar(b.subrange(i, b.len() as int)) <= b.len(),
        is_char_boundary(b, i + length_of_first_scalar(b.subrange(i, b.len() as int))),
{
    let rest = b.subrange(i, b.len() as int);
    valid_utf8_split(b, i);
    assert(valid_utf8(rest));
    let w = length_of_first_scalar(rest);
    reveal_with_fuel(valid_utf8, 2);
    assert(w <= rest.len());
    reveal_with_fuel(is_char_boundary, 2);
    assert(is_char_boundary(rest, w));
    lemma_boundary(rest, w);
    lemma_boundary(b, i + w);
    if i + w < b.len() {
        assert(rest[w] == b[i + w]);
    }
}

/// The bytes of `s` from `lo` to `hi`, as text, when both are character boundaries.
pub(crate) fn piece(s: &str, lo: usize, hi: usize) -> (r: &str)
    requires
        lo <= hi <= s.spec_bytes().len(),
        is_char_boundary(s.spec_bytes(), lo as int),
        is_char_boundary(s.spec_bytes(), hi as int),
    ensures
        r.spec_bytes() == s.spec_bytes().subrange(lo as int, hi as int),
{
    proof {
        lemma_text_bytes(s);
    }
    let (front, _) = s.split_at(hi);
    proof {
        lemma_text_bytes(front);
        let b = s.spec_bytes();
        assert(front.spec_bytes() == b.subrange(0, hi as int));
        lemma_boundary(b, lo as int);
        lemma_boundary(front.spec_bytes(), lo as int);
        if lo < hi {
            assert(front.spec_bytes()[lo as int] == b[lo as int]);
        }
    }
    let (_, r) = front.split_at(lo);
    assert(r.spec_bytes() =~= s.spec_bytes().subrange(lo as int, hi as int));
    r
}

/// How long the encoding of a Unicode white-space character starting at `i` is, where
/// one lies wholly before `hi`; zero where none does.
///
/// The characters are those with the White_Space property: tab to carriage return,
/// space, next line, no-break space, ogham space mark, the spaces from en quad to hair
/// space, line and paragraph separators, narrow no-break space, medium mathematical space
/// and ideographic space.
pub open spec fn white_at(b: Seq<u8>, i: int, hi: int) -> int {
    if 0 <= i < hi && (9 <= b[i] <= 13 || b[i] == 32) {
        1
    } else if 0 <= i && i + 1 < hi && b[i] == 0xC2 && (b[i + 1] == 0x85 || b[i + 1] == 0xA0) {
        2
    } else if 0 <= i && i + 2 < hi && ((b[i] == 0xE1 && b[i + 1] == 0x9A && b[i + 2] == 0x80) || (
    b[i] == 0xE2 && b[i + 1] == 0x80 && ((0x80 <= b[i + 2] <= 0x8A) || b[i + 2] == 0xA8 || b[i
        + 2] == 0xA9 || b[i + 2] == 0xAF)) || (b[i] == 0xE2 && b[i + 1] == 0x81 && b[i + 2] == 0x9F)
        || (b[i] == 0xE3 && b[i + 1] == 0x80 && b[i + 2] == 0x80)) {
        3
    } else {
        0
    }
}

/// How long the encoding of a white-space character ending at `j` is, where one lies
/// wholly at or after `lo`; zero where none does.
pub open spec fn white_before(b: Seq<u8>, lo: int, j: int) -> int {
    if j - 1 >= lo && white_at(b, j - 1, j) == 1 {
        1
    } else if j - 2 >= lo && white_at(b, j - 2, j) == 2 {
        2
    } else if j - 3 >= lo && white_at(b, j - 3, j) == 3 {
        3
    } else {
        0
    }
}

/// Where the text from `i` to `hi` starts once leading white space is skipped.
pub open spec fn lead_end(b: Seq<u8>, i: int, hi: int) -> int
    decreases hi - i,
{
    if i < hi && white_at(b, i, hi) > 0 {
        lead_end(b, i + white_at(b, i, hi), hi)
    } else {
        i
    }
}

/// Where the text from `lo` to `j` ends once trailing white space is dropped.
pub open spec fn tail_end(b: Seq<u8>, lo: int, j: int) -> int
    decreases j - lo,
{
    if j > lo && white_before(b, lo, j) > 0 {
        tail_end(b, lo, j - white_before(b, lo, j))
    } else {
        j
    }
}

/// The part of `b` from `lo` to `hi` with white space trimmed from both ends.
pub open spec fn trimmed(b: Seq<u8>, lo: int, hi: int) -> Seq<u8> {
    let start = lead_end(b, lo, hi);
    b.subrange(start, tail_end(b, start, hi))
}

/// The length of the white-space character starting at `i`, within `hi`.
fn white_len(b: &[u8], i: usize, hi: usize) -> (w: usize)
    requires
        hi <= b@.len(),
    ensures
        w == white_at(b@, i as int, hi as int),
{
    if i < hi && ((9 <= b[i] && b[i] <= 13) || b[i] == 32) {
        return 1;
    }
    if i < hi && hi - i > 1 && b[i] == 0xC2 && (b[i + 1] == 0x85 || b[i + 1] == 0xA0) {
        return 2;
    }
    if i < hi && hi - i > 2 {
        let (x, y, z) = (b[i], b[i + 1], b[i + 2]);
        if (x == 0xE1 && y == 0x9A && z == 0x80) || (x == 0xE2 && y == 0x80 && ((0x80 <= z && z
            <= 0x8A) || z == 0xA8 || z == 0xA9 || z == 0xAF)) || (x == 0xE2 && y == 0x81 && z
            == 0x9F) || (x == 0xE3 && y == 0x80 && z == 0x80) {
            return 3;
        }
    }
    0
}

/// Where the text from `lo` to `hi` starts and ends once white space is trimmed.
pub(crate) fn trim_bounds(b: &[u8], lo: usize, hi: usize) -> (r: (usize, usize))
    requires
        lo <= hi <= b@.len(),
    ensures
        r.0 == lead_end(b@, lo as int, hi as int),
        r.1 == tail_end(b@, r.0 as int, hi as int),
        lo <= r.0 <= r.1 <= hi,
{
    let mut start = lo;
    while start < hi && white_len(b, start, hi) > 0
        invariant
            lo <= start <= hi <= b@.len(),
            lead_end(b@, lo as int, hi as int) == lead_end(b@, start as int, hi as int),
        decreases hi - start,
    {
        start = start + white_len(b, start, hi);
    }
    let mut end = hi;
    while end > start && (white_len(b, end - 1, end) == 1 || (end - start >= 2 && white_len(b, end - 2, end) == 2) || (end - start >= 3 && white_len(b, end - 3, end) == 3))
        invariant
            start <= end <= hi <= b@.len(),
            tail_end(b@, start as int, hi as int) == tail_end(b@, start as int, end as int),
        decreases end - start,
    {
        let w = if white_len(b, end - 1, end) == 1 {
            1
        } else if end - start >= 2 && white_len(b, end - 2, end) == 2 {
            2
        } else {
            3
        };
        end = end - w;
    }
    (start, end)
}

/// Trimming white space from text leaves character boundaries at both ends.
pub proof fn lemma_trim_boundaries(b: Seq<u8>, lo: int, hi: int)
    requires
        valid_utf8(b),
        0 <= lo <= hi <= b.len(),
        is_char_boundary(b, lo),
        is_char_boundary(b, hi),
    ensures
        is_char_boundary(b, lead_end(b, lo, hi)),
        is_char_boundary(b, tail_end(b, lead_end(b, lo, hi), hi)),
        lo <= lead_end(b, lo, hi) <= tail_end(b, lead_end(b, lo, hi), hi) <= hi,
{
    lemma_lead_end(b, lo, hi);
    lemma_tail_end(b, lead_end(b, lo, hi), hi);
}

proof fn lemma_lead_end(b: Seq<u8>, i: int, hi: int)
    requires
        valid_utf8(b),
        0 <= i <= hi <= b.len(),
        is_char_boundary(b, i),
    ensures
        is_char_boundary(b, lead_end(b, i, hi)),
        i <= lead_end(b, i, hi) <= hi,
    decreases hi - i,
{
    let w = white_at(b, i, hi);
    if i < hi && w > 0 {
        lemma_boundary_after(b, i);
        let rest = b.subrange(i, b.len() as int);
        assert(rest[0] == b[i]);
        assert(length_of_first_scalar(rest) == w);
        lemma_lead_end(b, i + w, hi);
    }
}

proof fn lemma_tail_end(b: Seq<u8>, lo: int, j: int)
    requires
        valid_utf8(b),
        0 <= lo <= j <= b.len(),
        is_char_boundary(b, j),
    ensures
        is_char_boundary(b, tail_end(b, lo, j)),
        lo <= tail_end(b, lo, j) <= j,
    decreases j - lo,
{
    let w = white_before(b, lo, j);
    if j > lo && w > 0 {
        lemma_boundary(b, j - w);
        lemma_tail_end(b, lo, j - w);
    }
}

/// `p` without one trailing carriage return.
pub open spec fn without_cr(p: Seq<u8>) -> Seq<u8> {
    if p.len() > 0 && p.last() == 13 {
        p.drop_last()
    } else {
        p
    }
}

/// The lines of `b`, as a text file's lines are read: split at each line feed, a carriage
/// return before it dropped, and no empty line after a final line feed.
pub open spec fn lines_of(b: Seq<u8>) -> Seq<Seq<u8>> {
    let pieces = split_on(b, 10);
    let ended = pieces.take(pieces.len() - 1).map_values(|p: Seq<u8>| without_cr(p));
    if pieces.last().len() == 0 {
        ended
    } else {
        ended.push(pieces.last())
    }
}

pub proof fn lemma_split_nonempty(s: Seq<u8>, sep: u8)
    ensures
        split_on(s, sep).len() >= 1,
    decreases s.len(),
{
    if s.len() > 0 {
        lemma_split_nonempty(s.drop_last(), sep);
    }
}

/// Splitting a run free of the separator gives the run itself as the only part.
pub proof fn lemma_split_single(a: Seq<u8>, sep: u8)
    requires
        forall|i: int| 0 <= i < a.len() ==> a[i] != sep,
    ensures
        split_on(a, sep) == seq![a],
    decreases a.len(),
{
    if a.len() == 0 {
        assert(a =~= Seq::<u8>::empty());
    } else {
        lemma_split_single(a.drop_last(), sep);
        assert(a.drop_last().push(a.last()) =~= a);
        assert(seq![a.drop_last()].update(0, a.drop_last().push(a.last())) =~= seq![a]);
    }
}

/// The parts of `a`, a separator and `c` are the parts of `a` followed by those of `c`.
pub proof fn lemma_split_join(a: Seq<u8>, c: Seq<u8>, sep: u8)
    ensures
        split_on(a + seq![sep] + c, sep) == split_on(a, sep) + split_on(c, sep),
    decreases c.len(),
{
    let s = a + seq![sep] + c;
    if c.len() == 0 {
        assert(s =~= a.push(sep));
        assert(s.drop_last() =~= a);
        assert(split_on(c, sep) =~= seq![Seq::<u8>::empty()]);
        assert(split_on(a, sep).push(Seq::<u8>::empty()) =~= split_on(a, sep) + split_on(c, sep));
    } else {
        lemma_split_join(a, c.drop_last(), sep);
        assert(s.drop_last() =~= a + seq![sep] + c.drop_last());
        assert(s.last() == c.last());
        let front = split_on(a, sep);
        let back = split_on(c.drop_last(), sep);
        lemma_split_nonempty(c.drop_last(), sep);
        if c.last() == sep {
            assert((front + back).push(Seq::<u8>::empty()) =~= front + back.push(Seq::<u8>::empty()));
        } else {
            let joined = front + back;
            assert(joined.update(joined.len() - 1, joined.last().push(c.last())) =~= front + back.update(
                back.len() - 1,
                back.last().push(c.last()),
            ));
        }
    }
}

/// The first position at or after `from` holding `sep`, or the end where none does.
pub(crate) fn find_byte(b: &[u8], from: usize, sep: u8) -> (i: usize)
    requires
        from <= b@.len(),
    ensures
        from <= i <= b@.len(),
        forall|k: int| from <= k < i ==> b@[k] != sep,
        i < b@.len() ==> b@[i as int] == sep,
{
    let mut i = from;
    while i < b.len() && b[i] != sep
        invariant
            from <= i <= b@.len(),
            forall|k: int| from <= k < i ==> b@[k] != sep,
        decreases b@.len() - i,
    {
        i = i + 1;
    }
    i
}

/// Where each line of `s` starts and ends.
pub(crate) fn line_spans(s: &str) -> (spans: Vec<(usize, usize)>)
    ensures
        spans@.len() == lines_of(s.spec_bytes()).len(),
        forall|k: int|
            0 <= k < spans@.len() ==> {
                let (lo, hi) = #[trigger] spans@[k];
                &&& lo <= hi <= s.spec_bytes().len()
                &&& is_char_boundary(s.spec_bytes(), lo as int)
                &&& is_char_boundary(s.spec_bytes(), hi as int)
                &&& s.spec_bytes().subrange(lo as int, hi as int) == lines_of(s.spec_bytes())[k]
            },
{
    let b = s.as_bytes();
    let ghost bytes = s.spec_bytes();
    proof {
        lemma_text_bytes(s);
        assert(bytes.take(0) =~= Seq::<u8>::empty());
        assert(bytes.subrange(0, 0) =~= Seq::<u8>::empty());
    }
    let mut spans: Vec<(usize, usize)> = Vec::new();
    let mut start: usize = 0;
    let mut i: usize = 0;
    while i < b.len()
        invariant
            b@ == bytes,
            valid_utf8(bytes),
            start <= i <= bytes.len(),
            is_char_boundary(bytes, start as int),
            split_on(bytes.take(i as int), 10).len() == spans@.len() + 1,
            split_on(bytes.take(i as int), 10).last() == bytes.subrange(start as int, i as int),
            forall|k: int|
                0 <= k < spans@.len() ==> {
                    let (lo, hi) = #[trigger] spans@[k];
                    &&& lo <= hi <= bytes.len()
                    &&& is_char_boundary(bytes, lo as int)
                    &&& is_char_boundary(bytes, hi as int)
                    &&& bytes.subrange(lo as int, hi as int) == without_cr(split_on(bytes.take(i as int), 10)[k])
                },
        decreases bytes.len() - i,
    {
        let ghost before = split_on(bytes.take(i as int), 10);
        proof {
            assert(bytes.take(i + 1).drop_last() =~= bytes.take(i as int));
            assert(bytes.take(i + 1).last() == bytes[i as int]);
        }
        if b[i] == 10 {
            let end = if i > start && b[i - 1] == 13 {
                i - 1
            } else {
                i
            };
            proof {
                let piece = bytes.subrange(start as int, i as int);
                assert(before.last() == piece);
                if i > start && bytes[i - 1] == 13 {
                    assert(without_cr(piece) =~= bytes.subrange(start as int, end as int));
                    lemma_boundary(bytes, end as int);
                } else {
                    assert(without_cr(piece) =~= piece);
                    lemma_boundary(bytes, i as int);
                }
                lemma_boundary(bytes, i as int);
                lemma_boundary_after(bytes, i as int);
                assert(bytes.subrange(i as int, bytes.len() as int)[0] == 10);
            }
            spans.push((start, end));
            start = i + 1;
            proof {
                let after = split_on(bytes.take(i + 1), 10);
                assert(after == before.push(Seq::<u8>::empty()));
                assert(bytes.subrange(start as int, i + 1) =~= Seq::<u8>::empty());
                assert forall|k: int| 0 <= k < spans@.len() implies {
                    let (lo, hi) = #[trigger] spans@[k];
                    &&& lo <= hi <= bytes.len()
                    &&& is_char_boundary(bytes, lo as int)
                    &&& is_char_boundary(bytes, hi as int)
                    &&& bytes.subrange(lo as int, hi as int) == without_cr(after[k])
                } by {
                    assert(after[k] == before[k]);
                }
            }
        } else {
            proof {
                let after = split_on(bytes.take(i + 1), 10);
                lemma_split_nonempty(bytes.take(i as int), 10);
                assert(after == before.update(before.len() - 1, before.last().push(bytes[i as int])));
                assert(bytes.subrange(start as int, i + 1) =~= bytes.subrange(start as int, i as int).push(bytes[i as int]));
                assert forall|k: int| 0 <= k < spans@.len() implies {
                    let (lo, hi) = #[trigger] spans@[k];
                    &&& lo <= hi <= bytes.len()
                    &&& is_char_boundary(bytes, lo as int)
                    &&& is_char_boundary(bytes, hi as int)
                    &&& bytes.subrange(lo as int, hi as int) == without_cr(after[k])
                } by {
                    assert(after[k] == before[k]);
                }
            }
        }
        i = i + 1;
    }
    let ghost pieces = split_on(bytes, 10);
    proof {
        assert(bytes.take(bytes.len() as int) =~= bytes);
        lemma_split_nonempty(bytes, 10);
    }
    let n = b.len();
    if start < n {
        spans.push((start, n));
        proof {
            assert(pieces.last() == bytes.subrange(start as int, n as int));
            assert(pieces.last().len() > 0);
            is_char_boundary_start_end_of_seq(bytes);
            assert(spans@.len() == lines_of(bytes).len());
            assert forall|k: int| 0 <= k < spans@.len() implies {
                let (lo, hi) = #[trigger] spans@[k];
                &&& lo <= hi <= bytes.len()
                &&& is_char_boundary(bytes, lo as int)
                &&& is_char_boundary(bytes, hi as int)
                &&& bytes.subrange(lo as int, hi as int) == lines_of(bytes)[k]
            } by {
                if k < spans@.len() - 1 {
                    assert(lines_of(bytes)[k] == without_cr(pieces[k]));
                }
            }
        }
    } else {
        proof {
            assert(pieces.last() =~= Seq::<u8>::empty());
            assert forall|k: int| 0 <= k < spans@.len() implies {
                let (lo, hi) = #[trigger] spans@[k];
                &&& lo <= hi <= bytes.len()
                &&& is_char_boundary(bytes, lo as int)
                &&& is_char_boundary(bytes, hi as int)
                &&& bytes.subrange(lo as int, hi as int) == lines_of(bytes)[k]
            } by {
                assert(lines_of(bytes)[k] == without_cr(pieces[k]));
            }
        }
    }
    spans
}

} // verus!
