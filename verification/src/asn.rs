//! Naming the far end: which network an address belongs to.
//!
//! The table says which autonomous system announces an address: a number, the name its
//! holder registered, and the country that registration was made in. The registration
//! country is not a location: an anycast address is announced from dozens of cities, and a
//! cloud provider registered in one country runs regions on every continent.
//!
//! The data ships with the application rather than being asked of a remote service, which
//! would tell a third party which servers this user is playing on; so the lookup is a
//! search over sorted arrays, with no I/O and no clock.

use crate::address::IpAddr;
use crate::error::Error;
use crate::ring::reserved_slots;
use vstd::arithmetic::mul::lemma_mul_inequality;
use vstd::layout::size_of;
use crate::text::{
    find_byte, ip_text, lemma_boundary, lemma_boundary_after, lemma_split_join, lemma_split_nonempty,
    lemma_split_single, lemma_text_bytes, lemma_trim_boundaries, line_spans, lines_of, parse_ip,
    parse_unsigned, piece, segment, split_bytes, split_on, trim_bounds, trimmed, unsigned_text,
};
use vstd::prelude::*;
use vstd::string::StringSliceAdditionalSpecFns;
use vstd::utf8::{encode_utf8, is_char_boundary, is_continuation_byte};

verus! {

/// Name of the range file, used in the error a malformed row produces.
pub const RANGES_FILE: &'static str = "ranges.tsv";

/// Name of the directory file, used in the error a malformed row produces.
pub const DIRECTORY_FILE: &'static str = "asn.tsv";

/// The autonomous system number for address space nobody announces: rows carrying it are
/// skipped, since "AS0, Not routed" is not an answer.
pub const NOT_ROUTED: u32 = 0;

/// Whether `b` is an ASCII letter.
pub open spec fn is_letter(b: u8) -> bool {
    (65 <= b <= 90) || (97 <= b <= 122)
}

/// `b` with an ASCII lowercase letter raised to uppercase.
pub open spec fn upper(b: u8) -> u8 {
    if 97 <= b <= 122 {
        (b - 32) as u8
    } else {
        b
    }
}

/// The code a country field spells: exactly two ASCII letters, uppercased.
pub open spec fn country_text(s: Seq<u8>) -> Option<Seq<u8>> {
    if s.len() == 2 && is_letter(s[0]) && is_letter(s[1]) {
        Some(seq![upper(s[0]), upper(s[1])])
    } else {
        None
    }
}

/// A two-letter country code, as registered with a regional internet registry.
///
/// Deliberately not called a location: it is where an address block was registered.
#[derive(Debug, Clone, Copy, PartialEq, Eq, Hash)]
pub struct CountryCode([u8; 2]);

impl CountryCode {
    /// Always two uppercase ASCII letters.
    #[verifier::type_invariant]
    spec fn letters(self) -> bool {
        65 <= self.0@[0] <= 90 && 65 <= self.0@[1] <= 90
    }

    /// The two letters.
    pub closed spec fn view(self) -> Seq<u8> {
        self.0@
    }

    /// Reads a code, accepting only two ASCII letters.
    ///
    /// Everything else — the registry's `None` marker, an empty field, a three-letter code
    /// — is `None` rather than an error: a missing country is an ordinary gap in the data.
    pub fn parse(raw: &str) -> (r: Option<CountryCode>)
        ensures
            match country_text(raw.spec_bytes()) {
                Some(code) => r matches Some(c) && c@ == code,
                None => r is None,
            },
    {
        CountryCode::from_field(raw.as_bytes())
    }

    /// Reads a code from the bytes of a field.
    fn from_field(bytes: &[u8]) -> (r: Option<CountryCode>)
        ensures
            match country_text(bytes@) {
                Some(code) => r matches Some(c) && c@ == code,
                None => r is None,
            },
    {
        if bytes.len() != 2 {
            return None;
        }
        let first = bytes[0];
        let second = bytes[1];
        if !((65 <= first && first <= 90) || (97 <= first && first <= 122)) || !((65 <= second
            && second <= 90) || (97 <= second && second <= 122)) {
            return None;
        }
        let a = if 97 <= first {
            first - 32
        } else {
            first
        };
        let b = if 97 <= second {
            second - 32
        } else {
            second
        };
        let code = CountryCode([a, b]);
        assert(code@ =~= seq![upper(bytes@[0]), upper(bytes@[1])]);
        Some(code)
    }

    /// The code as text, always two uppercase ASCII letters.
    ///
    /// Read back with [`CountryCode::parse`], the text gives this very code again.
    pub fn as_str(&self) -> (s: &str)
        ensures
            s@ == seq![self@[0] as char, self@[1] as char],
            self@.len() == 2,
            65 <= self@[0] <= 90 && 65 <= self@[1] <= 90,
            s.spec_bytes() == self@,
            country_text(s.spec_bytes()) == Some(self@),
    {
        proof {
            use_type_invariant(self);
        }
        let s = ascii_pair(&self.0);
        proof {
            assert(vstd::string::is_ascii(s));
            vstd::string::is_ascii_spec_bytes(s);
            assert(s.spec_bytes() =~= self@);
            assert(seq![upper(self@[0]), upper(self@[1])] =~= self@);
        }
        s
    }

    /// Two codes with the same letters are the same code.
    pub proof fn lemma_view_injective(a: CountryCode, b: CountryCode)
        ensures
            a@ == b@ ==> a == b,
    {
        if a@ == b@ {
            assert(a.0 =~= b.0);
        }
    }
}

/// `std::str::from_utf8` on two ASCII bytes.
///
/// The contract claims what the standard library documents: ASCII is valid UTF-8, so the
/// conversion succeeds and each byte is the character of the same number. The fallback to
/// an empty string is never taken for such input.
#[verifier::external_body]
fn ascii_pair(bytes: &[u8; 2]) -> (s: &str)
    requires
        bytes@[0] < 128,
        bytes@[1] < 128,
    ensures
        s@ == seq![bytes@[0] as char, bytes@[1] as char],
{
    std::str::from_utf8(bytes).unwrap_or("")
}

/// What the table knows about one address, borrowed from the table.
#[derive(Debug, Clone, Copy, PartialEq, Eq)]
pub struct Attribution<'a> {
    /// The autonomous system number announcing the address.
    pub number: u32,
    /// The name its holder registered, or empty where the directory has no entry: the
    /// number alone is still a true fact about routing.
    pub name: &'a str,
    /// The country the system was registered in, where the registry recorded one.
    pub country: Option<CountryCode>,
}

/// One announced block, both ends inclusive, as numbers of its family.
#[derive(Debug, Clone, Copy, PartialEq, Eq, Structural)]
struct Span {
    start: u128,
    end: u128,
    number: u32,
}

/// One autonomous system's registration.
#[derive(Debug, Clone)]
struct Organisation {
    number: u32,
    name: String,
    country: Option<CountryCode>,
}

/// An announced block as the contracts see it: first address, last address, number.
pub type Announced = (u128, u128, u32);

/// A registration as the contracts see it: number, name, country.
pub type Registered = (u32, Seq<char>, Option<CountryCode>);

spec fn span_view(s: Span) -> Announced {
    (s.start, s.end, s.number)
}

spec fn organisation_view(o: Organisation) -> Registered {
    (o.number, o.name@, o.country)
}

/// Whether the blocks are in non-decreasing order of their first address.
pub open spec fn by_start(spans: Seq<Announced>) -> bool {
    forall|i: int, j: int| 0 <= i <= j < spans.len() ==> (#[trigger] spans[i]).0 <= (#[trigger] spans[j]).0
}

/// Whether the registrations are in strictly increasing order of number.
pub open spec fn by_number(directory: Seq<Registered>) -> bool {
    forall|i: int, j: int| 0 <= i < j < directory.len() ==> (#[trigger] directory[i]).0 < (#[trigger] directory[j]).0
}

/// How many of `spans` start at or before `a`.
pub open spec fn starting_by(spans: Seq<Announced>, a: u128) -> nat
    decreases spans.len(),
{
    if spans.len() == 0 {
        0
    } else {
        starting_by(spans.drop_last(), a) + if spans.last().0 <= a {
            1nat
        } else {
            0nat
        }
    }
}

/// The number announcing `a`: that of the last block starting at or before it, when that
/// block reaches it. Where blocks overlap, the one with the greatest start wins.
pub open spec fn announcer(spans: Seq<Announced>, a: u128) -> Option<u32> {
    let p = starting_by(spans, a);
    if p == 0 {
        None
    } else if spans[p - 1].1 >= a {
        Some(spans[p - 1].2)
    } else {
        None
    }
}

/// A position of `directory` registering `number`, where there is one.
pub open spec fn registration_slot(directory: Seq<Registered>, number: u32) -> int {
    choose|k: int| 0 <= k < directory.len() && (#[trigger] directory[k]).0 == number
}

/// Where `number` is registered in `directory`, if it is.
pub open spec fn registered_at(directory: Seq<Registered>, number: u32) -> Option<int> {
    if exists|k: int| 0 <= k < directory.len() && (#[trigger] directory[k]).0 == number {
        Some(registration_slot(directory, number))
    } else {
        None
    }
}

/// Whether `found` names `number` as `directory` registers it: its name and country, or
/// no name and no country where it is not registered.
pub open spec fn names(directory: Seq<Registered>, number: u32, found: Attribution) -> bool {
    &&& found.number == number
    &&& match registered_at(directory, number) {
        Some(k) => found.name@ == directory[k].1 && found.country == directory[k].2,
        None => found.name@ == Seq::<char>::empty() && found.country is None,
    }
}

proof fn lemma_starting_by(spans: Seq<Announced>, a: u128, p: int)
    requires
        0 <= p <= spans.len(),
        forall|k: int| 0 <= k < p ==> (#[trigger] spans[k]).0 <= a,
        forall|k: int| p <= k < spans.len() ==> (#[trigger] spans[k]).0 > a,
    ensures
        starting_by(spans, a) == p,
    decreases spans.len(),
{
    if spans.len() > 0 {
        if p == spans.len() {
            lemma_starting_by(spans.drop_last(), a, p - 1);
        } else {
            lemma_starting_by(spans.drop_last(), a, p);
        }
    }
}

/// How many of `spans` start at or before `a`, by bisection.
fn partition_point(spans: &Vec<Span>, a: u128) -> (p: usize)
    requires
        by_start(spans@.map_values(|s: Span| span_view(s))),
    ensures
        p == starting_by(spans@.map_values(|s: Span| span_view(s)), a),
        p <= spans@.len(),
{
    let ghost view = spans@.map_values(|s: Span| span_view(s));
    let mut lo: usize = 0;
    let mut hi: usize = spans.len();
    while lo < hi
        invariant
            0 <= lo <= hi <= spans@.len(),
            view == spans@.map_values(|s: Span| span_view(s)),
            by_start(view),
            forall|k: int| 0 <= k < lo ==> (#[trigger] view[k]).0 <= a,
            forall|k: int| hi <= k < view.len() ==> (#[trigger] view[k]).0 > a,
        decreases hi - lo,
    {
        let mid = lo + (hi - lo) / 2;
        if spans[mid].start <= a {
            proof {
                assert forall|k: int| 0 <= k < mid + 1 implies (#[trigger] view[k]).0 <= a by {
                    assert(view[k].0 <= view[mid as int].0);
                }
            }
            lo = mid + 1;
        } else {
            proof {
                assert forall|k: int| mid <= k < view.len() implies (#[trigger] view[k]).0 > a by {
                    assert(view[mid as int].0 <= view[k].0);
                }
            }
            hi = mid;
        }
    }
    proof {
        lemma_starting_by(view, a, lo as int);
    }
    lo
}

/// Whether `out` holds the items of `src` moved by `perm`: position `i` of `out` takes
/// position `perm[i]` of `src`, no position is taken twice and every one is taken.
pub open spec fn moved_by<A>(out: Seq<A>, src: Seq<A>, perm: Seq<int>) -> bool {
    &&& out.len() == src.len() && perm.len() == src.len()
    &&& forall|i: int| 0 <= i < perm.len() ==> 0 <= #[trigger] perm[i] < src.len() && out[i] == src[perm[i]]
    &&& forall|i: int, j: int| 0 <= i < j < perm.len() ==> #[trigger] perm[i] != #[trigger] perm[j]
    &&& forall|k: int| 0 <= k < src.len() ==> #[trigger] taken(perm, k)
}

/// Whether some position of `perm` holds `k`.
pub open spec fn taken(perm: Seq<int>, k: int) -> bool {
    exists|i: int| 0 <= i < perm.len() && #[trigger] perm[i] == k
}

/// Whether `out` holds exactly the items of `src`, in some order.
pub open spec fn rearranges<A>(out: Seq<A>, src: Seq<A>) -> bool {
    exists|perm: Seq<int>| moved_by(out, src, perm)
}

/// The order std gives pairs: by the first item, then by the second.
pub open spec fn pair_le(a: (u128, usize), b: (u128, usize)) -> bool {
    a.0 < b.0 || (a.0 == b.0 && a.1 <= b.1)
}

/// `slice::sort_unstable` on pairs of integers.
///
/// The contract claims what the standard library documents: the pairs come out
/// rearranged, in the order std gives tuples, by first item and then by second.
#[verifier::external_body]
fn sort_pairs(pairs: &mut Vec<(u128, usize)>)
    ensures
        rearranges(final(pairs)@, old(pairs)@),
        forall|i: int, j: int|
            0 <= i <= j < final(pairs)@.len() ==> pair_le(#[trigger] final(pairs)@[i], #[trigger] final(pairs)@[j]),
{
    pairs.sort_unstable();
}

/// Sorts `keys`, which pair a key with the distinct position it came from, and says where
/// each sorted pair came from.
fn sorted_keys(keys: &mut Vec<(u128, usize)>) -> (perm: Ghost<Seq<int>>)
    requires
        forall|k: int| 0 <= k < old(keys)@.len() ==> (#[trigger] old(keys)@[k]).1 == k,
    ensures
        moved_by(final(keys)@, old(keys)@, perm@),
        forall|i: int| 0 <= i < perm@.len() ==> #[trigger] perm@[i] == final(keys)@[i].1,
        forall|i: int, j: int|
            0 <= i <= j < final(keys)@.len() ==> pair_le(#[trigger] final(keys)@[i], #[trigger] final(keys)@[j]),
{
    sort_pairs(keys);
    let ghost perm = choose|perm: Seq<int>| moved_by(keys@, old(keys)@, perm);
    assert forall|i: int| 0 <= i < perm.len() implies #[trigger] perm[i] == keys@[i].1 by {
        assert(keys@[i] == old(keys)@[perm[i]]);
    }
    Ghost(perm)
}

/// The spans of `spans`, by first address.
fn span_order(spans: &Vec<Span>) -> (out: Vec<Span>)
    ensures
        rearranges(out@.map_values(|s: Span| span_view(s)), spans@.map_values(|s: Span| span_view(s))),
        by_start(out@.map_values(|s: Span| span_view(s))),
{
    let mut keys: Vec<(u128, usize)> = Vec::new();
    let mut i: usize = 0;
    while i < spans.len()
        invariant
            i <= spans@.len(),
            keys@.len() == i,
            forall|k: int| 0 <= k < i ==> #[trigger] keys@[k] == (spans@[k].start, k as usize),
        decreases spans@.len() - i,
    {
        keys.push((spans[i].start, i));
        i = i + 1;
    }
    let ghost unsorted = keys@;
    let perm = sorted_keys(&mut keys);
    let mut out: Vec<Span> = Vec::new();
    let mut i: usize = 0;
    while i < keys.len()
        invariant
            i <= keys@.len(),
            keys@.len() == spans@.len(),
            moved_by(keys@, unsorted, perm@),
            forall|k: int| 0 <= k < unsorted.len() ==> #[trigger] unsorted[k] == (spans@[k].start, k as usize),
            forall|k: int| 0 <= k < perm@.len() ==> #[trigger] perm@[k] == keys@[k].1,
            out@.len() == i,
            forall|k: int| 0 <= k < i ==> #[trigger] out@[k] == spans@[perm@[k]],
        decreases keys@.len() - i,
    {
        let at = keys[i].1;
        assert(keys@[i as int] == unsorted[perm@[i as int]]);
        out.push(spans[at]);
        i = i + 1;
    }
    let ghost view = out@.map_values(|s: Span| span_view(s));
    let ghost source = spans@.map_values(|s: Span| span_view(s));
    assert(moved_by(view, source, perm@)) by {
        assert forall|i: int| 0 <= i < perm@.len() implies 0 <= #[trigger] perm@[i] < source.len() && view[i]
            == source[perm@[i]] by {
            assert(out@[i] == spans@[perm@[i]]);
        }
        assert forall|k: int| 0 <= k < source.len() implies #[trigger] taken(perm@, k) by {
            assert(0 <= k < unsorted.len());
        }
    }
    assert forall|i: int, j: int| 0 <= i <= j < view.len() implies (#[trigger] view[i]).0 <= (#[trigger] view[j]).0 by {
        assert(pair_le(keys@[i], keys@[j]));
        assert(keys@[i] == unsorted[perm@[i]]);
        assert(keys@[j] == unsorted[perm@[j]]);
    }
    out
}

/// Whether position `k` of `directory` is the first registration of its number.
pub open spec fn first_in(directory: Seq<Registered>, k: int) -> bool {
    &&& 0 <= k < directory.len()
    &&& forall|j: int| 0 <= j < k ==> (#[trigger] directory[j]).0 != directory[k].0
}

/// Whether `entry` is the first registration of its number in `directory`.
pub open spec fn registered_first(directory: Seq<Registered>, entry: Registered) -> bool {
    exists|k: int| #[trigger] first_in(directory, k) && directory[k] == entry
}

/// Whether `table` holds the first registration of each number in `directory` and nothing
/// else, by number.
pub open spec fn first_registrations(table: Seq<Registered>, directory: Seq<Registered>) -> bool {
    &&& by_number(table)
    &&& forall|i: int| 0 <= i < table.len() ==> #[trigger] registered_first(directory, table[i])
    &&& forall|k: int| #[trigger] first_in(directory, k) ==> table.contains(directory[k])
}

spec fn group_start(keys: Seq<(u128, usize)>, p: int) -> bool {
    p == 0 || keys[p - 1].0 != keys[p].0
}

spec fn listed(starts: Seq<int>, p: int) -> bool {
    exists|m: int| 0 <= m < starts.len() && #[trigger] starts[m] == p
}

/// The first registration of each number of `organisations`, by number.
fn directory_order(organisations: &Vec<Organisation>) -> (out: Vec<Organisation>)
    ensures
        first_registrations(
            out@.map_values(|o: Organisation| organisation_view(o)),
            organisations@.map_values(|o: Organisation| organisation_view(o)),
        ),
{
    let ghost directory = organisations@.map_values(|o: Organisation| organisation_view(o));
    let mut keys: Vec<(u128, usize)> = Vec::new();
    let mut i: usize = 0;
    while i < organisations.len()
        invariant
            i <= organisations@.len(),
            keys@.len() == i,
            forall|k: int| 0 <= k < i ==> #[trigger] keys@[k] == (organisations@[k].number as u128, k as usize),
        decreases organisations@.len() - i,
    {
        keys.push((organisations[i].number as u128, i));
        i = i + 1;
    }
    let ghost unsorted = keys@;
    let perm = sorted_keys(&mut keys);
    let mut out: Vec<Organisation> = Vec::new();
    let ghost mut starts: Seq<int> = Seq::empty();
    let mut i: usize = 0;
    while i < keys.len()
        invariant
            i <= keys@.len(),
            keys@.len() == organisations@.len(),
            directory == organisations@.map_values(|o: Organisation| organisation_view(o)),
            moved_by(keys@, unsorted, perm@),
            forall|k: int| 0 <= k < unsorted.len() ==> #[trigger] unsorted[k] == (organisations@[k].number as u128, k as usize),
            forall|k: int| 0 <= k < perm@.len() ==> #[trigger] perm@[k] == keys@[k].1,
            forall|a: int, b: int| 0 <= a <= b < keys@.len() ==> pair_le(#[trigger] keys@[a], #[trigger] keys@[b]),
            out@.len() == starts.len(),
            forall|m: int| 0 <= m < starts.len() ==> 0 <= #[trigger] starts[m] < i && group_start(keys@, starts[m]),
            forall|m: int, n: int| 0 <= m < n < starts.len() ==> #[trigger] starts[m] < #[trigger] starts[n],
            forall|m: int| 0 <= m < starts.len() ==> organisation_view(#[trigger] out@[m]) == directory[perm@[starts[m]]],
            forall|p: int| 0 <= p < i && #[trigger] group_start(keys@, p) ==> listed(starts, p),
        decreases keys@.len() - i,
    {
        if i == 0 || keys[i - 1].0 != keys[i].0 {
            let at = keys[i].1;
            assert(keys@[i as int] == unsorted[perm@[i as int]]);
            let entry = &organisations[at];
            out.push(Organisation { number: entry.number, name: entry.name.clone(), country: entry.country });
            proof {
                let old_starts = starts;
                starts = starts.push(i as int);
                assert forall|p: int| 0 <= p < i + 1 && #[trigger] group_start(keys@, p) implies listed(starts, p) by {
                    if p < i {
                        let m = choose|m: int| 0 <= m < old_starts.len() && #[trigger] old_starts[m] == p;
                        assert(starts[m] == p);
                    } else {
                        assert(starts[starts.len() - 1] == p);
                    }
                }
            }
        }
        i = i + 1;
    }
    let ghost table = out@.map_values(|o: Organisation| organisation_view(o));
    proof {
        assert forall|m: int, n: int| 0 <= m < n < table.len() implies (#[trigger] table[m]).0 < (#[trigger] table[n]).0 by {
            let (a, b) = (starts[m], starts[n]);
            assert(pair_le(keys@[a], keys@[b - 1]));
            assert(keys@[a] == unsorted[perm@[a]]);
            assert(keys@[b] == unsorted[perm@[b]]);
        }
        assert forall|m: int| 0 <= m < table.len() implies #[trigger] registered_first(directory, table[m]) by {
            let p = starts[m];
            let k = perm@[p];
            assert(keys@[p] == unsorted[k]);
            assert forall|j: int| 0 <= j < k implies (#[trigger] directory[j]).0 != directory[k].0 by {
                if directory[j].0 == directory[k].0 {
                    assert(taken(perm@, j));
                    let q = choose|q: int| 0 <= q < perm@.len() && #[trigger] perm@[q] == j;
                    assert(keys@[q] == unsorted[j]);
                    if p <= q {
                        assert(pair_le(keys@[p], keys@[q]));
                    }
                    assert(pair_le(keys@[q], keys@[p - 1]));
                    assert(pair_le(keys@[p - 1], keys@[p]));
                }
            }
            assert(first_in(directory, k));
        }
        assert forall|k: int| #[trigger] first_in(directory, k) implies table.contains(directory[k]) by {
            assert(taken(perm@, k));
            let q = choose|q: int| 0 <= q < perm@.len() && #[trigger] perm@[q] == k;
            assert(keys@[q] == unsorted[k]);
            if q > 0 && keys@[q - 1].0 == keys@[q].0 {
                let j = perm@[q - 1];
                assert(keys@[q - 1] == unsorted[j]);
                assert(pair_le(keys@[q - 1], keys@[q]));
                assert(j != k);
                assert(directory[j].0 == directory[k].0);
            }
            assert(group_start(keys@, q));
            let m = choose|m: int| 0 <= m < starts.len() && #[trigger] starts[m] == q;
            assert(table[m] == directory[k]);
        }
    }
    out
}

/// The bytes of the names the registrations keep.
spec fn name_bytes(organisations: Seq<Organisation>) -> nat
    decreases organisations.len(),
{
    if organisations.len() == 0 {
        0
    } else {
        name_bytes(organisations.drop_last()) + encode_utf8(organisations.last().name@).len()
    }
}

/// `a * b`, or `usize::MAX` where that does not fit.
fn capped_product(a: usize, b: usize) -> (n: usize)
    ensures
        n == if a * b <= usize::MAX {
            a * b
        } else {
            usize::MAX as int
        },
{
    match a.checked_mul(b) {
        Some(n) => n,
        None => usize::MAX,
    }
}

/// Sorted announcements, searchable by address, and the registrations that name them.
#[derive(Debug, Clone)]
pub struct AsnTable {
    v4: Vec<Span>,
    v6: Vec<Span>,
    organisations: Vec<Organisation>,
}

impl AsnTable {
    /// The IPv4 blocks, by first address.
    pub closed spec fn spec_v4(self) -> Seq<Announced> {
        self.v4@.map_values(|s: Span| span_view(s))
    }

    /// The IPv6 blocks, by first address.
    pub closed spec fn spec_v6(self) -> Seq<Announced> {
        self.v6@.map_values(|s: Span| span_view(s))
    }

    /// The registrations, by number.
    pub closed spec fn spec_directory(self) -> Seq<Registered> {
        self.organisations@.map_values(|o: Organisation| organisation_view(o))
    }

    /// Blocks sorted by first address, registrations by number with none repeated.
    pub closed spec fn wf(self) -> bool {
        &&& by_start(self.spec_v4())
        &&& by_start(self.spec_v6())
        &&& by_number(self.spec_directory())
    }

    /// Builds a table from the whole text of the range file and of the directory file.
    ///
    /// Returns `Error::MalformedAsnRow` naming the file and line of the first row that
    /// cannot be read — every range row is read before any directory row — or
    /// `Error::AsnDataTooLarge` if the names outgrow what the table can index.
    #[verifier::spinoff_prover]
    #[verifier::rlimit(100)]
    pub fn parse(ranges: &str, directory: &str) -> (r: Result<AsnTable, Error>)
        ensures
            ({
                let rows = lines_of(ranges.spec_bytes());
                let entries = lines_of(directory.spec_bytes());
                match first_refused_range(rows) {
                    Some(k) => malformed(r, RANGES_FILE, (k + 1) as nat, rows[k]),
                    None => match first_failing_directory(entries) {
                        Some(k) => if directory_refused(entries[k]) {
                            malformed(r, DIRECTORY_FILE, (k + 1) as nat, entries[k])
                        } else {
                            r matches Err(Error::AsnDataTooLarge)
                        },
                        None => r matches Ok(t) && {
                            &&& t.wf()
                            &&& rearranges(t.spec_v4(), v4_rows(rows))
                            &&& rearranges(t.spec_v6(), v6_rows(rows))
                            &&& registrations_kept(t.spec_directory(), entries)
                        },
                    },
                }
            }),
    {
        let ghost rows = lines_of(ranges.spec_bytes());
        let ghost entries = lines_of(directory.spec_bytes());
        let mut builder = AsnTableBuilder::default();
        let spans = line_spans(ranges);
        let mut i: usize = 0;
        proof {
            assert(rows.take(0) =~= Seq::<Seq<u8>>::empty());
        }
        while i < spans.len()
            invariant
                i <= spans@.len(),
                spans@.len() == rows.len(),
                rows == lines_of(ranges.spec_bytes()),
                forall|k: int|
                    0 <= k < spans@.len() ==> {
                        let (lo, hi) = #[trigger] spans@[k];
                        &&& lo <= hi <= ranges.spec_bytes().len()
                        &&& is_char_boundary(ranges.spec_bytes(), lo as int)
                        &&& is_char_boundary(ranges.spec_bytes(), hi as int)
                        &&& ranges.spec_bytes().subrange(lo as int, hi as int) == rows[k]
                    },
                builder.wf(),
                builder.spec_ranges_seen() == i,
                builder.spec_organisations_seen() == 0,
                builder.spec_directory().len() == 0,
                builder.spec_name_bytes() == 0,
                builder.spec_v4() == v4_rows(rows.take(i as int)),
                builder.spec_v6() == v6_rows(rows.take(i as int)),
                forall|j: int| 0 <= j < i ==> !range_refused(#[trigger] rows[j]),
            decreases spans@.len() - i,
        {
            let (lo, hi) = spans[i];
            let line = piece(ranges, lo, hi);
            let pushed = builder.push_range(line);
            proof {
                assert(rows.take(i + 1).drop_last() =~= rows.take(i as int));
                assert(rows.take(i + 1).last() == rows[i as int]);
            }
            if pushed.is_err() {
                proof {
                    lemma_first_refused(rows, i as int);
                }
                return match pushed {
                    Err(e) => Err(e),
                    Ok(_) => Err(Error::AsnDataTooLarge),
                };
            }
            i = i + 1;
        }
        proof {
            assert(rows.take(rows.len() as int) =~= rows);
            assert(first_refused_range(rows) is None);
        }
        let spans = line_spans(directory);
        let ghost mut adders: Seq<int> = Seq::empty();
        let mut i: usize = 0;
        while i < spans.len()
            invariant
                i <= spans@.len(),
                spans@.len() == entries.len(),
                entries == lines_of(directory.spec_bytes()),
                forall|k: int|
                    0 <= k < spans@.len() ==> {
                        let (lo, hi) = #[trigger] spans@[k];
                        &&& lo <= hi <= directory.spec_bytes().len()
                        &&& is_char_boundary(directory.spec_bytes(), lo as int)
                        &&& is_char_boundary(directory.spec_bytes(), hi as int)
                        &&& directory.spec_bytes().subrange(lo as int, hi as int) == entries[k]
                    },
                builder.wf(),
                builder.spec_organisations_seen() == i,
                builder.spec_v4() == v4_rows(rows),
                builder.spec_v6() == v6_rows(rows),
                builder.spec_name_bytes() == names_before(entries, i as int),
                forall|j: int| 0 <= j < i ==> !#[trigger] directory_fails(entries, j),
                added_by(builder.spec_directory(), adders, entries, i as int),
                first_refused_range(rows) is None,
                rows == lines_of(ranges.spec_bytes()),
            decreases spans@.len() - i,
        {
            let (lo, hi) = spans[i];
            let line = piece(directory, lo, hi);
            let ghost before = builder.spec_directory();
            let pushed = builder.push_organisation(line);
            if pushed.is_err() {
                proof {
                    lemma_first_failing(entries, i as int);
                }
                return match pushed {
                    Err(e) => Err(e),
                    Ok(_) => Err(Error::AsnDataTooLarge),
                };
            }
            proof {
                adders = lemma_added_step(before, builder.spec_directory(), adders, entries, i as int);
            }
            i = i + 1;
        }
        let ghost pushed = builder.spec_directory();
        let t = builder.finish();
        proof {
            assert(first_failing_directory(entries) is None);
            lemma_registrations_kept(t.spec_directory(), pushed, adders, entries);
        }
        Ok(t)
    }

    /// Names the network an address belongs to, or `None` if nothing announces it.
    ///
    /// `None` is a real and common answer — unallocated space, a private address, a block
    /// the data predates — and must be shown as nothing rather than a guess. The two
    /// families never answer for each other.
    pub fn lookup(&self, address: IpAddr) -> (r: Option<Attribution<'_>>)
        requires
            self.wf(),
        ensures
            ({
                let number = match address {
                    IpAddr::V4(a) => announcer(self.spec_v4(), a as u128),
                    IpAddr::V6(a) => announcer(self.spec_v6(), a),
                };
                match number {
                    None => r is None,
                    Some(n) => r matches Some(found) && names(self.spec_directory(), n, found),
                }
            }),
    {
        let number = match address {
            IpAddr::V4(a) => search(&self.v4, a as u128),
            IpAddr::V6(a) => search(&self.v6, a),
        };
        match number {
            None => None,
            Some(n) => Some(self.describe(n)),
        }
    }

    /// Looks a number up in the directory, falling back to a nameless attribution.
    fn describe(&self, number: u32) -> (found: Attribution<'_>)
        requires
            self.wf(),
        ensures
            names(self.spec_directory(), number, found),
    {
        let ghost directory = self.spec_directory();
        let mut lo: usize = 0;
        let mut hi: usize = self.organisations.len();
        while lo < hi
            invariant
                0 <= lo <= hi <= self.organisations@.len(),
                directory == self.spec_directory(),
                by_number(directory),
                forall|k: int| 0 <= k < lo ==> (#[trigger] directory[k]).0 < number,
                forall|k: int| hi <= k < directory.len() ==> (#[trigger] directory[k]).0 > number,
            decreases hi - lo,
        {
            let mid = lo + (hi - lo) / 2;
            let at = self.organisations[mid].number;
            if at == number {
                proof {
                    assert(directory[mid as int].0 == number);
                    let c = registration_slot(directory, number);
                    if c < mid {
                        assert(directory[c].0 < directory[mid as int].0);
                    } else if c > mid {
                        assert(directory[mid as int].0 < directory[c].0);
                    }
                }
                let entry = &self.organisations[mid];
                return Attribution { number, name: entry.name.as_str(), country: entry.country };
            } else if at < number {
                proof {
                    assert forall|k: int| 0 <= k < mid + 1 implies (#[trigger] directory[k]).0 < number by {
                        if k < mid {
                            assert(directory[k].0 < directory[mid as int].0);
                        }
                    }
                }
                lo = mid + 1;
            } else {
                proof {
                    assert forall|k: int| mid <= k < directory.len() implies (#[trigger] directory[k]).0 > number by {
                        if k > mid {
                            assert(directory[mid as int].0 < directory[k].0);
                        }
                    }
                }
                hi = mid;
            }
        }
        proof {
            if exists|k: int| 0 <= k < directory.len() && (#[trigger] directory[k]).0 == number {
                let k = choose|k: int| 0 <= k < directory.len() && (#[trigger] directory[k]).0 == number;
                assert(directory[k].0 == number);
            }
        }
        let none = "";
        proof {
            reveal_strlit("");
            assert(none@ =~= Seq::<char>::empty());
            assert(registered_at(directory, number) is None);
        }
        Attribution { number, name: none, country: None }
    }

    /// How many bytes the table holds at least: its blocks and registrations at their
    /// size, and the bytes of their names.
    pub closed spec fn held_bytes(self) -> nat {
        (self.v4@.len() + self.v6@.len()) * size_of::<Span>() + self.organisations@.len() * size_of::<
            Organisation,
        >() + name_bytes(self.organisations@)
    }

    /// How many bytes the table takes with room reserved for `v4` IPv4 blocks, `v6` IPv6
    /// blocks and `registrations` registrations: that room at the size of each, and the
    /// bytes of the names.
    pub closed spec fn heap_figure(self, v4: nat, v6: nat, registrations: nat) -> nat {
        (v4 + v6) * size_of::<Span>() + registrations * size_of::<Organisation>() + name_bytes(
            self.organisations@,
        )
    }

    /// The memory figure for room reserved for `v4` IPv4 blocks, `v6` IPv6 blocks and
    /// `registrations` registrations, stopping at `usize::MAX` rather than wrapping.
    pub fn heap_bytes(&self, v4: usize, v6: usize, registrations: usize) -> (n: usize)
        ensures
            n == if self.heap_figure(v4 as nat, v6 as nat, registrations as nat) <= usize::MAX {
                self.heap_figure(v4 as nat, v6 as nat, registrations as nat)
            } else {
                usize::MAX as nat
            },
    {
        let span = core::mem::size_of::<Span>();
        let organisation = core::mem::size_of::<Organisation>();
        let ghost exact: int = v4 * span + v6 * span + registrations * organisation;
        let mut total = capped_product(v4, span);
        total = total.saturating_add(capped_product(v6, span));
        total = total.saturating_add(capped_product(registrations, organisation));
        proof {
            assert((v4 + v6) * span == v4 * span + v6 * span) by (nonlinear_arith);
            assert(v4 * span >= 0 && v6 * span >= 0 && registrations * organisation >= 0) by (
            nonlinear_arith);
        }
        let mut i: usize = 0;
        while i < self.organisations.len()
            invariant
                i <= self.organisations@.len(),
                exact >= 0,
                total == if exact + name_bytes(self.organisations@.take(i as int)) <= usize::MAX {
                    exact + name_bytes(self.organisations@.take(i as int))
                } else {
                    usize::MAX as int
                },
            decreases self.organisations@.len() - i,
        {
            proof {
                assert(self.organisations@.take(i + 1).drop_last() =~= self.organisations@.take(i as int));
            }
            let name = self.organisations[i].name.as_str();
            proof {
                assert(self.organisations@.take(i + 1).last() == self.organisations@[i as int]);
                assert(name@ == self.organisations@[i as int].name@);
                assert(name_bytes(self.organisations@.take(i + 1)) == name_bytes(self.organisations@.take(i as int))
                    + name.spec_bytes().len());
            }
            total = total.saturating_add(name.as_bytes().len());
            i = i + 1;
        }
        proof {
            assert(self.organisations@.take(self.organisations@.len() as int) =~= self.organisations@);
        }
        total
    }

    /// Roughly how much memory the table holds, in bytes: the room reserved for its blocks
    /// and registrations, and its names.
    ///
    /// Reported rather than guessed because the setting that switches this feature on states
    /// the cost to the user. How much room is reserved is the allocator's business; the
    /// figure is `heap_bytes` of that room, which covers at least what is held, so the
    /// figure is at least what the held items occupy, and stops at `usize::MAX` rather than
    /// wrapping.
    pub fn approximate_heap_bytes(&self) -> (n: usize)
        ensures
            exists|v4: nat, v6: nat, registrations: nat|
                #![trigger self.heap_figure(v4, v6, registrations)]
                v4 >= self.spec_v4().len() && v6 >= self.spec_v6().len() && registrations
                    >= self.spec_directory().len() && n == if self.heap_figure(v4, v6, registrations)
                    <= usize::MAX {
                    self.heap_figure(v4, v6, registrations)
                } else {
                    usize::MAX as nat
                },
            n >= self.held_bytes() || n == usize::MAX,
    {
        let a = reserved_slots(&self.v4);
        let b = reserved_slots(&self.v6);
        let c = reserved_slots(&self.organisations);
        let n = self.heap_bytes(a, b, c);
        proof {
            let span = size_of::<Span>();
            let organisation = size_of::<Organisation>();
            lemma_mul_inequality(self.v4@.len() as int, a as int, span as int);
            lemma_mul_inequality(self.v6@.len() as int, b as int, span as int);
            lemma_mul_inequality(self.organisations@.len() as int, c as int, organisation as int);
            assert((self.v4@.len() + self.v6@.len()) * span == self.v4@.len() * span + self.v6@.len() * span)
                by (nonlinear_arith);
            assert((a + b) * span == a * span + b * span) by (nonlinear_arith);
            assert(self.heap_figure(a as nat, b as nat, c as nat) >= self.held_bytes());
        }
        n
    }

    /// How many announced blocks the table holds.
    pub fn range_count(&self) -> (n: usize)
        requires
            self.spec_v4().len() + self.spec_v6().len() <= usize::MAX,
        ensures
            n == self.spec_v4().len() + self.spec_v6().len(),
    {
        self.v4.len() + self.v6.len()
    }

    /// How many autonomous systems the directory names.
    pub fn organisation_count(&self) -> (n: usize)
        ensures
            n == self.spec_directory().len(),
    {
        self.organisations.len()
    }

    /// Whether the table can answer anything at all.
    pub fn is_empty(&self) -> (b: bool)
        ensures
            b == (self.spec_v4().len() == 0 && self.spec_v6().len() == 0),
    {
        self.v4.len() == 0 && self.v6.len() == 0
    }
}

impl Default for AsnTable {
    /// An empty table, which answers nothing.
    fn default() -> (t: AsnTable)
        ensures
            t.wf(),
            t.spec_v4().len() == 0 && t.spec_v6().len() == 0 && t.spec_directory().len() == 0,
    {
        let t = AsnTable { v4: Vec::new(), v6: Vec::new(), organisations: Vec::new() };
        assert(t.spec_v4() =~= Seq::<Announced>::empty());
        assert(t.spec_v6() =~= Seq::<Announced>::empty());
        assert(t.spec_directory() =~= Seq::<Registered>::empty());
        t
    }
}

/// Whether no two blocks start at the same address.
pub open spec fn distinct_starts(spans: Seq<Announced>) -> bool {
    forall|i: int, j: int| 0 <= i < j < spans.len() ==> (#[trigger] spans[i]).0 != (#[trigger] spans[j]).0
}

/// Sorted by first address, with no two blocks starting together, a list of blocks is the
/// only order of them there is.
proof fn lemma_sorted_is_unique(a: Seq<Announced>, b: Seq<Announced>, perm: Seq<int>)
    requires
        moved_by(a, b, perm),
        by_start(a),
        by_start(b),
        distinct_starts(b),
    ensures
        a == b,
{
    assert forall|i: int| 0 <= i < a.len() implies a[i] == b[i] by {
        lemma_moved_in_place(a, b, perm, i);
        assert(a[i] == b[perm[i]]);
    }
    assert(a =~= b);
}

/// Each position of a sorted rearrangement of a sorted list of distinct starts takes the
/// item at the same position.
proof fn lemma_moved_in_place(a: Seq<Announced>, b: Seq<Announced>, perm: Seq<int>, i: int)
    requires
        moved_by(a, b, perm),
        by_start(a),
        by_start(b),
        distinct_starts(b),
        0 <= i < perm.len(),
    ensures
        perm[i] == i,
    decreases i,
{
    assert forall|j: int| 0 <= j < i implies #[trigger] perm[j] == j by {
        lemma_moved_in_place(a, b, perm, j);
    }
    let p = perm[i];
    if p < i {
        assert(perm[p] == p);
    } else if p > i {
        assert(taken(perm, i));
        let k = choose|k: int| 0 <= k < perm.len() && #[trigger] perm[k] == i;
        if k < i {
            assert(perm[k] == k);
        }
        assert(k != i);
        // Position `i` of `a` holds the block `p` of `b`, which starts after block `i`;
        // position `k` after `i` holds block `i` itself.
        assert(b[i].0 < b[p].0);
        assert(a[i].0 <= a[k].0);
    }
}

/// Rows may arrive in any order: where no two blocks of a family start at the same
/// address, two tables holding the same blocks hold them in the same order, and so answer
/// every lookup alike.
pub proof fn lemma_any_row_order(t1: AsnTable, t2: AsnTable)
    requires
        t1.wf(),
        t2.wf(),
        rearranges(t1.spec_v4(), t2.spec_v4()),
        rearranges(t1.spec_v6(), t2.spec_v6()),
        distinct_starts(t2.spec_v4()),
        distinct_starts(t2.spec_v6()),
    ensures
        t1.spec_v4() == t2.spec_v4(),
        t1.spec_v6() == t2.spec_v6(),
        forall|a: u128| announcer(t1.spec_v4(), a) == announcer(t2.spec_v4(), a),
        forall|a: u128| announcer(t1.spec_v6(), a) == announcer(t2.spec_v6(), a),
{
    let p4 = choose|perm: Seq<int>| moved_by(t1.spec_v4(), t2.spec_v4(), perm);
    lemma_sorted_is_unique(t1.spec_v4(), t2.spec_v4(), p4);
    let p6 = choose|perm: Seq<int>| moved_by(t1.spec_v6(), t2.spec_v6(), perm);
    lemma_sorted_is_unique(t1.spec_v6(), t2.spec_v6(), p6);
}

/// The number announcing `a` among `spans`.
fn search(spans: &Vec<Span>, a: u128) -> (r: Option<u32>)
    requires
        by_start(spans@.map_values(|s: Span| span_view(s))),
    ensures
        r == announcer(spans@.map_values(|s: Span| span_view(s)), a),
{
    let p = partition_point(spans, a);
    if p == 0 {
        return None;
    }
    let candidate = spans[p - 1];
    if candidate.end >= a {
        Some(candidate.number)
    } else {
        None
    }
}

/// Whether a row carries no record: nothing but white space, or a comment.
pub open spec fn blank_or_comment(b: Seq<u8>) -> bool {
    let t = trimmed(b, 0, b.len() as int);
    t.len() == 0 || t[0] == 35
}

/// The positions at which the characters of `b` start.
pub open spec fn char_starts(b: Seq<u8>) -> Seq<int>
    decreases b.len(),
{
    if b.len() == 0 {
        Seq::empty()
    } else {
        let earlier = char_starts(b.drop_last());
        if !is_continuation_byte(b.last()) {
            earlier.push(b.len() - 1)
        } else {
            earlier
        }
    }
}

/// Whether `raw` quotes the row `b` short enough to read: the whole row when it has at
/// most eighty characters, else its first eighty followed by an ellipsis.
pub open spec fn quotes(raw: Seq<char>, b: Seq<u8>) -> bool {
    let starts = char_starts(b);
    if starts.len() > 80 {
        raw.len() > 0 && raw.last() == '\u{2026}' && encode_utf8(raw.drop_last()) == b.take(starts[80])
    } else {
        encode_utf8(raw) == b
    }
}

/// Whether `r` is the error for the unreadable row `line` at line number `n` of `file`.
pub open spec fn malformed<T>(r: Result<T, Error>, file: &'static str, n: nat, row: Seq<u8>) -> bool {
    r matches Err(Error::MalformedAsnRow { file: f, line: l, raw }) && f == file && l == n && quotes(raw@, row)
}

/// The first address, last address and number a range row holds: exactly three
/// tab-separated fields, two address spellings and an unsigned number that fits 32 bits.
pub open spec fn range_row(b: Seq<u8>) -> Option<(IpAddr, IpAddr, u32)> {
    let parts = split_on(b, 9);
    if parts.len() == 3 && ip_text(parts[0]) is Some && ip_text(parts[1]) is Some && unsigned_text(
        parts[2],
    ) is Some && unsigned_text(parts[2])->0 <= u32::MAX {
        Some((ip_text(parts[0])->0, ip_text(parts[1])->0, unsigned_text(parts[2])->0 as u32))
    } else {
        None
    }
}

/// The position of the third field of a directory row: past the first two tabs.
pub open spec fn name_from(b: Seq<u8>) -> int {
    let parts = split_on(b, 9);
    (parts[0].len() + parts[1].len() + 2) as int
}

/// Quotes a rejected row: the first eighty characters and an ellipsis when it is longer.
fn quoted(line: &str) -> (raw: String)
    ensures
        quotes(raw@, line.spec_bytes()),
{
    let b = line.as_bytes();
    let ghost bytes = line.spec_bytes();
    let mut count: usize = 0;
    let mut i: usize = 0;
    proof {
        lemma_text_bytes(line);
        assert(bytes.take(0) =~= Seq::<u8>::empty());
    }
    while i < b.len()
        invariant
            b@ == bytes,
            bytes == line.spec_bytes(),
            vstd::utf8::valid_utf8(bytes),
            is_char_boundary(bytes, 0),
            i <= bytes.len(),
            count == char_starts(bytes.take(i as int)).len(),
            count <= 80,
            forall|k: int| 0 <= k < count ==> #[trigger] char_starts(bytes.take(i as int))[k] < i,
        decreases bytes.len() - i,
    {
        proof {
            assert(bytes.take(i + 1).drop_last() =~= bytes.take(i as int));
        }
        if b[i] < 0x80 || b[i] > 0xBF {
            if count == 80 {
                proof {
                    let starts = char_starts(bytes);
                    lemma_char_starts_prefix(bytes, i as int + 1);
                    assert(char_starts(bytes.take(i + 1))[80] == i as int);
                    lemma_boundary(bytes, i as int);
                }
                let head = piece(line, 0, i);
                let mut raw = String::from_str(head);
                raw.append("\u{2026}");
                proof {
                    reveal_strlit("\u{2026}");
                    assert(raw@.drop_last() =~= head@);
                    assert(head.spec_bytes() =~= bytes.take(i as int));
                }
                return raw;
            }
            count = count + 1;
        }
        i = i + 1;
    }
    proof {
        assert(bytes.take(bytes.len() as int) =~= bytes);
    }
    line.to_owned()
}

/// The starts within a prefix are the first starts of the whole.
proof fn lemma_char_starts_prefix(b: Seq<u8>, j: int)
    requires
        0 <= j <= b.len(),
    ensures
        char_starts(b.take(j)).len() <= char_starts(b).len(),
        forall|k: int|
            0 <= k < char_starts(b.take(j)).len() ==> #[trigger] char_starts(b.take(j))[k]
                == char_starts(b)[k],
    decreases b.len() - j,
{
    if j < b.len() {
        lemma_char_starts_prefix(b, j + 1);
        assert(b.take(j + 1).drop_last() =~= b.take(j));
        let a = char_starts(b.take(j));
        let c = char_starts(b.take(j + 1));
        assert forall|k: int| 0 <= k < a.len() implies #[trigger] a[k] == char_starts(b)[k] by {
            assert(a[k] == c[k]);
        }
    } else {
        assert(b.take(j) =~= b);
    }
}

/// The number a directory row registers: at least three tab-separated fields, the first
/// an unsigned number that fits 32 bits.
pub open spec fn directory_number(b: Seq<u8>) -> Option<u32> {
    let parts = split_on(b, 9);
    if parts.len() >= 3 && unsigned_text(parts[0]) is Some && unsigned_text(parts[0])->0 <= u32::MAX {
        Some(unsigned_text(parts[0])->0 as u32)
    } else {
        None
    }
}

/// The name a directory row registers: the rest of the row after the second tab, tabs
/// included, with white space trimmed from both ends.
pub open spec fn directory_name(b: Seq<u8>) -> Seq<u8> {
    trimmed(b, name_from(b), b.len() as int)
}

/// Whether `entry` is the registration the directory row `b` adds.
#[verifier::opaque]
pub open spec fn registration(entry: Registered, b: Seq<u8>) -> bool {
    &&& directory_number(b) == Some(entry.0)
    &&& encode_utf8(entry.1) == directory_name(b)
    &&& match country_text(split_on(b, 9)[1]) {
        Some(code) => entry.2 matches Some(c) && c@ == code,
        None => entry.2 is None,
    }
}

/// The sequence holding what `o` holds: one item or none.
pub open spec fn optional<A>(o: Option<A>) -> Seq<A> {
    match o {
        Some(x) => seq![x],
        None => Seq::empty(),
    }
}

/// The IPv4 block a range row adds: a row that is neither blank nor a comment, reads,
/// is announced, and runs forwards between two IPv4 addresses.
#[verifier::opaque]
pub open spec fn kept_v4(b: Seq<u8>) -> Option<Announced> {
    if blank_or_comment(b) {
        None
    } else {
        match range_row(b) {
            Some((IpAddr::V4(x), IpAddr::V4(y), n)) => if n != NOT_ROUTED && x <= y {
                Some((x as u128, y as u128, n))
            } else {
                None
            },
            _ => None,
        }
    }
}

/// The IPv6 block a range row adds, on the same terms.
#[verifier::opaque]
pub open spec fn kept_v6(b: Seq<u8>) -> Option<Announced> {
    if blank_or_comment(b) {
        None
    } else {
        match range_row(b) {
            Some((IpAddr::V6(x), IpAddr::V6(y), n)) => if n != NOT_ROUTED && x <= y {
                Some((x, y, n))
            } else {
                None
            },
            _ => None,
        }
    }
}

/// Whether a range row is refused: it is neither blank nor a comment, and either does not
/// read or is announced with ends of different families or running backwards.
#[verifier::opaque]
pub open spec fn range_refused(b: Seq<u8>) -> bool {
    &&& !blank_or_comment(b)
    &&& match range_row(b) {
        None => true,
        Some((_, _, n)) => n != NOT_ROUTED && kept_v4(b) is None && kept_v6(b) is None,
    }
}

/// The number a directory row adds a registration for: a row that is neither blank nor a
/// comment, reads, is announced, and whose name fits 65535 bytes.
#[verifier::opaque]
pub open spec fn directory_adds(b: Seq<u8>) -> Option<u32> {
    if blank_or_comment(b) {
        None
    } else {
        match directory_number(b) {
            Some(n) => if n != NOT_ROUTED && directory_name(b).len() <= u16::MAX {
                Some(n)
            } else {
                None
            },
            None => None,
        }
    }
}

/// Whether a directory row is refused: it is neither blank nor a comment, and either does
/// not read or is announced with a name longer than 65535 bytes.
#[verifier::opaque]
pub open spec fn directory_refused(b: Seq<u8>) -> bool {
    &&& !blank_or_comment(b)
    &&& match directory_number(b) {
        None => true,
        Some(n) => n != NOT_ROUTED && directory_name(b).len() > u16::MAX,
    }
}

/// The IPv4 blocks the range rows add, in the order read.
pub open spec fn v4_rows(rows: Seq<Seq<u8>>) -> Seq<Announced>
    decreases rows.len(),
{
    if rows.len() == 0 {
        Seq::empty()
    } else {
        v4_rows(rows.drop_last()) + optional(kept_v4(rows.last()))
    }
}

/// The IPv6 blocks the range rows add, in the order read.
pub open spec fn v6_rows(rows: Seq<Seq<u8>>) -> Seq<Announced>
    decreases rows.len(),
{
    if rows.len() == 0 {
        Seq::empty()
    } else {
        v6_rows(rows.drop_last()) + optional(kept_v6(rows.last()))
    }
}

/// The position of the first refused range row, if one is.
pub open spec fn first_refused_range(rows: Seq<Seq<u8>>) -> Option<int> {
    if exists|k: int| 0 <= k < rows.len() && #[trigger] range_refused(rows[k]) {
        Some(
            choose|k: int|
                0 <= k < rows.len() && #[trigger] range_refused(rows[k]) && forall|j: int|
                    0 <= j < k ==> !range_refused(#[trigger] rows[j]),
        )
    } else {
        None
    }
}

/// How many bytes of names the directory rows before `k` add.
pub open spec fn names_before(rows: Seq<Seq<u8>>, k: int) -> nat
    decreases k,
{
    if k <= 0 {
        0
    } else {
        names_before(rows, k - 1) + if directory_adds(rows[k - 1]) is Some {
            directory_name(rows[k - 1]).len()
        } else {
            0
        }
    }
}

/// Whether directory row `k` fails: it is refused, or it adds a name once the names
/// before it pass 4 GiB.
pub open spec fn directory_fails(rows: Seq<Seq<u8>>, k: int) -> bool {
    directory_refused(rows[k]) || (directory_adds(rows[k]) is Some && names_before(rows, k) > u32::MAX)
}

/// The position of the first failing directory row, if one is.
pub open spec fn first_failing_directory(rows: Seq<Seq<u8>>) -> Option<int> {
    if exists|k: int| 0 <= k < rows.len() && #[trigger] directory_fails(rows, k) {
        Some(
            choose|k: int|
                0 <= k < rows.len() && #[trigger] directory_fails(rows, k) && forall|j: int|
                    0 <= j < k ==> !#[trigger] directory_fails(rows, j),
        )
    } else {
        None
    }
}

/// Whether directory row `k` adds the first registration of its number.
pub open spec fn first_adding(rows: Seq<Seq<u8>>, k: int) -> bool {
    &&& 0 <= k < rows.len()
    &&& directory_adds(rows[k]) is Some
    &&& forall|j: int| 0 <= j < k ==> directory_adds(#[trigger] rows[j]) != directory_adds(rows[k])
}

/// Whether `entry` is registered by a row that first registers its number.
pub open spec fn registered_by(rows: Seq<Seq<u8>>, entry: Registered) -> bool {
    exists|k: int| #[trigger] first_adding(rows, k) && registration(entry, rows[k])
}

/// Whether `table` holds, by number, the registration of each row that first registers
/// its number, and nothing else.
pub open spec fn registrations_kept(table: Seq<Registered>, rows: Seq<Seq<u8>>) -> bool {
    &&& by_number(table)
    &&& forall|i: int| 0 <= i < table.len() ==> #[trigger] registered_by(rows, table[i])
    &&& forall|k: int| #[trigger] first_adding(rows, k) ==> exists|i: int| 0 <= i < table.len() && registration(
        #[trigger] table[i],
        rows[k],
    )
}

/// The first failing directory row is the one after a run of rows that did not fail.
proof fn lemma_first_failing(rows: Seq<Seq<u8>>, i: int)
    requires
        0 <= i < rows.len(),
        directory_fails(rows, i),
        forall|j: int| 0 <= j < i ==> !#[trigger] directory_fails(rows, j),
    ensures
        first_failing_directory(rows) == Some(i),
{
    let k = choose|k: int|
        0 <= k < rows.len() && #[trigger] directory_fails(rows, k) && forall|j: int|
            0 <= j < k ==> !#[trigger] directory_fails(rows, j);
    assert(0 <= i < rows.len() && directory_fails(rows, i) && forall|j: int|
        0 <= j < i ==> !#[trigger] directory_fails(rows, j));
    if k > i {
        assert(!directory_fails(rows, i));
    }
}

/// The first refused range row is the one after a run of rows that were not refused.
proof fn lemma_first_refused(rows: Seq<Seq<u8>>, i: int)
    requires
        0 <= i < rows.len(),
        range_refused(rows[i]),
        forall|j: int| 0 <= j < i ==> !range_refused(#[trigger] rows[j]),
    ensures
        first_refused_range(rows) == Some(i),
{
    let k = choose|k: int|
        0 <= k < rows.len() && #[trigger] range_refused(rows[k]) && forall|j: int|
            0 <= j < k ==> !range_refused(#[trigger] rows[j]);
    assert(0 <= i < rows.len() && range_refused(rows[i]) && forall|j: int|
        0 <= j < i ==> !range_refused(#[trigger] rows[j]));
    if k > i {
        assert(!range_refused(rows[i]));
    }
}

/// Whether `adders` lists, in order, the rows before `i` that add a registration, and
/// `directory` holds what each of them registers.
spec fn added_by(directory: Seq<Registered>, adders: Seq<int>, rows: Seq<Seq<u8>>, i: int) -> bool {
    &&& directory.len() == adders.len()
    &&& forall|m: int| 0 <= m < adders.len() ==> 0 <= #[trigger] adders[m] < i && directory_adds(rows[adders[m]]) is Some
    &&& forall|m: int, n: int| 0 <= m < n < adders.len() ==> #[trigger] adders[m] < #[trigger] adders[n]
    &&& forall|m: int| 0 <= m < adders.len() ==> registration(#[trigger] directory[m], rows[adders[m]])
    &&& forall|k: int| 0 <= k < i && directory_adds(#[trigger] rows[k]) is Some ==> listed(adders, k)
}

/// Reading one more directory row keeps `added_by`.
proof fn lemma_added_step(
    before: Seq<Registered>,
    after: Seq<Registered>,
    adders: Seq<int>,
    rows: Seq<Seq<u8>>,
    i: int,
) -> (next: Seq<int>)
    requires
        0 <= i < rows.len(),
        added_by(before, adders, rows, i),
        directory_adds(rows[i]) is Some ==> after == before.push(after.last()) && registration(after.last(), rows[i]),
        directory_adds(rows[i]) is None ==> after == before,
    ensures
        added_by(after, next, rows, i + 1),
{
    if directory_adds(rows[i]) is Some {
        let next = adders.push(i);
        assert forall|k: int| 0 <= k < i + 1 && directory_adds(#[trigger] rows[k]) is Some implies listed(next, k) by {
            if k < i {
                let m = choose|m: int| 0 <= m < adders.len() && #[trigger] adders[m] == k;
                assert(next[m] == k);
            } else {
                assert(next[next.len() - 1] == k);
            }
        }
        assert forall|m: int| 0 <= m < next.len() implies registration(#[trigger] after[m], rows[next[m]]) by {
            if m < adders.len() {
                assert(after[m] == before[m]);
            }
        }
        next
    } else {
        assert forall|k: int| 0 <= k < i + 1 && directory_adds(#[trigger] rows[k]) is Some implies listed(adders, k) by {
            let m = choose|m: int| 0 <= m < adders.len() && #[trigger] adders[m] == k;
        }
        adders
    }
}

/// A row that adds a registration adds it under the number the registration carries.
proof fn lemma_registration_number(entry: Registered, b: Seq<u8>)
    requires
        registration(entry, b),
        directory_adds(b) is Some,
    ensures
        directory_adds(b) == Some(entry.0),
{
    reveal(registration);
    reveal(directory_adds);
}

/// The first registrations among what the rows added are those of the rows that first
/// register their numbers.
proof fn lemma_registrations_kept(table: Seq<Registered>, pushed: Seq<Registered>, adders: Seq<int>, rows: Seq<Seq<u8>>)
    requires
        added_by(pushed, adders, rows, rows.len() as int),
        first_registrations(table, pushed),
    ensures
        registrations_kept(table, rows),
{
    assert forall|n: int| 0 <= n < table.len() implies #[trigger] registered_by(rows, table[n]) by {
        assert(registered_first(pushed, table[n]));
        let m = choose|m: int| #[trigger] first_in(pushed, m) && pushed[m] == table[n];
        let k = adders[m];
        assert(registration(pushed[m], rows[k]));
        assert forall|j: int| 0 <= j < k implies directory_adds(#[trigger] rows[j]) != directory_adds(rows[k]) by {
            if directory_adds(rows[j]) is Some {
                let m2 = choose|m2: int| 0 <= m2 < adders.len() && #[trigger] adders[m2] == j;
                if m2 > m {
                    assert(adders[m] < adders[m2]);
                }
                assert(registration(pushed[m2], rows[j]));
                lemma_registration_number(pushed[m2], rows[j]);
                lemma_registration_number(pushed[m], rows[k]);
                assert(pushed[m2].0 != pushed[m].0);
            }
        }
        assert(first_adding(rows, k));
    }
    assert forall|k: int| #[trigger] first_adding(rows, k) implies exists|n: int| 0 <= n < table.len() && registration(#[trigger] table[n], rows[k]) by {
        let m = choose|m: int| 0 <= m < adders.len() && #[trigger] adders[m] == k;
        assert(registration(pushed[m], rows[k]));
        assert forall|j: int| 0 <= j < m implies (#[trigger] pushed[j]).0 != pushed[m].0 by {
            assert(adders[j] < adders[m]);
            assert(registration(pushed[j], rows[adders[j]]));
            assert(directory_adds(rows[adders[j]]) != directory_adds(rows[k]));
            lemma_registration_number(pushed[j], rows[adders[j]]);
            lemma_registration_number(pushed[m], rows[k]);
        }
        assert(first_in(pushed, m));
        assert(table.contains(pushed[m]));
        let n = choose|n: int| 0 <= n < table.len() && table[n] == pushed[m];
        assert(registration(table[n], rows[k]));
    }
}

/// Accumulates rows into a table, sorting once at the end.
///
/// Rows may arrive in any order and the two files may be interleaved: nothing is sorted
/// until `finish`, because sorting half a million records once is cheaper than keeping
/// them ordered on the way in.
#[derive(Debug, Clone)]
pub struct AsnTableBuilder {
    v4: Vec<Span>,
    v6: Vec<Span>,
    organisations: Vec<Organisation>,
    name_bytes: u64,
    ranges_seen: usize,
    organisations_seen: usize,
}

impl AsnTableBuilder {
    /// The IPv4 blocks read so far, in the order read.
    pub closed spec fn spec_v4(self) -> Seq<Announced> {
        self.v4@.map_values(|s: Span| span_view(s))
    }

    /// The IPv6 blocks read so far, in the order read.
    pub closed spec fn spec_v6(self) -> Seq<Announced> {
        self.v6@.map_values(|s: Span| span_view(s))
    }

    /// The registrations read so far, in the order read.
    pub closed spec fn spec_directory(self) -> Seq<Registered> {
        self.organisations@.map_values(|o: Organisation| organisation_view(o))
    }

    /// How many bytes of names have been kept.
    pub closed spec fn spec_name_bytes(self) -> nat {
        self.name_bytes as nat
    }

    /// How many range rows have been read, the current one included once it is.
    pub closed spec fn spec_ranges_seen(self) -> nat {
        self.ranges_seen as nat
    }

    /// How many directory rows have been read.
    pub closed spec fn spec_organisations_seen(self) -> nat {
        self.organisations_seen as nat
    }

    /// The IPv4 blocks hold IPv4 numbers, and the names fit the index they are kept under.
    pub closed spec fn wf(self) -> bool {
        &&& forall|k: int| 0 <= k < self.v4@.len() ==> (#[trigger] self.v4@[k]).start <= u32::MAX && self.v4@[k].end <= u32::MAX
        &&& self.name_bytes <= u32::MAX + 0x1_0000
    }

    /// A builder with room reserved for a bundle of the given size.
    ///
    /// Reserving matters: growing to half a million entries one push at a time reallocates
    /// repeatedly and briefly holds twice the final table.
    pub fn with_capacity(ranges: usize, organisations: usize) -> (b: AsnTableBuilder)
        ensures
            b.wf(),
            b.spec_v4().len() == 0 && b.spec_v6().len() == 0 && b.spec_directory().len() == 0,
            b.spec_name_bytes() == 0 && b.spec_ranges_seen() == 0 && b.spec_organisations_seen() == 0,
    {
        let b = AsnTableBuilder {
            v4: Vec::with_capacity(ranges),
            v6: Vec::new(),
            organisations: Vec::with_capacity(organisations),
            name_bytes: 0,
            ranges_seen: 0,
            organisations_seen: 0,
        };
        assert(b.spec_v4() =~= Seq::<Announced>::empty());
        assert(b.spec_v6() =~= Seq::<Announced>::empty());
        assert(b.spec_directory() =~= Seq::<Registered>::empty());
        b
    }

    /// Reads one row of the range file: first address, last address and number,
    /// tab-separated.
    ///
    /// Blank rows and comments are skipped, as are blocks nobody announces. Returns
    /// `Error::MalformedAsnRow`, naming the file and line and quoting the row, for a row
    /// with the wrong number of fields, an address or number that does not read, ends of
    /// different families, or an end below its start.
    #[verifier::spinoff_prover]
    #[verifier::rlimit(50)]
    pub fn push_range(&mut self, line: &str) -> (r: Result<(), Error>)
        requires
            old(self).wf(),
            old(self).spec_ranges_seen() < usize::MAX,
        ensures
            final(self).wf(),
            final(self).spec_ranges_seen() == old(self).spec_ranges_seen() + 1,
            final(self).spec_organisations_seen() == old(self).spec_organisations_seen(),
            final(self).spec_directory() == old(self).spec_directory(),
            final(self).spec_name_bytes() == old(self).spec_name_bytes(),
            range_refused(line.spec_bytes()) ==> malformed(r, RANGES_FILE, final(self).spec_ranges_seen(), line.spec_bytes()),
            !range_refused(line.spec_bytes()) ==> r is Ok,
            final(self).spec_v4() == old(self).spec_v4() + optional(kept_v4(line.spec_bytes())),
            final(self).spec_v6() == old(self).spec_v6() + optional(kept_v6(line.spec_bytes())),
    {
        proof {
            reveal(kept_v4);
            reveal(kept_v6);
            reveal(range_refused);
        }
        self.ranges_seen = self.ranges_seen + 1;
        let b = line.as_bytes();
        let (lo, hi) = trim_bounds(b, 0, b.len());
        if lo == hi || b[lo] == 35 {
            proof {
                assert(trimmed(b@, 0, b@.len() as int) =~= b@.subrange(lo as int, hi as int));
            }
            return Ok(());
        }
        proof {
            assert(trimmed(b@, 0, b@.len() as int) =~= b@.subrange(lo as int, hi as int));
            assert(trimmed(b@, 0, b@.len() as int)[0] == b@[lo as int]);
        }
        let parts = split_bytes(b, 9);
        if parts.len() != 3 {
            return Err(Error::MalformedAsnRow { file: RANGES_FILE, line: self.ranges_seen, raw: quoted(line) });
        }
        let start = parse_ip(parts[0].as_slice());
        let end = parse_ip(parts[1].as_slice());
        let number = parse_unsigned(parts[2].as_slice(), 0xFFFF_FFFF);
        let (start, end, number) = match (start, end, number) {
            (Some(start), Some(end), Some(number)) => (start, end, number as u32),
            _ => {
                return Err(Error::MalformedAsnRow { file: RANGES_FILE, line: self.ranges_seen, raw: quoted(line) });
            },
        };
        if number == NOT_ROUTED {
            return Ok(());
        }
        match (start, end) {
            (IpAddr::V4(x), IpAddr::V4(y)) => if x <= y {
                self.v4.push(Span { start: x as u128, end: y as u128, number });
                proof {
                    assert(self.spec_v4() =~= old(self).spec_v4().push((x as u128, y as u128, number)));
                }
                Ok(())
            } else {
                Err(Error::MalformedAsnRow { file: RANGES_FILE, line: self.ranges_seen, raw: quoted(line) })
            },
            (IpAddr::V6(x), IpAddr::V6(y)) => if x <= y {
                self.v6.push(Span { start: x, end: y, number });
                proof {
                    assert(self.spec_v6() =~= old(self).spec_v6().push((x, y, number)));
                }
                Ok(())
            } else {
                Err(Error::MalformedAsnRow { file: RANGES_FILE, line: self.ranges_seen, raw: quoted(line) })
            },
            _ => Err(Error::MalformedAsnRow { file: RANGES_FILE, line: self.ranges_seen, raw: quoted(line) }),
        }
    }
    /// Reads one row of the directory file: number, country and name, tab-separated.
    ///
    /// The name is the rest of the row, so a name holding a tab survives intact, and white
    /// space around it is dropped. Blank rows and comments are skipped, as are rows for
    /// address space nobody announces. Returns `Error::MalformedAsnRow`, naming the file and
    /// line and quoting the row, for a row with fewer than three fields, a number that does
    /// not read, or a name longer than 65535 bytes; and `Error::AsnDataTooLarge` once the
    /// names kept so far pass 4 GiB, beyond what the table can index.
    #[verifier::spinoff_prover]
    #[verifier::rlimit(50)]
    pub fn push_organisation(&mut self, line: &str) -> (r: Result<(), Error>)
        requires
            old(self).wf(),
            old(self).spec_organisations_seen() < usize::MAX,
        ensures
            final(self).wf(),
            final(self).spec_organisations_seen() == old(self).spec_organisations_seen() + 1,
            final(self).spec_ranges_seen() == old(self).spec_ranges_seen(),
            final(self).spec_v4() == old(self).spec_v4(),
            final(self).spec_v6() == old(self).spec_v6(),
            ({
                let b = line.spec_bytes();
                let before = old(self).spec_directory();
                let after = final(self).spec_directory();
                let unchanged = after == before && final(self).spec_name_bytes() == old(self).spec_name_bytes();
                &&& directory_refused(b) ==> malformed(r, DIRECTORY_FILE, final(self).spec_organisations_seen(), b)
                    && unchanged
                &&& directory_adds(b) is None && !directory_refused(b) ==> r is Ok && unchanged
                &&& directory_adds(b) is Some && old(self).spec_name_bytes() > u32::MAX ==> (r matches Err(
                    Error::AsnDataTooLarge,
                )) && unchanged
                &&& directory_adds(b) is Some && old(self).spec_name_bytes() <= u32::MAX ==> {
                    &&& r is Ok
                    &&& after == before.push(after.last())
                    &&& registration(after.last(), b)
                    &&& final(self).spec_name_bytes() == old(self).spec_name_bytes() + directory_name(b).len()
                }
            }),
    {
        proof {
            reveal(directory_adds);
            reveal(directory_refused);
            reveal(registration);
        }
        self.organisations_seen = self.organisations_seen + 1;
        let b = line.as_bytes();
        let ghost bytes = b@;
        let (lo, hi) = trim_bounds(b, 0, b.len());
        if lo == hi || b[lo] == 35 {
            proof {
                assert(trimmed(bytes, 0, bytes.len() as int) =~= bytes.subrange(lo as int, hi as int));
            }
            return Ok(());
        }
        proof {
            assert(trimmed(bytes, 0, bytes.len() as int) =~= bytes.subrange(lo as int, hi as int));
            assert(trimmed(bytes, 0, bytes.len() as int)[0] == bytes[lo as int]);
        }
        let first = find_byte(b, 0, 9);
        let second = if first < b.len() {
            find_byte(b, first + 1, 9)
        } else {
            b.len()
        };
        let ghost head = bytes.take(first as int);
        proof {
            lemma_split_single(head, 9);
            if first == bytes.len() {
                assert(head =~= bytes);
            } else {
                let middle = bytes.subrange(first + 1, second as int);
                lemma_split_single(middle, 9);
                if second == bytes.len() {
                    assert(bytes =~= head + seq![9u8] + middle);
                    lemma_split_join(head, middle, 9);
                } else {
                    let tail = bytes.subrange(second + 1, bytes.len() as int);
                    assert(bytes =~= head + seq![9u8] + (middle + seq![9u8] + tail));
                    lemma_split_join(head, middle + seq![9u8] + tail, 9);
                    lemma_split_join(middle, tail, 9);
                    lemma_split_nonempty(tail, 9);
                }
            }
        }
        if second >= b.len() {
            return Err(Error::MalformedAsnRow { file: DIRECTORY_FILE, line: self.organisations_seen, raw: quoted(line) });
        }
        let number_field = segment(b, 0, first);
        let number = parse_unsigned(number_field.as_slice(), 0xFFFF_FFFF);
        let number = match number {
            Some(n) => n as u32,
            None => {
                return Err(Error::MalformedAsnRow { file: DIRECTORY_FILE, line: self.organisations_seen, raw: quoted(line) });
            },
        };
        if number == NOT_ROUTED {
            return Ok(());
        }
        proof {
            lemma_text_bytes(line);
            lemma_boundary(bytes, second as int);
            lemma_boundary_after(bytes, second as int);
            assert(bytes.subrange(second as int, bytes.len() as int)[0] == 9);
            lemma_trim_boundaries(bytes, second + 1, bytes.len() as int);
        }
        let (start, end) = trim_bounds(b, second + 1, b.len());
        if end - start > 0xFFFF {
            return Err(Error::MalformedAsnRow { file: DIRECTORY_FILE, line: self.organisations_seen, raw: quoted(line) });
        }
        if self.name_bytes > 0xFFFF_FFFF {
            return Err(Error::AsnDataTooLarge);
        }
        let country_field = segment(b, first + 1, second);
        let country = CountryCode::from_field(country_field.as_slice());
        let name = piece(line, start, end);
        let name = name.to_owned();
        self.organisations.push(Organisation { number, name, country });
        self.name_bytes = self.name_bytes + (end - start) as u64;
        proof {
            let after = self.spec_directory();
            assert(after.drop_last() =~= old(self).spec_directory());
            assert(encode_utf8(name@) == bytes.subrange(start as int, end as int));
        }
        Ok(())
    }

    /// Sorts what was read and hands back the finished table.
    ///
    /// Blocks come out by first address. Where one number is registered twice — two
    /// directory files concatenated, a hand-edited duplicate — the first row read wins, so a
    /// bundle's own entry cannot be displaced by something appended after it.
    pub fn finish(self) -> (t: AsnTable)
        ensures
            t.wf(),
            rearranges(t.spec_v4(), self.spec_v4()),
            rearranges(t.spec_v6(), self.spec_v6()),
            first_registrations(t.spec_directory(), self.spec_directory()),
    {
        let v4 = span_order(&self.v4);
        let v6 = span_order(&self.v6);
        let organisations = directory_order(&self.organisations);
        AsnTable { v4, v6, organisations }
    }
}

impl Default for AsnTableBuilder {
    /// A builder that has read nothing.
    fn default() -> (b: AsnTableBuilder)
        ensures
            b.wf(),
            b.spec_v4().len() == 0 && b.spec_v6().len() == 0 && b.spec_directory().len() == 0,
            b.spec_name_bytes() == 0 && b.spec_ranges_seen() == 0 && b.spec_organisations_seen() == 0,
    {
        AsnTableBuilder::with_capacity(0, 0)
    }
}

} // verus!
