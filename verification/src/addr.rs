//! Validated public addresses.
//!
//! `IpAddress` is the crate's structured value for an IPv4 or IPv6
//! address. Parsing from wire text and rendering back to wire text are
//! verified against specification-level definitions of the two textual
//! grammars: dotted decimal quads for IPv4, and colon-separated
//! hexadecimal groups (with an optional `::` gap) for IPv6.

use vstd::prelude::*;
use vstd::utf8::encode_utf8;

use crate::text::{
    join_bytes, lemma_join_split, lemma_split_no_sep, lemma_split_prefix, split_bytes, split_on,
    views_of,
};

verus! {

/// A validated IPv4 or IPv6 address, immutable once parsed.
#[derive(Clone, Copy, PartialEq, Eq, Structural, Debug, Hash)]
pub enum IpAddress {
    /// Four octets, most significant first.
    V4(u8, u8, u8, u8),
    /// Eight 16-bit groups, most significant first.
    V6(u16, u16, u16, u16, u16, u16, u16, u16),
}

/// The byte for the ASCII dot separator.
pub open spec fn dot() -> u8 {
    46
}

/// The byte for the ASCII colon separator.
pub open spec fn colon() -> u8 {
    58
}

pub open spec fn is_digit(b: u8) -> bool {
    48 <= b <= 57
}

pub open spec fn digit_val(b: u8) -> int {
    b - 48
}

pub open spec fn all_digits(s: Seq<u8>) -> bool {
    forall|i: int| 0 <= i < s.len() ==> is_digit(s[i])
}

/// The number denoted by a string of decimal digits.
pub open spec fn dec_value(s: Seq<u8>) -> int
    decreases s.len(),
{
    if s.len() == 0 {
        0
    } else {
        dec_value(s.drop_last()) * 10 + digit_val(s.last())
    }
}

/// A well-formed dotted-quad piece: one to three decimal digits, no
/// leading zero, value at most 255.
pub open spec fn octet_ok(s: Seq<u8>) -> bool {
    &&& 1 <= s.len() <= 3
    &&& all_digits(s)
    &&& (s.len() > 1 ==> s[0] != 48)
    &&& dec_value(s) <= 255
}

/// The IPv4 address denoted by a byte string, if it is well formed:
/// exactly four dot-separated pieces, each a well-formed octet.
pub open spec fn spec_parse_v4(s: Seq<u8>) -> Option<IpAddress> {
    let ps = split_bytes(s, dot());
    if ps.len() == 4 && octet_ok(ps[0]) && octet_ok(ps[1]) && octet_ok(ps[2]) && octet_ok(ps[3]) {
        Some(
            IpAddress::V4(
                dec_value(ps[0]) as u8,
                dec_value(ps[1]) as u8,
                dec_value(ps[2]) as u8,
                dec_value(ps[3]) as u8,
            ),
        )
    } else {
        None
    }
}

spec fn max_dec(i: int) -> int {
    if i <= 0 {
        0
    } else if i == 1 {
        9
    } else if i == 2 {
        99
    } else {
        999
    }
}

fn parse_octet(part: &[u8]) -> (r: Option<u8>)
    ensures
        r == (if octet_ok(part@) {
            Some(dec_value(part@) as u8)
        } else {
            None::<u8>
        }),
{
    let n = part.len();
    if n == 0 || n > 3 {
        return None;
    }
    if n > 1 && part[0] == 48 {
        return None;
    }
    let mut acc: u32 = 0;
    let mut i: usize = 0;
    while i < n
        invariant
            0 <= i <= n,
            n == part@.len(),
            1 <= n <= 3,
            all_digits(part@.take(i as int)),
            acc == dec_value(part@.take(i as int)),
            acc <= max_dec(i as int),
        decreases n - i,
    {
        let b = part[i];
        if b < 48 || b > 57 {
            proof {
                assert(!is_digit(part@[i as int]));
            }
            return None;
        }
        proof {
            assert(part@.take(i + 1).drop_last() =~= part@.take(i as int));
            assert(part@.take(i + 1).last() == part@[i as int]);
            assert(forall|j: int| 0 <= j < i + 1 ==> is_digit(#[trigger] part@.take(i + 1)[j]));
        }
        acc = acc * 10 + ((b - 48) as u32);
        i = i + 1;
    }
    proof {
        assert(part@.take(n as int) =~= part@);
    }
    if acc > 255 {
        None
    } else {
        Some(acc as u8)
    }
}

pub open spec fn is_hex_digit(b: u8) -> bool {
    is_digit(b) || (97 <= b <= 102) || (65 <= b <= 70)
}

pub open spec fn hex_val(b: u8) -> int {
    if is_digit(b) {
        b - 48
    } else if 97 <= b <= 102 {
        b - 87
    } else {
        b - 55
    }
}

pub open spec fn all_hex(s: Seq<u8>) -> bool {
    forall|i: int| 0 <= i < s.len() ==> is_hex_digit(s[i])
}

/// The number denoted by a string of hexadecimal digits.
pub open spec fn hex_value(s: Seq<u8>) -> int
    decreases s.len(),
{
    if s.len() == 0 {
        0
    } else {
        hex_value(s.drop_last()) * 16 + hex_val(s.last())
    }
}

/// A well-formed IPv6 group: one to four hexadecimal digits.
pub open spec fn group_ok(s: Seq<u8>) -> bool {
    1 <= s.len() <= 4 && all_hex(s)
}

pub open spec fn groups_ok(ps: Seq<Seq<u8>>) -> bool {
    forall|i: int| 0 <= i < ps.len() ==> group_ok(#[trigger] ps[i])
}

pub open spec fn group_vals(ps: Seq<Seq<u8>>) -> Seq<int> {
    ps.map_values(|g: Seq<u8>| hex_value(g))
}

pub open spec fn zero_groups(n: int) -> Seq<int> {
    Seq::new(n as nat, |i: int| 0)
}

pub open spec fn v6_from(vs: Seq<int>) -> IpAddress {
    IpAddress::V6(
        vs[0] as u16,
        vs[1] as u16,
        vs[2] as u16,
        vs[3] as u16,
        vs[4] as u16,
        vs[5] as u16,
        vs[6] as u16,
        vs[7] as u16,
    )
}

/// The position of the first `::`, if any.
pub open spec fn find_double_colon(s: Seq<u8>) -> Option<int>
    decreases s.len(),
{
    if s.len() < 2 {
        None
    } else if s[0] == colon() && s[1] == colon() {
        Some(0)
    } else {
        match find_double_colon(s.skip(1)) {
            Some(i) => Some(i + 1),
            None => None,
        }
    }
}

/// The IPv6 address denoted by a byte string, if it is well formed:
/// either eight colon-separated groups, or at most seven groups around
/// a single `::` that stands for the missing zero groups.
pub open spec fn spec_parse_v6(s: Seq<u8>) -> Option<IpAddress> {
    match find_double_colon(s) {
        None => {
            let ps = split_bytes(s, colon());
            if ps.len() == 8 && groups_ok(ps) {
                Some(v6_from(group_vals(ps)))
            } else {
                None
            }
        },
        Some(p) => {
            let left = s.take(p);
            let right = s.skip(p + 2);
            let lp = if left.len() == 0 {
                Seq::<Seq<u8>>::empty()
            } else {
                split_bytes(left, colon())
            };
            let rp = if right.len() == 0 {
                Seq::<Seq<u8>>::empty()
            } else {
                split_bytes(right, colon())
            };
            if groups_ok(lp) && groups_ok(rp) && lp.len() + rp.len() <= 7 {
                Some(
                    v6_from(
                        group_vals(lp) + zero_groups(8 - lp.len() - rp.len()) + group_vals(rp),
                    ),
                )
            } else {
                None
            }
        },
    }
}

proof fn lemma_dc_none(s: Seq<u8>)
    requires
        forall|j: int| 0 <= j && j + 1 < s.len() ==> !(#[trigger] s[j] == colon() && s[j + 1] == colon()),
    ensures
        find_double_colon(s) is None,
    decreases s.len(),
{
    if s.len() >= 2 {
        assert(forall|j: int|
            0 <= j && j + 1 < s.skip(1).len() ==> !(#[trigger] s.skip(1)[j] == colon() && s.skip(1)[j + 1]
                == colon()));
        lemma_dc_none(s.skip(1));
    }
}

proof fn lemma_dc_at(s: Seq<u8>, i: int)
    requires
        0 <= i,
        i + 1 < s.len(),
        s[i] == colon(),
        s[i + 1] == colon(),
        forall|j: int| 0 <= j < i ==> !(#[trigger] s[j] == colon() && s[j + 1] == colon()),
    ensures
        find_double_colon(s) == Some(i),
    decreases i,
{
    if i > 0 {
        lemma_dc_at(s.skip(1), i - 1);
    }
}

/// Finds the first occurrence of two adjacent colons.
fn find_dc(s: &[u8]) -> (r: Option<usize>)
    ensures
        match r {
            Some(i) => {
                &&& find_double_colon(s@) == Some(i as int)
                &&& i + 1 < s@.len()
                &&& s@[i as int] == colon()
                &&& s@[i + 1] == colon()
            },
            None => find_double_colon(s@) is None,
        },
{
    if s.len() < 2 {
        proof {
            lemma_dc_none(s@);
        }
        return None;
    }
    let mut i: usize = 0;
    while i < s.len() - 1
        invariant
            0 <= i < s@.len(),
            forall|j: int| 0 <= j < i ==> !(#[trigger] s@[j] == colon() && s@[j + 1] == colon()),
        decreases s@.len() - i,
    {
        if s[i] == 58 && s[i + 1] == 58 {
            proof {
                lemma_dc_at(s@, i as int);
            }
            return Some(i);
        }
        i = i + 1;
    }
    proof {
        lemma_dc_none(s@);
    }
    None
}

spec fn max_hex(i: int) -> int {
    if i <= 0 {
        0
    } else if i == 1 {
        15
    } else if i == 2 {
        255
    } else if i == 3 {
        4095
    } else {
        65535
    }
}

fn hex_digit_value(b: u8) -> (r: Option<u8>)
    ensures
        r == (if is_hex_digit(b) {
            Some(hex_val(b) as u8)
        } else {
            None::<u8>
        }),
{
    if 48 <= b && b <= 57 {
        Some(b - 48)
    } else if 97 <= b && b <= 102 {
        Some(b - 87)
    } else if 65 <= b && b <= 70 {
        Some(b - 55)
    } else {
        None
    }
}

fn parse_group(part: &[u8]) -> (r: Option<u16>)
    ensures
        r == (if group_ok(part@) {
            Some(hex_value(part@) as u16)
        } else {
            None::<u16>
        }),
{
    let n = part.len();
    if n == 0 || n > 4 {
        return None;
    }
    let mut acc: u32 = 0;
    let mut i: usize = 0;
    while i < n
        invariant
            0 <= i <= n,
            n == part@.len(),
            1 <= n <= 4,
            all_hex(part@.take(i as int)),
            acc == hex_value(part@.take(i as int)),
            acc <= max_hex(i as int),
        decreases n - i,
    {
        let b = part[i];
        match hex_digit_value(b) {
            None => {
                proof {
                    assert(!is_hex_digit(part@[i as int]));
                }
                return None;
            },
            Some(d) => {
                proof {
                    assert(part@.take(i + 1).drop_last() =~= part@.take(i as int));
                    assert(part@.take(i + 1).last() == part@[i as int]);
                    assert(forall|j: int|
                        0 <= j < i + 1 ==> is_hex_digit(#[trigger] part@.take(i + 1)[j]));
                }
                acc = acc * 16 + (d as u32);
                i = i + 1;
            },
        }
    }
    proof {
        assert(part@.take(n as int) =~= part@);
    }
    Some(acc as u16)
}

/// Parses a byte string as a colon-separated IPv6 address.
#[verifier::rlimit(60)]
#[verifier::loop_isolation(false)]
fn parse_v6(s: &[u8]) -> (r: Option<IpAddress>)
    ensures
        r == spec_parse_v6(s@),
{
    match find_dc(s) {
        None => {
            let parts = split_on(s, 58);
            let ghost ps = split_bytes(s@, colon());
            if parts.len() != 8 {
                return None;
            }
            let mut vals: Vec<u16> = Vec::new();
            let mut i: usize = 0;
            while i < 8
                invariant
                    0 <= i <= 8,
                    parts@.len() == 8,
                    ps == views_of(parts@),
                    ps == split_bytes(s@, colon()),
                    find_double_colon(s@) is None,
                    vals@.len() == i,
                    forall|j: int| 0 <= j < i ==> group_ok(#[trigger] ps[j]),
                    forall|j: int| 0 <= j < i ==> vals@[j] == hex_value(ps[j]) as u16,
                decreases 8 - i,
            {
                proof {
                    assert(ps[i as int] == parts@[i as int]@);
                }
                match parse_group(parts[i].as_slice()) {
                    Some(v) => {
                        vals.push(v);
                    },
                    None => {
                        proof {
                            assert(!group_ok(ps[i as int]));
                        }
                        return None;
                    },
                }
                i = i + 1;
            }
            proof {
                assert(groups_ok(ps));
                assert(forall|j: int|
                    0 <= j < 8 ==> #[trigger] group_vals(ps)[j] == hex_value(ps[j]));
            }
            Some(
                IpAddress::V6(
                    vals[0],
                    vals[1],
                    vals[2],
                    vals[3],
                    vals[4],
                    vals[5],
                    vals[6],
                    vals[7],
                ),
            )
        },
        Some(p) => {
            let n = s.len();
            proof {
                assert(p + 2 <= n);
            }
            let lslice = vstd::slice::slice_subrange(s, 0, p);
            let rslice = vstd::slice::slice_subrange(s, p + 2, n);
            let ghost left = s@.take(p as int);
            let ghost right = s@.skip(p + 2);
            proof {
                assert(lslice@ =~= left);
                assert(rslice@ =~= right);
            }
            let lparts: Vec<Vec<u8>> = if lslice.len() == 0 {
                Vec::new()
            } else {
                split_on(lslice, 58)
            };
            let rparts: Vec<Vec<u8>> = if rslice.len() == 0 {
                Vec::new()
            } else {
                split_on(rslice, 58)
            };
            let ghost lp = if left.len() == 0 {
                Seq::<Seq<u8>>::empty()
            } else {
                split_bytes(left, colon())
            };
            let ghost rp = if right.len() == 0 {
                Seq::<Seq<u8>>::empty()
            } else {
                split_bytes(right, colon())
            };
            proof {
                assert(views_of(lparts@) =~~= lp);
                assert(views_of(rparts@) =~~= rp);
            }
            if lparts.len() > 7 {
                return None;
            }
            if rparts.len() > 7 - lparts.len() {
                return None;
            }
            let mid: usize = 8 - lparts.len() - rparts.len();
            let ghost vs = group_vals(lp) + zero_groups(8 - lp.len() - rp.len()) + group_vals(rp);
            let mut vals: Vec<u16> = Vec::new();
            let mut i: usize = 0;
            while i < lparts.len()
                invariant
                    0 <= i <= lparts@.len(),
                    lp == views_of(lparts@),
                    vals@.len() == i,
                    forall|j: int| 0 <= j < i ==> group_ok(#[trigger] lp[j]),
                    forall|j: int| 0 <= j < i ==> vals@[j] == hex_value(lp[j]) as u16,
                decreases lparts@.len() - i,
            {
                proof {
                    assert(lp[i as int] == lparts@[i as int]@);
                }
                match parse_group(lparts[i].as_slice()) {
                    Some(v) => {
                        vals.push(v);
                    },
                    None => {
                        proof {
                            assert(!group_ok(lp[i as int]));
                        }
                        return None;
                    },
                }
                i = i + 1;
            }
            let mut k: usize = 0;
            while k < mid
                invariant
                    0 <= k <= mid,
                    vals@.len() == lparts@.len() + k,
                    lp == views_of(lparts@),
                    forall|j: int| 0 <= j < lp.len() ==> group_ok(#[trigger] lp[j]),
                    forall|j: int| 0 <= j < lp.len() ==> vals@[j] == hex_value(lp[j]) as u16,
                    forall|j: int| lp.len() <= j < lp.len() + k ==> vals@[j] == 0u16,
                decreases mid - k,
            {
                vals.push(0);
                k = k + 1;
            }
            let mut i2: usize = 0;
            while i2 < rparts.len()
                invariant
                    0 <= i2 <= rparts@.len(),
                    lp == views_of(lparts@),
                    rp == views_of(rparts@),
                    vals@.len() == lparts@.len() + mid + i2,
                    mid == 8 - lparts@.len() - rparts@.len(),
                    lparts@.len() + rparts@.len() <= 7,
                    forall|j: int| 0 <= j < lp.len() ==> group_ok(#[trigger] lp[j]),
                    forall|j: int| 0 <= j < lp.len() ==> vals@[j] == hex_value(lp[j]) as u16,
                    forall|j: int| lp.len() <= j < lp.len() + mid ==> vals@[j] == 0u16,
                    forall|j: int| 0 <= j < i2 ==> group_ok(#[trigger] rp[j]),
                    forall|j: int|
                        0 <= j < i2 ==> vals@[lp.len() + mid + j] == hex_value(rp[j]) as u16,
                decreases rparts@.len() - i2,
            {
                proof {
                    assert(rp[i2 as int] == rparts@[i2 as int]@);
                }
                match parse_group(rparts[i2].as_slice()) {
                    Some(v) => {
                        vals.push(v);
                    },
                    None => {
                        proof {
                            assert(!group_ok(rp[i2 as int]));
                        }
                        return None;
                    },
                }
                i2 = i2 + 1;
            }
            proof {
                assert(groups_ok(lp));
                assert(groups_ok(rp));
                assert(vs.len() == 8);
                assert(forall|j: int|
                    0 <= j < lp.len() ==> #[trigger] vs[j] == hex_value(lp[j]));
                assert(forall|j: int| lp.len() <= j < lp.len() + mid ==> #[trigger] vs[j] == 0);
                assert(forall|j: int|
                    0 <= j < rp.len() ==> #[trigger] vs[lp.len() + mid + j] == hex_value(rp[j]));
                assert(forall|j: int| 0 <= j < 8 ==> #[trigger] vals@[j] == vs[j] as u16);
            }
            Some(
                IpAddress::V6(
                    vals[0],
                    vals[1],
                    vals[2],
                    vals[3],
                    vals[4],
                    vals[5],
                    vals[6],
                    vals[7],
                ),
            )
        },
    }
}

/// Parses a byte string as a dotted-quad IPv4 address.
fn parse_v4(s: &[u8]) -> (r: Option<IpAddress>)
    ensures
        r == spec_parse_v4(s@),
{
    let parts = split_on(s, 46);
    proof {
        assert(views_of(parts@).len() == parts@.len());
    }
    if parts.len() != 4 {
        return None;
    }
    proof {
        assert(views_of(parts@)[0] == parts@[0]@);
        assert(views_of(parts@)[1] == parts@[1]@);
        assert(views_of(parts@)[2] == parts@[2]@);
        assert(views_of(parts@)[3] == parts@[3]@);
    }
    let a = parse_octet(parts[0].as_slice());
    let b = parse_octet(parts[1].as_slice());
    let c = parse_octet(parts[2].as_slice());
    let d = parse_octet(parts[3].as_slice());
    match (a, b, c, d) {
        (Some(a), Some(b), Some(c), Some(d)) => Some(IpAddress::V4(a, b, c, d)),
        _ => None,
    }
}

/// The address denoted by a byte string: IPv4 if the text is a dotted
/// quad, IPv6 if it is a colon-separated group form.
pub open spec fn spec_parse_ip(s: Seq<u8>) -> Option<IpAddress> {
    if spec_parse_v4(s) is Some {
        spec_parse_v4(s)
    } else {
        spec_parse_v6(s)
    }
}

/// Parses a byte string as an IPv4 or IPv6 address.
pub fn parse_ip_bytes(s: &[u8]) -> (r: Option<IpAddress>)
    ensures
        r == spec_parse_ip(s@),
{
    match parse_v4(s) {
        Some(a) => Some(a),
        None => parse_v6(s),
    }
}

/// The UTF-8 bytes of a text value; for the ASCII texts this crate
/// renders and parses, byte `i` is character `i`.
pub open spec fn text_bytes(s: Seq<char>) -> Seq<u8> {
    encode_utf8(s)
}

/// Parses a text as an IPv4 or IPv6 address.
pub fn parse_ip(s: &str) -> (r: Option<IpAddress>)
    ensures
        r == spec_parse_ip(text_bytes(s@)),
{
    parse_ip_bytes(s.as_bytes())
}

pub open spec fn dec_digit(n: int) -> u8 {
    (48 + n) as u8
}

/// The shortest decimal rendering of an octet value.
pub open spec fn dec_text(n: int) -> Seq<u8> {
    if n < 10 {
        seq![dec_digit(n)]
    } else if n < 100 {
        seq![dec_digit(n / 10), dec_digit(n % 10)]
    } else {
        seq![dec_digit(n / 100), dec_digit((n / 10) % 10), dec_digit(n % 10)]
    }
}

pub open spec fn hex_digit_byte(n: int) -> u8 {
    if n < 10 {
        (48 + n) as u8
    } else {
        (87 + n) as u8
    }
}

/// The shortest lowercase hexadecimal rendering of a group value.
pub open spec fn hex_text(n: int) -> Seq<u8> {
    if n < 16 {
        seq![hex_digit_byte(n)]
    } else if n < 256 {
        seq![hex_digit_byte(n / 16), hex_digit_byte(n % 16)]
    } else if n < 4096 {
        seq![hex_digit_byte(n / 256), hex_digit_byte((n / 16) % 16), hex_digit_byte(n % 16)]
    } else {
        seq![
            hex_digit_byte(n / 4096),
            hex_digit_byte((n / 256) % 16),
            hex_digit_byte((n / 16) % 16),
            hex_digit_byte(n % 16),
        ]
    }
}

/// The canonical dotted-quad rendering of an IPv4 address.
pub open spec fn v4_text(a: u8, b: u8, c: u8, d: u8) -> Seq<u8> {
    dec_text(a as int) + seq![dot()] + dec_text(b as int) + seq![dot()] + dec_text(c as int)
        + seq![dot()] + dec_text(d as int)
}

/// The uncompressed eight-group rendering of an IPv6 address.
pub open spec fn v6_text(
    g0: u16,
    g1: u16,
    g2: u16,
    g3: u16,
    g4: u16,
    g5: u16,
    g6: u16,
    g7: u16,
) -> Seq<u8> {
    hex_text(g0 as int) + seq![colon()] + hex_text(g1 as int) + seq![colon()] + hex_text(g2 as int)
        + seq![colon()] + hex_text(g3 as int) + seq![colon()] + hex_text(g4 as int)
        + seq![colon()] + hex_text(g5 as int) + seq![colon()] + hex_text(g6 as int)
        + seq![colon()] + hex_text(g7 as int)
}

/// The wire rendering of an address.
pub open spec fn spec_ip_text(a: IpAddress) -> Seq<u8> {
    match a {
        IpAddress::V4(x0, x1, x2, x3) => v4_text(x0, x1, x2, x3),
        IpAddress::V6(g0, g1, g2, g3, g4, g5, g6, g7) => v6_text(g0, g1, g2, g3, g4, g5, g6, g7),
    }
}

/// Appends the decimal rendering of one octet.
fn push_dec(out: &mut Vec<u8>, n: u8)
    ensures
        final(out)@ == old(out)@ + dec_text(n as int),
{
    if n >= 100 {
        out.push(48 + n / 100);
    }
    if n >= 10 {
        out.push(48 + (n / 10) % 10);
    }
    out.push(48 + n % 10);
    proof {
        if n < 10 {
            assert(n % 10 == n as int);
            assert(out@ =~= old(out)@ + dec_text(n as int));
        } else if n < 100 {
            assert((n / 10) % 10 == n as int / 10);
            assert(out@ =~= old(out)@ + dec_text(n as int));
        } else {
            assert(out@ =~= old(out)@ + dec_text(n as int));
        }
    }
}

/// Appends the hexadecimal rendering of one group.
fn push_hex(out: &mut Vec<u8>, g: u16)
    ensures
        final(out)@ == old(out)@ + hex_text(g as int),
{
    if g >= 4096 {
        out.push(hex_char((g / 4096) as u8));
    }
    if g >= 256 {
        out.push(hex_char(((g / 256) % 16) as u8));
    }
    if g >= 16 {
        out.push(hex_char(((g / 16) % 16) as u8));
    }
    out.push(hex_char((g % 16) as u8));
    proof {
        if g < 16 {
            assert(g % 16 == g as int);
            assert(out@ =~= old(out)@ + hex_text(g as int));
        } else if g < 256 {
            assert((g / 16) % 16 == g as int / 16);
            assert(out@ =~= old(out)@ + hex_text(g as int));
        } else if g < 4096 {
            assert((g / 256) % 16 == g as int / 256);
            assert(out@ =~= old(out)@ + hex_text(g as int));
        } else {
            assert(out@ =~= old(out)@ + hex_text(g as int));
        }
    }
}

fn hex_char(d: u8) -> (r: u8)
    requires
        d < 16,
    ensures
        r == hex_digit_byte(d as int),
{
    if d < 10 {
        48 + d
    } else {
        87 + d
    }
}

/// Renders an address to its wire bytes.
pub fn ip_text_bytes(a: &IpAddress) -> (r: Vec<u8>)
    ensures
        r@ == spec_ip_text(*a),
{
    let mut out: Vec<u8> = Vec::new();
    match *a {
        IpAddress::V4(x0, x1, x2, x3) => {
            push_dec(&mut out, x0);
            out.push(46);
            push_dec(&mut out, x1);
            out.push(46);
            push_dec(&mut out, x2);
            out.push(46);
            push_dec(&mut out, x3);
            proof {
                assert(out@ =~= spec_ip_text(*a));
            }
        },
        IpAddress::V6(g0, g1, g2, g3, g4, g5, g6, g7) => {
            push_hex(&mut out, g0);
            out.push(58);
            push_hex(&mut out, g1);
            out.push(58);
            push_hex(&mut out, g2);
            out.push(58);
            push_hex(&mut out, g3);
            out.push(58);
            push_hex(&mut out, g4);
            out.push(58);
            push_hex(&mut out, g5);
            out.push(58);
            push_hex(&mut out, g6);
            out.push(58);
            push_hex(&mut out, g7);
            proof {
                assert(out@ =~= spec_ip_text(*a));
            }
        },
    }
    out
}

/// Relies on `String::from_utf8`: the byte content of the returned
/// string is exactly the vector given, which is valid UTF-8 because
/// every byte is ASCII.
#[verifier::external_body]
fn bytes_to_string(v: Vec<u8>) -> (s: String)
    requires
        forall|i: int| 0 <= i < v@.len() ==> v@[i] < 128,
    ensures
        text_bytes(s@) == v@,
{
    String::from_utf8(v).unwrap_or_default()
}

impl IpAddress {
    /// Renders the address in its wire form: a dotted decimal quad for
    /// IPv4, eight lowercase hexadecimal groups for IPv6.
    pub fn to_text(&self) -> (s: String)
        ensures
            text_bytes(s@) == spec_ip_text(*self),
    {
        let v = ip_text_bytes(self);
        proof {
            lemma_ip_text_ascii(*self);
        }
        bytes_to_string(v)
    }
}

/// Every byte of a rendered address is ASCII.
pub proof fn lemma_ip_text_ascii(a: IpAddress)
    ensures
        forall|i: int| 0 <= i < spec_ip_text(a).len() ==> spec_ip_text(a)[i] < 128,
{
    match a {
        IpAddress::V4(x0, x1, x2, x3) => {
            lemma_dec_text_octet(x0 as int);
            lemma_dec_text_octet(x1 as int);
            lemma_dec_text_octet(x2 as int);
            lemma_dec_text_octet(x3 as int);
        },
        IpAddress::V6(g0, g1, g2, g3, g4, g5, g6, g7) => {
            lemma_hex_text_group(g0 as int);
            lemma_hex_text_group(g1 as int);
            lemma_hex_text_group(g2 as int);
            lemma_hex_text_group(g3 as int);
            lemma_hex_text_group(g4 as int);
            lemma_hex_text_group(g5 as int);
            lemma_hex_text_group(g6 as int);
            lemma_hex_text_group(g7 as int);
        },
    }
}

/// The decimal rendering of an octet value is a well-formed octet
/// piece and denotes the value itself.
pub proof fn lemma_dec_text_octet(n: int)
    requires
        0 <= n <= 255,
    ensures
        octet_ok(dec_text(n)),
        dec_value(dec_text(n)) == n,
        forall|i: int| 0 <= i < dec_text(n).len() ==> is_digit(#[trigger] dec_text(n)[i]),
{
    reveal_with_fuel(dec_value, 5);
    let t = dec_text(n);
    if n < 10 {
        assert(t.drop_last() =~= Seq::<u8>::empty());
        assert(dec_value(t) == n);
    } else if n < 100 {
        let h = seq![dec_digit(n / 10)];
        assert(t.drop_last() =~= h);
        assert(h.drop_last() =~= Seq::<u8>::empty());
        assert(dec_value(h) == n / 10);
        assert(dec_value(t) == (n / 10) * 10 + n % 10);
        assert(n == (n / 10) * 10 + n % 10);
        assert(n / 10 >= 1);
    } else {
        let h2 = seq![dec_digit(n / 100), dec_digit((n / 10) % 10)];
        let h1 = seq![dec_digit(n / 100)];
        assert(t.drop_last() =~= h2);
        assert(h2.drop_last() =~= h1);
        assert(h1.drop_last() =~= Seq::<u8>::empty());
        assert(dec_value(h1) == n / 100);
        assert(dec_value(h2) == (n / 100) * 10 + (n / 10) % 10);
        assert(n / 10 == (n / 100) * 10 + (n / 10) % 10) by {
            vstd::arithmetic::div_mod::lemma_div_denominator(n, 10, 10);
            vstd::arithmetic::div_mod::lemma_fundamental_div_mod(n / 10, 10);
        };
        assert(dec_value(t) == (n / 10) * 10 + n % 10);
        assert(n == (n / 10) * 10 + n % 10);
        assert(n / 100 >= 1);
    }
}

/// The hexadecimal rendering of a group value is a well-formed group
/// and denotes the value itself; its bytes are never a colon or a dot.
pub proof fn lemma_hex_text_group(n: int)
    requires
        0 <= n <= 65535,
    ensures
        group_ok(hex_text(n)),
        hex_value(hex_text(n)) == n,
        forall|i: int| 0 <= i < hex_text(n).len() ==> is_hex_digit(#[trigger] hex_text(n)[i]),
{
    reveal_with_fuel(hex_value, 6);
    let t = hex_text(n);
    if n < 16 {
        assert(t.drop_last() =~= Seq::<u8>::empty());
        assert(hex_val(hex_digit_byte(n)) == n);
        assert(hex_value(t) == n);
    } else if n < 256 {
        let h = seq![hex_digit_byte(n / 16)];
        assert(t.drop_last() =~= h);
        assert(h.drop_last() =~= Seq::<u8>::empty());
        assert(hex_value(h) == n / 16);
        assert(hex_value(t) == (n / 16) * 16 + n % 16);
        assert(n == (n / 16) * 16 + n % 16);
    } else if n < 4096 {
        let h2 = seq![hex_digit_byte(n / 256), hex_digit_byte((n / 16) % 16)];
        let h1 = seq![hex_digit_byte(n / 256)];
        assert(t.drop_last() =~= h2);
        assert(h2.drop_last() =~= h1);
        assert(h1.drop_last() =~= Seq::<u8>::empty());
        assert(hex_value(h1) == n / 256);
        assert(n / 16 == (n / 256) * 16 + (n / 16) % 16) by {
            vstd::arithmetic::div_mod::lemma_div_denominator(n, 16, 16);
            vstd::arithmetic::div_mod::lemma_fundamental_div_mod(n / 16, 16);
        };
        assert(hex_value(h2) == (n / 256) * 16 + (n / 16) % 16);
        assert(hex_value(t) == (n / 16) * 16 + n % 16);
        assert(n == (n / 16) * 16 + n % 16);
    } else {
        let h3 = seq![
            hex_digit_byte(n / 4096),
            hex_digit_byte((n / 256) % 16),
            hex_digit_byte((n / 16) % 16),
        ];
        let h2 = seq![hex_digit_byte(n / 4096), hex_digit_byte((n / 256) % 16)];
        let h1 = seq![hex_digit_byte(n / 4096)];
        assert(t.drop_last() =~= h3);
        assert(h3.drop_last() =~= h2);
        assert(h2.drop_last() =~= h1);
        assert(h1.drop_last() =~= Seq::<u8>::empty());
        assert(hex_value(h1) == n / 4096);
        assert(n / 256 == (n / 4096) * 16 + (n / 256) % 16) by {
            vstd::arithmetic::div_mod::lemma_div_denominator(n, 256, 16);
            vstd::arithmetic::div_mod::lemma_fundamental_div_mod(n / 256, 16);
        };
        assert(hex_value(h2) == (n / 4096) * 16 + (n / 256) % 16);
        assert(n / 16 == (n / 256) * 16 + (n / 16) % 16) by {
            vstd::arithmetic::div_mod::lemma_div_denominator(n, 16, 16);
            vstd::arithmetic::div_mod::lemma_fundamental_div_mod(n / 16, 16);
        };
        assert(hex_value(h3) == (n / 256) * 16 + (n / 16) % 16);
        assert(hex_value(t) == (n / 16) * 16 + n % 16);
        assert(n == (n / 16) * 16 + n % 16);
    }
}

proof fn lemma_no_dc_extend(x: Seq<u8>, y: Seq<u8>)
    requires
        x.len() > 0,
        forall|i: int| 0 <= i < x.len() ==> #[trigger] x[i] != colon(),
        y.len() > 0,
        y[0] != colon(),
        forall|j: int| 0 <= j && j + 1 < y.len() ==> !(#[trigger] y[j] == colon() && y[j + 1]
            == colon()),
    ensures
        (x + seq![colon()] + y).len() > 0,
        (x + seq![colon()] + y)[0] != colon(),
        forall|j: int|
            0 <= j && j + 1 < (x + seq![colon()] + y).len() ==> !(#[trigger] (x + seq![colon()]
                + y)[j] == colon() && (x + seq![colon()] + y)[j + 1] == colon()),
{
    let s = x + seq![colon()] + y;
    assert forall|j: int| 0 <= j && j + 1 < s.len() implies !(#[trigger] s[j] == colon() && s[j + 1]
        == colon()) by {
        if j + 1 < x.len() {
            assert(s[j] == x[j]);
        } else if j + 1 == x.len() {
            assert(s[j] == x[j]);
        } else if j == x.len() {
            assert(s[j + 1] == y[0]);
        } else {
            assert(s[j] == y[j - x.len() - 1]);
            assert(s[j + 1] == y[j - x.len()]);
        }
    }
}

/// Parsing the canonical rendering of an IPv4 address yields the
/// address back.
pub proof fn lemma_v4_round_trip(x0: u8, x1: u8, x2: u8, x3: u8)
    ensures
        spec_parse_v4(v4_text(x0, x1, x2, x3)) == Some(IpAddress::V4(x0, x1, x2, x3)),
{
    let a = dec_text(x0 as int);
    let b = dec_text(x1 as int);
    let c = dec_text(x2 as int);
    let d = dec_text(x3 as int);
    lemma_dec_text_octet(x0 as int);
    lemma_dec_text_octet(x1 as int);
    lemma_dec_text_octet(x2 as int);
    lemma_dec_text_octet(x3 as int);
    let s = v4_text(x0, x1, x2, x3);
    let t2 = c + seq![dot()] + d;
    let t1 = b + seq![dot()] + t2;
    assert(s =~= a + seq![dot()] + t1);
    lemma_split_prefix(a, t1, dot());
    lemma_split_prefix(b, t2, dot());
    lemma_split_prefix(c, d, dot());
    lemma_split_no_sep(d, dot());
    let ps = split_bytes(s, dot());
    assert(ps =~~= seq![a, b, c, d]);
    assert(octet_ok(ps[0]) && octet_ok(ps[1]) && octet_ok(ps[2]) && octet_ok(ps[3]));
    assert(spec_parse_v4(s) == Some(IpAddress::V4(x0, x1, x2, x3)));
}

/// Piece-wise separator freedom.
pub open spec fn sep_free(s: Seq<u8>, sep: u8) -> bool {
    forall|i: int| 0 <= i < s.len() ==> #[trigger] s[i] != sep
}

/// Splitting a join of separator-free pieces yields the pieces back.
pub proof fn lemma_split_of_join(ps: Seq<Seq<u8>>, sep: u8)
    requires
        ps.len() >= 1,
        forall|k: int| 0 <= k < ps.len() ==> sep_free(#[trigger] ps[k], sep),
    ensures
        split_bytes(join_bytes(ps, sep), sep) == ps,
    decreases ps.len(),
{
    if ps.len() == 1 {
        lemma_split_no_sep(ps[0], sep);
        assert(split_bytes(join_bytes(ps, sep), sep) =~~= ps);
    } else {
        assert(forall|k: int| 0 <= k < ps.skip(1).len() ==> sep_free(#[trigger] ps.skip(1)[k], sep));
        lemma_split_of_join(ps.skip(1), sep);
        lemma_split_prefix(ps[0], join_bytes(ps.skip(1), sep), sep);
        assert(seq![ps[0]] + ps.skip(1) =~~= ps);
    }
}

proof fn lemma_no_dc_of_join(ps: Seq<Seq<u8>>)
    requires
        ps.len() >= 1,
        forall|k: int| 0 <= k < ps.len() ==> (#[trigger] ps[k]).len() > 0,
        forall|k: int| 0 <= k < ps.len() ==> sep_free(#[trigger] ps[k], colon()),
    ensures
        join_bytes(ps, colon()).len() > 0,
        join_bytes(ps, colon())[0] != colon(),
        forall|j: int|
            0 <= j && j + 1 < join_bytes(ps, colon()).len() ==> !(#[trigger] join_bytes(
                ps,
                colon(),
            )[j] == colon() && join_bytes(ps, colon())[j + 1] == colon()),
    decreases ps.len(),
{
    if ps.len() == 1 {
        assert(join_bytes(ps, colon()) == ps[0]);
    } else {
        assert(forall|k: int| 0 <= k < ps.skip(1).len() ==> (#[trigger] ps.skip(1)[k]).len() > 0);
        assert(forall|k: int|
            0 <= k < ps.skip(1).len() ==> sep_free(#[trigger] ps.skip(1)[k], colon()));
        lemma_no_dc_of_join(ps.skip(1));
        lemma_no_dc_extend(ps[0], join_bytes(ps.skip(1), colon()));
    }
}

/// The canonical IPv6 rendering is the colon-join of the eight
/// rendered groups.
#[verifier::rlimit(100)]
proof fn lemma_v6_text_is_join(g0: u16, g1: u16, g2: u16, g3: u16, g4: u16, g5: u16, g6: u16, g7: u16)
    ensures
        v6_text(g0, g1, g2, g3, g4, g5, g6, g7) == join_bytes(
            seq![
                hex_text(g0 as int),
                hex_text(g1 as int),
                hex_text(g2 as int),
                hex_text(g3 as int),
                hex_text(g4 as int),
                hex_text(g5 as int),
                hex_text(g6 as int),
                hex_text(g7 as int),
            ],
            colon(),
        ),
{
    let h0 = hex_text(g0 as int);
    let h1 = hex_text(g1 as int);
    let h2 = hex_text(g2 as int);
    let h3 = hex_text(g3 as int);
    let h4 = hex_text(g4 as int);
    let h5 = hex_text(g5 as int);
    let h6 = hex_text(g6 as int);
    let h7 = hex_text(g7 as int);
    let c = seq![colon()];
    let hs = seq![h0, h1, h2, h3, h4, h5, h6, h7];
    let s1 = seq![h1, h2, h3, h4, h5, h6, h7];
    let s2 = seq![h2, h3, h4, h5, h6, h7];
    let s3 = seq![h3, h4, h5, h6, h7];
    let s4 = seq![h4, h5, h6, h7];
    let s5 = seq![h5, h6, h7];
    let s6 = seq![h6, h7];
    let s7 = seq![h7];
    assert(hs.skip(1) =~~= s1);
    assert(s1.skip(1) =~~= s2);
    assert(s2.skip(1) =~~= s3);
    assert(s3.skip(1) =~~= s4);
    assert(s4.skip(1) =~~= s5);
    assert(s5.skip(1) =~~= s6);
    assert(s6.skip(1) =~~= s7);
    let r7 = h7;
    let r6 = h6 + c + r7;
    let r5 = h5 + c + r6;
    let r4 = h4 + c + r5;
    let r3 = h3 + c + r4;
    let r2 = h2 + c + r3;
    let r1 = h1 + c + r2;
    assert(join_bytes(s7, colon()) == r7);
    assert(join_bytes(s6, colon()) == r6);
    assert(join_bytes(s5, colon()) == r5);
    assert(join_bytes(s4, colon()) == r4);
    assert(join_bytes(s3, colon()) == r3);
    assert(join_bytes(s2, colon()) == r2);
    assert(join_bytes(s1, colon()) == r1);
    assert(join_bytes(hs, colon()) == h0 + c + r1);
    let l1 = h0 + c + h1;
    let l2 = l1 + c + h2;
    let l3 = l2 + c + h3;
    let l4 = l3 + c + h4;
    let l5 = l4 + c + h5;
    let l6 = l5 + c + h6;
    assert(h0 + c + r1 =~= l1 + c + r2);
    assert(l1 + c + r2 =~= l2 + c + r3);
    assert(l2 + c + r3 =~= l3 + c + r4);
    assert(l3 + c + r4 =~= l4 + c + r5);
    assert(l4 + c + r5 =~= l5 + c + r6);
    assert(l5 + c + r6 =~= l6 + c + r7);
    assert(v6_text(g0, g1, g2, g3, g4, g5, g6, g7) == l6 + c + h7);
    assert(join_bytes(hs, colon()) == v6_text(g0, g1, g2, g3, g4, g5, g6, g7));
}

/// Parsing the canonical rendering of an IPv6 address yields the
/// address back.
#[verifier::rlimit(100)]
pub proof fn lemma_v6_round_trip(g0: u16, g1: u16, g2: u16, g3: u16, g4: u16, g5: u16, g6: u16, g7: u16)
    ensures
        spec_parse_v6(v6_text(g0, g1, g2, g3, g4, g5, g6, g7)) == Some(
            IpAddress::V6(g0, g1, g2, g3, g4, g5, g6, g7),
        ),
{
    let s = v6_text(g0, g1, g2, g3, g4, g5, g6, g7);
    let hs = seq![
        hex_text(g0 as int),
        hex_text(g1 as int),
        hex_text(g2 as int),
        hex_text(g3 as int),
        hex_text(g4 as int),
        hex_text(g5 as int),
        hex_text(g6 as int),
        hex_text(g7 as int),
    ];
    lemma_hex_text_group(g0 as int);
    lemma_hex_text_group(g1 as int);
    lemma_hex_text_group(g2 as int);
    lemma_hex_text_group(g3 as int);
    lemma_hex_text_group(g4 as int);
    lemma_hex_text_group(g5 as int);
    lemma_hex_text_group(g6 as int);
    lemma_hex_text_group(g7 as int);
    lemma_v6_text_is_join(g0, g1, g2, g3, g4, g5, g6, g7);
    assert(groups_ok(hs)) by {
        assert(forall|i: int| 0 <= i < 8 ==> group_ok(#[trigger] hs[i]));
    };
    assert(v6_full_form(s, hs));
    lemma_v6_full_complete(s, hs);
    assert(group_vals(hs)[0] == hex_value(hex_text(g0 as int)));
    assert(group_vals(hs)[1] == hex_value(hex_text(g1 as int)));
    assert(group_vals(hs)[2] == hex_value(hex_text(g2 as int)));
    assert(group_vals(hs)[3] == hex_value(hex_text(g3 as int)));
    assert(group_vals(hs)[4] == hex_value(hex_text(g4 as int)));
    assert(group_vals(hs)[5] == hex_value(hex_text(g5 as int)));
    assert(group_vals(hs)[6] == hex_value(hex_text(g6 as int)));
    assert(group_vals(hs)[7] == hex_value(hex_text(g7 as int)));
    assert(spec_parse_v6(s) == Some(IpAddress::V6(g0, g1, g2, g3, g4, g5, g6, g7)));
}

proof fn lemma_join_digit_pieces(ps: Seq<Seq<u8>>)
    requires
        forall|k: int| 0 <= k < ps.len() ==> all_digits(#[trigger] ps[k]),
    ensures
        forall|i: int|
            0 <= i < join_bytes(ps, dot()).len() ==> is_digit(#[trigger] join_bytes(ps, dot())[i])
                || join_bytes(ps, dot())[i] == dot(),
    decreases ps.len(),
{
    if ps.len() >= 2 {
        assert(forall|k: int| 0 <= k < ps.skip(1).len() ==> all_digits(#[trigger] ps.skip(1)[k]));
        lemma_join_digit_pieces(ps.skip(1));
        let s = join_bytes(ps, dot());
        let rest = join_bytes(ps.skip(1), dot());
        assert(s == ps[0] + seq![dot()] + rest);
        assert(all_digits(ps[0]));
        assert forall|i: int| 0 <= i < s.len() implies is_digit(#[trigger] s[i]) || s[i] == dot() by {
            if i < ps[0].len() {
                assert(s[i] == ps[0][i]);
                assert(is_digit(ps[0][i]));
            } else if i == ps[0].len() {
                assert(s[i] == dot());
            } else {
                assert(s[i] == rest[i - ps[0].len() - 1]);
            }
        }
    }
}

/// A byte string that parses as an IPv4 address consists of decimal
/// digits and dots only.
proof fn lemma_v4_bytes(s: Seq<u8>)
    requires
        spec_parse_v4(s) is Some,
    ensures
        forall|i: int| 0 <= i < s.len() ==> is_digit(#[trigger] s[i]) || s[i] == dot(),
{
    let ps = split_bytes(s, dot());
    lemma_join_split(s, dot());
    assert(forall|k: int| 0 <= k < ps.len() ==> all_digits(#[trigger] ps[k]));
    lemma_join_digit_pieces(ps);
}

proof fn lemma_dec_value_nonneg(s: Seq<u8>)
    requires
        all_digits(s),
    ensures
        0 <= dec_value(s),
    decreases s.len(),
{
    if s.len() > 0 {
        assert(all_digits(s.drop_last()));
        lemma_dec_value_nonneg(s.drop_last());
    }
}

/// A well-formed octet piece is the canonical rendering of its value.
proof fn lemma_octet_text_inverse(s: Seq<u8>)
    requires
        octet_ok(s),
    ensures
        s == dec_text(dec_value(s)),
{
    reveal_with_fuel(dec_value, 5);
    let n = dec_value(s);
    lemma_dec_value_nonneg(s);
    if s.len() == 1 {
        assert(s.drop_last() =~= Seq::<u8>::empty());
        assert(n == digit_val(s[0]));
        assert(dec_text(n) =~= s);
    } else if s.len() == 2 {
        let d0 = digit_val(s[0]);
        let d1 = digit_val(s[1]);
        assert(s.drop_last() =~= seq![s[0]]);
        assert(seq![s[0]].drop_last() =~= Seq::<u8>::empty());
        assert(n == d0 * 10 + d1);
        assert(d0 >= 1);
        vstd::arithmetic::div_mod::lemma_fundamental_div_mod_converse_div(n, 10, d0, d1);
        vstd::arithmetic::div_mod::lemma_fundamental_div_mod_converse_mod(n, 10, d0, d1);
        assert(n / 10 == d0);
        assert(n % 10 == d1);
        assert(dec_text(n) =~= s);
    } else {
        let d0 = digit_val(s[0]);
        let d1 = digit_val(s[1]);
        let d2 = digit_val(s[2]);
        assert(s.drop_last() =~= seq![s[0], s[1]]);
        assert(seq![s[0], s[1]].drop_last() =~= seq![s[0]]);
        assert(seq![s[0]].drop_last() =~= Seq::<u8>::empty());
        assert(n == (d0 * 10 + d1) * 10 + d2);
        assert(d0 >= 1);
        vstd::arithmetic::div_mod::lemma_fundamental_div_mod_converse_div(n, 10, d0 * 10 + d1, d2);
        vstd::arithmetic::div_mod::lemma_fundamental_div_mod_converse_mod(n, 10, d0 * 10 + d1, d2);
        assert(n / 10 == d0 * 10 + d1);
        assert(n % 10 == d2);
        vstd::arithmetic::div_mod::lemma_fundamental_div_mod_converse_div(n / 10, 10, d0, d1);
        vstd::arithmetic::div_mod::lemma_div_denominator(n, 10, 10);
        assert(n / 100 == d0);
        vstd::arithmetic::div_mod::lemma_fundamental_div_mod_converse_mod(n / 10, 10, d0, d1);
        assert((n / 10) % 10 == d1);
        assert(n >= 100);
        assert(dec_text(n) =~= s);
    }
}

/// A byte string parses as a given IPv4 address exactly when it is
/// that address's canonical dotted-quad rendering: the IPv4 grammar
/// accepts canonical renderings and nothing else.
#[verifier::rlimit(100)]
pub proof fn lemma_v4_text_exact(s: Seq<u8>, x0: u8, x1: u8, x2: u8, x3: u8)
    ensures
        spec_parse_v4(s) == Some(IpAddress::V4(x0, x1, x2, x3)) <==> s == v4_text(x0, x1, x2, x3),
{
    if s == v4_text(x0, x1, x2, x3) {
        lemma_v4_round_trip(x0, x1, x2, x3);
    }
    if spec_parse_v4(s) == Some(IpAddress::V4(x0, x1, x2, x3)) {
        let ps = split_bytes(s, dot());
        lemma_join_split(s, dot());
        lemma_dec_value_nonneg(ps[0]);
        lemma_dec_value_nonneg(ps[1]);
        lemma_dec_value_nonneg(ps[2]);
        lemma_dec_value_nonneg(ps[3]);
        assert(dec_value(ps[0]) == x0 as int);
        assert(dec_value(ps[1]) == x1 as int);
        assert(dec_value(ps[2]) == x2 as int);
        assert(dec_value(ps[3]) == x3 as int);
        lemma_octet_text_inverse(ps[0]);
        lemma_octet_text_inverse(ps[1]);
        lemma_octet_text_inverse(ps[2]);
        lemma_octet_text_inverse(ps[3]);
        let a = dec_text(x0 as int);
        let b = dec_text(x1 as int);
        let c = dec_text(x2 as int);
        let d = dec_text(x3 as int);
        let s1 = seq![b, c, d];
        let s2 = seq![c, d];
        let s3 = seq![d];
        assert(ps.skip(1) =~~= s1);
        assert(s1.skip(1) =~~= s2);
        assert(s2.skip(1) =~~= s3);
        assert(join_bytes(s3, dot()) == d);
        assert(join_bytes(s2, dot()) == c + seq![dot()] + d);
        assert(join_bytes(s1, dot()) == b + seq![dot()] + (c + seq![dot()] + d));
        assert(join_bytes(ps, dot()) == a + seq![dot()] + join_bytes(s1, dot()));
        assert(s == a + seq![dot()] + (b + seq![dot()] + (c + seq![dot()] + d)));
        assert(s =~= v4_text(x0, x1, x2, x3));
    }
}

proof fn lemma_dc_some_props(s: Seq<u8>)
    requires
        find_double_colon(s) is Some,
    ensures
        ({
            let p = find_double_colon(s).unwrap();
            &&& 0 <= p
            &&& p + 1 < s.len()
            &&& s[p] == colon()
            &&& s[p + 1] == colon()
        }),
    decreases s.len(),
{
    if s.len() >= 2 && !(s[0] == colon() && s[1] == colon()) {
        lemma_dc_some_props(s.skip(1));
    }
}

/// A byte string in the eight-group form: eight well-formed groups
/// joined by colons.
pub open spec fn v6_full_form(s: Seq<u8>, gs: Seq<Seq<u8>>) -> bool {
    &&& gs.len() == 8
    &&& groups_ok(gs)
    &&& s == join_bytes(gs, colon())
}

/// A byte string in the gap form: at most seven well-formed groups
/// around a `::` that stands for the missing zero groups.
pub open spec fn v6_gap_form(s: Seq<u8>, ls: Seq<Seq<u8>>, rs: Seq<Seq<u8>>) -> bool {
    &&& groups_ok(ls)
    &&& groups_ok(rs)
    &&& ls.len() + rs.len() <= 7
    &&& s == join_bytes(ls, colon()) + seq![colon(), colon()] + join_bytes(rs, colon())
}

/// Whatever the IPv6 parser accepts is a well-formed group text in one
/// of the two forms, and the parsed value is exactly the value those
/// groups denote.
pub proof fn lemma_v6_sound(s: Seq<u8>)
    requires
        spec_parse_v6(s) is Some,
    ensures
        (exists|gs: Seq<Seq<u8>>|
            v6_full_form(s, gs) && spec_parse_v6(s) == Some(v6_from(group_vals(gs)))) || (
        exists|ls: Seq<Seq<u8>>, rs: Seq<Seq<u8>>|
            v6_gap_form(s, ls, rs) && spec_parse_v6(s) == Some(
                v6_from(group_vals(ls) + zero_groups(8 - ls.len() - rs.len()) + group_vals(rs)),
            )),
{
    match find_double_colon(s) {
        None => {
            let ps = split_bytes(s, colon());
            lemma_join_split(s, colon());
            assert(v6_full_form(s, ps));
        },
        Some(p) => {
            lemma_dc_some_props(s);
            let left = s.take(p);
            let right = s.skip(p + 2);
            let lp = if left.len() == 0 {
                Seq::<Seq<u8>>::empty()
            } else {
                split_bytes(left, colon())
            };
            let rp = if right.len() == 0 {
                Seq::<Seq<u8>>::empty()
            } else {
                split_bytes(right, colon())
            };
            if left.len() == 0 {
                assert(join_bytes(lp, colon()) =~= left);
            } else {
                lemma_join_split(left, colon());
            }
            if right.len() == 0 {
                assert(join_bytes(rp, colon()) =~= right);
            } else {
                lemma_join_split(right, colon());
            }
            assert(s =~= left + seq![colon(), colon()] + right);
            assert(v6_gap_form(s, lp, rp));
        },
    }
}

proof fn lemma_join_last_byte(ps: Seq<Seq<u8>>, sep: u8)
    requires
        ps.len() >= 1,
        forall|k: int| 0 <= k < ps.len() ==> (#[trigger] ps[k]).len() > 0,
    ensures
        join_bytes(ps, sep).len() > 0,
        join_bytes(ps, sep).last() == ps.last().last(),
    decreases ps.len(),
{
    if ps.len() > 1 {
        assert(forall|k: int| 0 <= k < ps.skip(1).len() ==> (#[trigger] ps.skip(1)[k]).len() > 0);
        lemma_join_last_byte(ps.skip(1), sep);
        assert(ps.skip(1).last() == ps.last());
    }
}

/// Any byte string in the eight-group form parses as an IPv6 address,
/// to exactly the value its groups denote.
pub proof fn lemma_v6_full_complete(s: Seq<u8>, gs: Seq<Seq<u8>>)
    requires
        v6_full_form(s, gs),
    ensures
        spec_parse_v6(s) == Some(v6_from(group_vals(gs))),
{
    assert(forall|k: int| 0 <= k < gs.len() ==> (#[trigger] gs[k]).len() > 0);
    assert(forall|k: int| 0 <= k < gs.len() ==> sep_free(#[trigger] gs[k], colon()));
    lemma_no_dc_of_join(gs);
    lemma_dc_none(s);
    lemma_split_of_join(gs, colon());
}

/// Any byte string in the gap form parses as an IPv6 address, to
/// exactly the value its groups denote with the gap filled by zero
/// groups.
#[verifier::rlimit(100)]
pub proof fn lemma_v6_gap_complete(s: Seq<u8>, ls: Seq<Seq<u8>>, rs: Seq<Seq<u8>>)
    requires
        v6_gap_form(s, ls, rs),
    ensures
        spec_parse_v6(s) == Some(
            v6_from(group_vals(ls) + zero_groups(8 - ls.len() - rs.len()) + group_vals(rs)),
        ),
{
    let lj = join_bytes(ls, colon());
    let rj = join_bytes(rs, colon());
    let p = lj.len() as int;
    assert(forall|k: int| 0 <= k < ls.len() ==> (#[trigger] ls[k]).len() > 0);
    assert(forall|k: int| 0 <= k < ls.len() ==> sep_free(#[trigger] ls[k], colon()));
    assert(forall|k: int| 0 <= k < rs.len() ==> (#[trigger] rs[k]).len() > 0);
    assert(forall|k: int| 0 <= k < rs.len() ==> sep_free(#[trigger] rs[k], colon()));
    if ls.len() > 0 {
        lemma_no_dc_of_join(ls);
        lemma_join_last_byte(ls, colon());
        assert(ls.last().last() != colon());
    } else {
        assert(lj =~= Seq::<u8>::empty());
    }
    assert(s[p] == colon());
    assert(s[p + 1] == colon());
    assert forall|j: int| 0 <= j < p implies !(#[trigger] s[j] == colon() && s[j + 1] == colon())
        by {
        if j + 1 < p {
            assert(s[j] == lj[j]);
            assert(s[j + 1] == lj[j + 1]);
        } else {
            assert(s[j] == lj[j]);
            assert(lj[j] == lj.last());
        }
    }
    lemma_dc_at(s, p);
    assert(s.take(p) =~= lj);
    assert(s.skip(p + 2) =~= rj);
    if ls.len() > 0 {
        lemma_split_of_join(ls, colon());
        assert(lj.len() > 0);
    } else {
        assert(ls =~~= Seq::<Seq<u8>>::empty());
    }
    if rs.len() > 0 {
        lemma_no_dc_of_join(rs);
        lemma_split_of_join(rs, colon());
        assert(rj.len() > 0);
    } else {
        assert(rj =~= Seq::<u8>::empty());
        assert(rs =~~= Seq::<Seq<u8>>::empty());
    }
    assert(spec_parse_v6(s) == Some(
        v6_from(group_vals(ls) + zero_groups(8 - ls.len() - rs.len()) + group_vals(rs)),
    ));
}

/// A text that parses as an IPv4 address never parses as an IPv6
/// address, so trying the dotted-quad grammar first prefers nothing
/// away.
pub proof fn lemma_v4_excludes_v6(s: Seq<u8>)
    requires
        spec_parse_v4(s) is Some,
    ensures
        spec_parse_v6(s) is None,
{
    lemma_v4_bytes(s);
    assert(forall|j: int| 0 <= j < s.len() ==> #[trigger] s[j] != colon());
    lemma_dc_none(s);
    lemma_split_no_sep(s, colon());
}

/// Rendering an address to wire text and parsing the text back yields
/// the original address: the conversion between the structured value
/// and its wire form loses nothing.
pub proof fn lemma_text_round_trip(a: IpAddress)
    ensures
        spec_parse_ip(spec_ip_text(a)) == Some(a),
{
    match a {
        IpAddress::V4(x0, x1, x2, x3) => {
            lemma_v4_round_trip(x0, x1, x2, x3);
        },
        IpAddress::V6(g0, g1, g2, g3, g4, g5, g6, g7) => {
            lemma_v6_round_trip(g0, g1, g2, g3, g4, g5, g6, g7);
            let s = v6_text(g0, g1, g2, g3, g4, g5, g6, g7);
            let h0 = hex_text(g0 as int);
            lemma_hex_text_group(g0 as int);
            let t = s.skip(h0.len() as int + 1);
            assert(s =~= h0 + seq![colon()] + t);
            assert(s[h0.len() as int] == colon());
            if spec_parse_v4(s) is Some {
                lemma_v4_bytes(s);
                assert(is_digit(s[h0.len() as int]) || s[h0.len() as int] == dot());
                assert(false);
            }
        },
    }
}


} // verus!
