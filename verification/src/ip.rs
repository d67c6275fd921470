//! IP addresses in text: reading them with the grammar of the standard
//! library's `IpAddr` parser and writing them in its canonical form.

use vstd::prelude::*;
use crate::decimal::{all_digits, decimal, digits_value, is_digit, u64_text};
use crate::model::IpAddress;
use crate::text::push_char;

verus! {

// ---------------------------------------------------------------------------
// Grammar

/// The pieces of `s` between occurrences of `sep` (always at least one).
pub open spec fn split_on(s: Seq<char>, sep: char) -> Seq<Seq<char>>
    decreases s.len(),
{
    if s.len() == 0 {
        seq![Seq::<char>::empty()]
    } else {
        let rest = split_on(s.drop_last(), sep);
        if s.last() == sep {
            rest.push(Seq::<char>::empty())
        } else {
            rest.update(rest.len() - 1, rest.last().push(s.last()))
        }
    }
}

/// A decimal octet of a dotted quad: one to three digits, no leading zero
/// unless the octet is `0`, at most 255.
pub open spec fn dec_octet(p: Seq<char>) -> Option<u8> {
    if 1 <= p.len() <= 3 && all_digits(p) && (p.len() == 1 || p[0] != '0') && digits_value(p)
        <= 255 {
        Some(digits_value(p) as u8)
    } else {
        None
    }
}

/// A dotted quad, as its four octets.
pub open spec fn ipv4_octets(s: Seq<char>) -> Option<Seq<u8>> {
    let ps = split_on(s, '.');
    if ps.len() == 4 && forall|i: int| 0 <= i < 4 ==> (#[trigger] dec_octet(ps[i])) is Some {
        Some(Seq::new(4, |i: int| dec_octet(ps[i]).unwrap()))
    } else {
        None
    }
}

pub open spec fn octets_value(o: Seq<u8>) -> nat {
    (o[0] * 16777216 + o[1] * 65536 + o[2] * 256 + o[3]) as nat
}

pub open spec fn hex_value(c: char) -> Option<nat> {
    if is_digit(c) {
        Some((c as int - '0' as int) as nat)
    } else if 'a' <= c && c <= 'f' {
        Some((c as int - 'a' as int + 10) as nat)
    } else if 'A' <= c && c <= 'F' {
        Some((c as int - 'A' as int + 10) as nat)
    } else {
        None
    }
}

pub open spec fn all_hex(s: Seq<char>) -> bool {
    forall|i: int| 0 <= i < s.len() ==> (#[trigger] hex_value(s[i])) is Some
}

pub open spec fn hex_digits_value(s: Seq<char>) -> nat
    decreases s.len(),
{
    if s.len() == 0 {
        0
    } else {
        hex_digits_value(s.drop_last()) * 16 + hex_value(s.last()).unwrap()
    }
}

/// A group of an IPv6 address: one to four hex digits.
pub open spec fn h16(p: Seq<char>) -> Option<u16> {
    if 1 <= p.len() <= 4 && all_hex(p) {
        Some(hex_digits_value(p) as u16)
    } else {
        None
    }
}

/// Every piece is a group.
pub open spec fn h16_list(ps: Seq<Seq<char>>) -> Option<Seq<u16>> {
    if forall|i: int| 0 <= i < ps.len() ==> (#[trigger] h16(ps[i])) is Some {
        Some(Seq::new(ps.len(), |i: int| h16(ps[i]).unwrap()))
    } else {
        None
    }
}

/// Groups, of which the last may be written as a dotted quad (two groups).
pub open spec fn tail_list(ps: Seq<Seq<char>>) -> Option<Seq<u16>> {
    if ps.len() > 0 && ipv4_octets(ps.last()) is Some {
        let o = ipv4_octets(ps.last()).unwrap();
        match h16_list(ps.drop_last()) {
            Some(h) => Some(h + seq![(o[0] * 256 + o[1]) as u16, (o[2] * 256 + o[3]) as u16]),
            None => None,
        }
    } else {
        h16_list(ps)
    }
}

/// Pieces of a part around `::`; an empty part has none.
pub open spec fn pieces(s: Seq<char>) -> Seq<Seq<char>> {
    if s.len() == 0 {
        Seq::empty()
    } else {
        split_on(s, ':')
    }
}

pub open spec fn double_colon_at(s: Seq<char>, k: int) -> bool {
    0 <= k && k + 1 < s.len() && s[k] == ':' && s[k + 1] == ':'
}

/// The eight groups of an IPv6 address text: either eight groups in full,
/// or groups before and after a single `::` that stands for the missing
/// zero groups (at least one).
pub open spec fn ipv6_groups(s: Seq<char>) -> Option<Seq<u16>> {
    if !(exists|k: int| #[trigger] double_colon_at(s, k)) {
        match tail_list(split_on(s, ':')) {
            Some(g) => if g.len() == 8 {
                Some(g)
            } else {
                None
            },
            None => None,
        }
    } else {
        let k = choose|k: int| #[trigger] double_colon_at(s, k);
        if forall|k2: int| #[trigger] double_colon_at(s, k2) ==> k2 == k {
            let head = h16_list(pieces(s.subrange(0, k)));
            let tail = tail_list(pieces(s.subrange(k + 2, s.len() as int)));
            match (head, tail) {
                (Some(h), Some(t)) => if h.len() <= 7 && t.len() <= 7 - h.len() {
                    Some(h + Seq::new((8 - h.len() - t.len()) as nat, |i: int| 0u16) + t)
                } else {
                    None
                },
                _ => None,
            }
        } else {
            None
        }
    }
}

pub open spec fn groups_value(g: Seq<u16>) -> nat
    decreases g.len(),
{
    if g.len() == 0 {
        0
    } else {
        groups_value(g.drop_last()) * 65536 + (g.last() as nat)
    }
}

/// What `str::parse::<IpAddr>` accepts and yields: a dotted quad, else an
/// IPv6 text.
pub open spec fn parsed_ip(s: Seq<char>) -> Option<IpAddress> {
    match ipv4_octets(s) {
        Some(o) => Some(IpAddress::V4(octets_value(o) as u32)),
        None => match ipv6_groups(s) {
            Some(g) => Some(IpAddress::V6(groups_value(g) as u128)),
            None => None,
        },
    }
}

// ---------------------------------------------------------------------------
// Reading

pub open spec fn deep(v: Seq<Vec<char>>) -> Seq<Seq<char>> {
    v.map_values(|p: Vec<char>| p@)
}

pub(crate) proof fn lemma_split_nonempty(s: Seq<char>, sep: char)
    ensures
        split_on(s, sep).len() >= 1,
    decreases s.len(),
{
    if s.len() > 0 {
        lemma_split_nonempty(s.drop_last(), sep);
    }
}

/// The chars of `text`.
pub fn chars_of(text: &str) -> (r: Vec<char>)
    ensures
        r@ == text@,
{
    let n = text.unicode_len();
    let mut out: Vec<char> = Vec::new();
    let mut i: usize = 0;
    while i < n
        invariant
            n == text@.len(),
            i <= n,
            out@ == text@.subrange(0, i as int),
        decreases n - i,
    {
        out.push(text.get_char(i));
        i = i + 1;
        assert(out@ =~= text@.subrange(0, i as int));
    }
    assert(text@.subrange(0, n as int) =~= text@);
    out
}

/// A copy of `s[lo..hi]`.
fn slice_chars(s: &Vec<char>, lo: usize, hi: usize) -> (r: Vec<char>)
    requires
        lo <= hi <= s@.len(),
    ensures
        r@ == s@.subrange(lo as int, hi as int),
{
    let mut out: Vec<char> = Vec::new();
    let mut i = lo;
    while i < hi
        invariant
            lo <= i <= hi <= s@.len(),
            out@ == s@.subrange(lo as int, i as int),
        decreases hi - i,
    {
        out.push(s[i]);
        i = i + 1;
        assert(out@ =~= s@.subrange(lo as int, i as int));
    }
    out
}

/// The pieces of `s` between occurrences of `sep`.
fn split_chars(s: &Vec<char>, sep: char) -> (r: Vec<Vec<char>>)
    ensures
        deep(r@) == split_on(s@, sep),
{
    let n = s.len();
    let mut done: Vec<Vec<char>> = Vec::new();
    let mut cur: Vec<char> = Vec::new();
    let mut i: usize = 0;
    assert(s@.subrange(0, 0) =~= Seq::<char>::empty());
    assert(deep(done@).push(cur@) =~= split_on(s@.subrange(0, 0), sep));
    while i < n
        invariant
            n == s@.len(),
            i <= n,
            deep(done@).push(cur@) == split_on(s@.subrange(0, i as int), sep),
        decreases n - i,
    {
        let c = s[i];
        let ghost before = s@.subrange(0, i as int);
        let ghost after = s@.subrange(0, i + 1);
        assert(after.drop_last() =~= before);
        proof {
            lemma_split_nonempty(before, sep);
        }
        if c == sep {
            let ghost old_done = deep(done@);
            done.push(cur);
            cur = Vec::new();
            assert(deep(done@) =~= old_done.push(deep(done@).last()));
            assert(deep(done@).push(cur@) =~= split_on(after, sep));
        } else {
            let ghost old_cur = cur@;
            cur.push(c);
            assert(deep(done@).push(cur@) =~= split_on(before, sep).update(
                split_on(before, sep).len() - 1,
                old_cur.push(c),
            ));
        }
        i = i + 1;
    }
    let ghost old_done = deep(done@);
    done.push(cur);
    assert(deep(done@) =~= old_done.push(deep(done@).last()));
    assert(s@.subrange(0, n as int) =~= s@);
    done
}

/// A decimal octet of a dotted quad.
fn read_dec_octet(p: &Vec<char>) -> (r: Option<u8>)
    ensures
        r == dec_octet(p@),
{
    let n = p.len();
    if n < 1 || n > 3 {
        return None;
    }
    if n > 1 && p[0] == '0' {
        return None;
    }
    let mut acc: u32 = 0;
    let mut i: usize = 0;
    while i < n
        invariant
            n == p@.len(),
            1 <= n <= 3,
            i <= n,
            all_digits(p@.subrange(0, i as int)),
            acc == digits_value(p@.subrange(0, i as int)),
            i == 0 ==> acc == 0,
            i == 1 ==> acc < 10,
            i == 2 ==> acc < 100,
            i == 3 ==> acc < 1000,
            n > 1 ==> p@[0] != '0',
        decreases n - i,
    {
        let c = p[i];
        assert(p@.subrange(0, i + 1).drop_last() =~= p@.subrange(0, i as int));
        if !('0' <= c && c <= '9') {
            assert(!is_digit(p@[i as int]));
            return None;
        }
        acc = acc * 10 + (c as u32 - '0' as u32);
        i = i + 1;
    }
    assert(p@.subrange(0, n as int) =~= p@);
    if acc > 255 {
        None
    } else {
        Some(acc as u8)
    }
}

/// A dotted quad, as its four octets.
fn read_ipv4(s: &Vec<char>) -> (r: Option<Vec<u8>>)
    ensures
        match r {
            Some(o) => ipv4_octets(s@) == Some(o@),
            None => ipv4_octets(s@) is None,
        },
{
    let ps = split_chars(s, '.');
    if ps.len() != 4 {
        return None;
    }
    let mut out: Vec<u8> = Vec::new();
    let mut i: usize = 0;
    while i < 4
        invariant
            ps@.len() == 4,
            deep(ps@) == split_on(s@, '.'),
            i <= 4,
            out@.len() == i,
            forall|k: int| 0 <= k < i ==> dec_octet(#[trigger] deep(ps@)[k]) == Some(out@[k]),
        decreases 4 - i,
    {
        match read_dec_octet(&ps[i]) {
            Some(o) => {
                out.push(o);
            },
            None => {
                assert(dec_octet(deep(ps@)[i as int]) is None);
                return None;
            },
        }
        i = i + 1;
    }
    let ghost ps_v = split_on(s@, '.');
    assert(forall|k: int| 0 <= k < 4 ==> (#[trigger] dec_octet(ps_v[k])) is Some);
    assert(out@ =~= Seq::new(4, |k: int| dec_octet(ps_v[k]).unwrap()));
    Some(out)
}

pub fn hex_digit(c: char) -> (r: Option<u32>)
    ensures
        match r {
            Some(v) => hex_value(c) == Some(v as nat) && v < 16,
            None => hex_value(c) is None,
        },
{
    if '0' <= c && c <= '9' {
        Some(c as u32 - '0' as u32)
    } else if 'a' <= c && c <= 'f' {
        Some(c as u32 - 'a' as u32 + 10)
    } else if 'A' <= c && c <= 'F' {
        Some(c as u32 - 'A' as u32 + 10)
    } else {
        None
    }
}

/// A group of an IPv6 address.
fn read_h16(p: &Vec<char>) -> (r: Option<u16>)
    ensures
        r == h16(p@),
{
    let n = p.len();
    if n < 1 || n > 4 {
        return None;
    }
    let mut acc: u32 = 0;
    let mut i: usize = 0;
    while i < n
        invariant
            n == p@.len(),
            1 <= n <= 4,
            i <= n,
            all_hex(p@.subrange(0, i as int)),
            acc == hex_digits_value(p@.subrange(0, i as int)),
            i == 0 ==> acc == 0,
            i == 1 ==> acc < 16,
            i == 2 ==> acc < 256,
            i == 3 ==> acc < 4096,
            i == 4 ==> acc < 65536,
        decreases n - i,
    {
        assert(p@.subrange(0, i + 1).drop_last() =~= p@.subrange(0, i as int));
        match hex_digit(p[i]) {
            Some(d) => {
                acc = acc * 16 + d;
            },
            None => {
                return None;
            },
        }
        i = i + 1;
    }
    assert(p@.subrange(0, n as int) =~= p@);
    Some(acc as u16)
}

/// Every piece is a group.
fn read_h16_list(ps: &Vec<Vec<char>>, count: usize) -> (r: Option<Vec<u16>>)
    requires
        count <= ps@.len(),
    ensures
        match r {
            Some(g) => h16_list(deep(ps@).subrange(0, count as int)) == Some(g@),
            None => h16_list(deep(ps@).subrange(0, count as int)) is None,
        },
{
    let ghost want = deep(ps@).subrange(0, count as int);
    let mut out: Vec<u16> = Vec::new();
    let mut i: usize = 0;
    while i < count
        invariant
            count <= ps@.len(),
            want == deep(ps@).subrange(0, count as int),
            i <= count,
            out@.len() == i,
            forall|k: int| 0 <= k < i ==> h16(#[trigger] want[k]) == Some(out@[k]),
        decreases count - i,
    {
        match read_h16(&ps[i]) {
            Some(g) => {
                out.push(g);
            },
            None => {
                assert(h16(want[i as int]) is None);
                return None;
            },
        }
        i = i + 1;
    }
    assert(forall|k: int| 0 <= k < want.len() ==> (#[trigger] h16(want[k])) is Some);
    assert(out@ =~= Seq::new(want.len(), |k: int| h16(want[k]).unwrap()));
    Some(out)
}

/// Groups, of which the last may be a dotted quad.
fn read_tail_list(ps: &Vec<Vec<char>>) -> (r: Option<Vec<u16>>)
    ensures
        match r {
            Some(g) => tail_list(deep(ps@)) == Some(g@),
            None => tail_list(deep(ps@)) is None,
        },
{
    let n = ps.len();
    assert(deep(ps@).subrange(0, n as int) =~= deep(ps@));
    if n > 0 {
        let last = &ps[n - 1];
        assert(deep(ps@).last() == last@);
        if let Some(o) = read_ipv4(last) {
            assert(deep(ps@).subrange(0, n - 1) =~= deep(ps@).drop_last());
            match read_h16_list(ps, n - 1) {
                Some(mut h) => {
                    let ghost hv = h@;
                    let hi = (o[0] as u32 * 256 + o[1] as u32) as u16;
                    let lo = (o[2] as u32 * 256 + o[3] as u32) as u16;
                    h.push(hi);
                    h.push(lo);
                    assert(h@ =~= hv + seq![hi, lo]);
                    return Some(h);
                },
                None => {
                    return None;
                },
            }
        }
    }
    read_h16_list(ps, n)
}

fn read_pieces(s: &Vec<char>, lo: usize, hi: usize) -> (r: Vec<Vec<char>>)
    requires
        lo <= hi <= s@.len(),
    ensures
        deep(r@) == pieces(s@.subrange(lo as int, hi as int)),
{
    if lo == hi {
        let r: Vec<Vec<char>> = Vec::new();
        assert(deep(r@) =~= Seq::<Seq<char>>::empty());
        r
    } else {
        let part = slice_chars(s, lo, hi);
        split_chars(&part, ':')
    }
}

/// The eight groups of an IPv6 address text.
fn read_ipv6(s: &Vec<char>) -> (r: Option<Vec<u16>>)
    ensures
        match r {
            Some(g) => ipv6_groups(s@) == Some(g@),
            None => ipv6_groups(s@) is None,
        },
{
    let n = s.len();
    let mut k: usize = 0;
    while k < n && n - k >= 2 && !(s[k] == ':' && s[k + 1] == ':')
        invariant
            n == s@.len(),
            k <= n,
            forall|j: int| 0 <= j < k ==> !double_colon_at(s@, j),
        decreases n - k,
    {
        k = k + 1;
    }
    if k >= n || n - k < 2 {
        assert forall|j: int| !double_colon_at(s@, j) by {
            if 0 <= j && j + 1 < n {
                assert(j < k);
            }
        }
        let ps = split_chars(s, ':');
        return match read_tail_list(&ps) {
            Some(g) => if g.len() == 8 {
                Some(g)
            } else {
                None
            },
            None => None,
        };
    }
    assert(double_colon_at(s@, k as int));
    let mut j = k + 1;
    while j < n && n - j >= 2
        invariant
            n == s@.len(),
            k + 1 <= j <= n,
            double_colon_at(s@, k as int),
            forall|t: int| k < t < j ==> !double_colon_at(s@, t),
        decreases n - j,
    {
        if s[j] == ':' && s[j + 1] == ':' {
            proof {
                assert(double_colon_at(s@, j as int));
                let c = choose|c: int| #[trigger] double_colon_at(s@, c);
                assert(double_colon_at(s@, c));
                if c == k {
                    assert(double_colon_at(s@, j as int) && j != c);
                } else {
                    assert(double_colon_at(s@, k as int) && k != c);
                }
            }
            return None;
        }
        j = j + 1;
    }
    assert forall|k2: int| #[trigger] double_colon_at(s@, k2) implies k2 == k as int by {
        if k2 < k {
        } else if k2 > k {
            assert(k2 < j);
        }
    }
    assert(exists|k2: int| #[trigger] double_colon_at(s@, k2));
    let hp = read_pieces(s, 0, k);
    let tp = read_pieces(s, k + 2, n);
    let head = read_h16_list(&hp, hp.len());
    assert(deep(hp@).subrange(0, hp@.len() as int) =~= deep(hp@));
    let tail = read_tail_list(&tp);
    match (head, tail) {
        (Some(h), Some(t)) => {
            if h.len() <= 7 && t.len() <= 7 - h.len() {
                let fill = 8 - h.len() - t.len();
                let mut out = h;
                let ghost hv = out@;
                let mut z: usize = 0;
                while z < fill
                    invariant
                        z <= fill,
                        out@ == hv + Seq::new(z as nat, |i: int| 0u16),
                    decreases fill - z,
                {
                    out.push(0);
                    z = z + 1;
                    assert(out@ =~= hv + Seq::new(z as nat, |i: int| 0u16));
                }
                let mut i: usize = 0;
                let ghost mid = out@;
                while i < t.len()
                    invariant
                        i <= t@.len(),
                        out@ == mid + t@.subrange(0, i as int),
                    decreases t@.len() - i,
                {
                    out.push(t[i]);
                    i = i + 1;
                    assert(out@ =~= mid + t@.subrange(0, i as int));
                }
                assert(t@.subrange(0, t@.len() as int) =~= t@);
                Some(out)
            } else {
                None
            }
        },
        _ => None,
    }
}

proof fn lemma_groups_value_bound(g: Seq<u16>)
    ensures
        g.len() <= 8 ==> groups_value(g) < pow65536(g.len()),
    decreases g.len(),
{
    if g.len() > 0 {
        lemma_groups_value_bound(g.drop_last());
        let v = groups_value(g.drop_last());
        let p = pow65536(g.drop_last().len());
        let x = g.last();
        if g.len() <= 8 {
            assert(v * 65536 + x < p * 65536) by (nonlinear_arith)
                requires
                    v < p,
                    x < 65536,
            ;
        }
    }
}

pub open spec fn pow65536(n: nat) -> nat
    decreases n,
{
    if n == 0 {
        1
    } else {
        pow65536((n - 1) as nat) * 65536
    }
}

/// Reads an IP address as `str::parse::<IpAddr>` does.
pub fn parse_ip(text: &str) -> (r: Option<IpAddress>)
    ensures
        r == parsed_ip(text@),
{
    let s = chars_of(text);
    if let Some(o) = read_ipv4(&s) {
        let v = o[0] as u32 * 16777216 + o[1] as u32 * 65536 + o[2] as u32 * 256 + o[3] as u32;
        return Some(IpAddress::V4(v));
    }
    match read_ipv6(&s) {
        Some(g) => {
            let mut acc: u128 = 0;
            let mut i: usize = 0;
            while i < 8
                invariant
                    g@.len() == 8,
                    i <= 8,
                    acc == groups_value(g@.subrange(0, i as int)),
                decreases 8 - i,
            {
                proof {
                    lemma_groups_value_bound(g@.subrange(0, i as int));
                    assert(pow65536(7) == 0x1_0000_0000_0000_0000_0000_0000_0000) by {
                        reveal_with_fuel(pow65536, 8);
                    }
                    assert(g@.subrange(0, i + 1).drop_last() =~= g@.subrange(0, i as int));
                    if i < 7 {
                        assert(pow65536(i as nat) <= pow65536(7)) by {
                            lemma_pow_mono(i as nat, 7);
                        }
                    }
                }
                acc = acc * 65536 + g[i] as u128;
                i = i + 1;
            }
            assert(g@.subrange(0, 8) =~= g@);
            Some(IpAddress::V6(acc))
        },
        None => None,
    }
}

proof fn lemma_pow_mono(a: nat, b: nat)
    requires
        a <= b,
    ensures
        pow65536(a) <= pow65536(b),
    decreases b,
{
    if a < b {
        lemma_pow_mono(a, (b - 1) as nat);
    }
}

// ---------------------------------------------------------------------------
// Writing

/// The last `k` base-65536 digits of `v`, most significant first.
pub open spec fn segments(v: nat, k: nat) -> Seq<u16>
    decreases k,
{
    if k == 0 {
        Seq::empty()
    } else {
        segments(v / 65536, (k - 1) as nat).push((v % 65536) as u16)
    }
}

pub open spec fn hex_char(d: nat) -> char {
    if d < 10 {
        ('0' as nat + d) as char
    } else {
        ('a' as nat + d - 10) as char
    }
}

/// Lowercase hex text of `n`, without leading zeros.
pub open spec fn hex_text(n: nat) -> Seq<char>
    decreases n,
{
    if n < 16 {
        seq![hex_char(n)]
    } else {
        hex_text(n / 16).push(hex_char(n % 16))
    }
}

/// Groups in hex, separated by `:`.
pub open spec fn join_groups(g: Seq<u16>) -> Seq<char>
    decreases g.len(),
{
    if g.len() == 0 {
        Seq::empty()
    } else if g.len() == 1 {
        hex_text(g[0] as nat)
    } else {
        join_groups(g.drop_last()) + seq![':'] + hex_text(g.last() as nat)
    }
}

/// Scan for the first longest run of zero groups: (start, length) of the
/// longest run so far, and of the run that ends at the last group.
pub open spec fn zero_scan(g: Seq<u16>) -> (int, int, int, int)
    decreases g.len(),
{
    if g.len() == 0 {
        (0, 0, 0, 0)
    } else {
        let (bs, bl, cs, cl) = zero_scan(g.drop_last());
        let i = g.len() - 1;
        if g.last() == 0 {
            let ns = if cl == 0 {
                i
            } else {
                cs
            };
            if cl + 1 > bl {
                (ns, cl + 1, ns, cl + 1)
            } else {
                (bs, bl, ns, cl + 1)
            }
        } else {
            (bs, bl, cs, 0)
        }
    }
}

/// Dotted-quad text of a 32-bit address.
pub open spec fn ipv4_text(v: nat) -> Seq<char> {
    decimal(v / 16777216) + seq!['.'] + decimal((v / 65536) % 256) + seq!['.'] + decimal(
        (v / 256) % 256,
    ) + seq!['.'] + decimal(v % 256)
}

/// Canonical text of an IPv6 address: IPv4-mapped addresses as
/// `::ffff:a.b.c.d`; otherwise lowercase hex groups with the first longest
/// run of two or more zero groups written as `::`.
pub open spec fn ipv6_text(v: nat) -> Seq<char> {
    let g = segments(v, 8);
    if g[0] == 0 && g[1] == 0 && g[2] == 0 && g[3] == 0 && g[4] == 0 && g[5] == 0xffff {
        "::ffff:"@ + ipv4_text(g[6] as nat * 65536 + g[7] as nat)
    } else {
        let (bs, bl, _, _) = zero_scan(g);
        if bl > 1 {
            join_groups(g.subrange(0, bs)) + "::"@ + join_groups(g.subrange(bs + bl, 8))
        } else {
            join_groups(g)
        }
    }
}

/// Text of an address, as `IpAddr`'s `Display` writes it.
pub open spec fn ip_display(ip: IpAddress) -> Seq<char> {
    match ip {
        IpAddress::V4(a) => ipv4_text(a as nat),
        IpAddress::V6(b) => ipv6_text(b as nat),
    }
}

fn segments_of(v: u128, k: usize) -> (r: Vec<u16>)
    ensures
        r@ == segments(v as nat, k as nat),
        r@.len() == k,
    decreases k,
{
    if k == 0 {
        Vec::new()
    } else {
        let mut r = segments_of(v / 65536, k - 1);
        r.push((v % 65536) as u16);
        r
    }
}

fn hex_text_of(n: u32) -> (r: String)
    ensures
        r@ == hex_text(n as nat),
    decreases n,
{
    let d = n % 16;
    let c = if d < 10 {
        ((48 + d) as u8) as char
    } else {
        ((87 + d) as u8) as char
    };
    assert(c == hex_char(d as nat));
    if n < 16 {
        let mut out = String::new();
        push_char(&mut out, c);
        assert(out@ =~= seq![c]);
        out
    } else {
        let mut out = hex_text_of(n / 16);
        push_char(&mut out, c);
        out
    }
}

fn join_groups_of(g: &Vec<u16>, lo: usize, hi: usize) -> (r: String)
    requires
        lo <= hi <= g@.len(),
    ensures
        r@ == join_groups(g@.subrange(lo as int, hi as int)),
{
    let mut out = String::new();
    let mut i = lo;
    assert(g@.subrange(lo as int, lo as int) =~= Seq::<u16>::empty());
    while i < hi
        invariant
            lo <= i <= hi <= g@.len(),
            out@ == join_groups(g@.subrange(lo as int, i as int)),
        decreases hi - i,
    {
        let h = hex_text_of(g[i] as u32);
        let ghost part = g@.subrange(lo as int, i + 1);
        assert(part.drop_last() =~= g@.subrange(lo as int, i as int));
        if i > lo {
            push_char(&mut out, ':');
        }
        out.append(h.as_str());
        i = i + 1;
        assert(out@ =~= join_groups(part));
    }
    out
}

fn ipv4_text_of(v: u32) -> (r: String)
    ensures
        r@ == ipv4_text(v as nat),
{
    let mut out = u64_text((v / 16777216) as u64);
    push_char(&mut out, '.');
    out.append(u64_text(((v / 65536) % 256) as u64).as_str());
    push_char(&mut out, '.');
    out.append(u64_text(((v / 256) % 256) as u64).as_str());
    push_char(&mut out, '.');
    out.append(u64_text((v % 256) as u64).as_str());
    out
}

/// Text of an address, as `IpAddr`'s `Display` writes it.
pub fn ip_text(ip: IpAddress) -> (r: String)
    ensures
        r@ == ip_display(ip),
{
    match ip {
        IpAddress::V4(a) => ipv4_text_of(a),
        IpAddress::V6(b) => {
            let g = segments_of(b, 8);
            if g[0] == 0 && g[1] == 0 && g[2] == 0 && g[3] == 0 && g[4] == 0 && g[5] == 0xffff {
                let mut out = String::from_str("::ffff:");
                let tail = ipv4_text_of((g[6] as u32) * 65536 + (g[7] as u32));
                out.append(tail.as_str());
                return out;
            }
            let mut bs: usize = 0;
            let mut bl: usize = 0;
            let mut cs: usize = 0;
            let mut cl: usize = 0;
            let mut i: usize = 0;
            while i < 8
                invariant
                    g@.len() == 8,
                    i <= 8,
                    bl <= i,
                    cl <= i,
                    (bs as int, bl as int, cs as int, cl as int) == zero_scan(g@.subrange(0, i as int)),
                    bs + bl <= i,
                    cl > 0 ==> cs + cl == i,
                decreases 8 - i,
            {
                assert(g@.subrange(0, i + 1).drop_last() =~= g@.subrange(0, i as int));
                if g[i] == 0 {
                    if cl == 0 {
                        cs = i;
                    }
                    cl = cl + 1;
                    if cl > bl {
                        bs = cs;
                        bl = cl;
                    }
                } else {
                    cl = 0;
                }
                i = i + 1;
            }
            assert(g@.subrange(0, 8) =~= g@);
            if bl > 1 {
                let mut out = join_groups_of(&g, 0, bs);
                out.append("::");
                let rest = join_groups_of(&g, bs + bl, 8);
                out.append(rest.as_str());
                out
            } else {
                join_groups_of(&g, 0, 8)
            }
        },
    }
}

} // verus!
