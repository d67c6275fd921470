//! How numbers and addresses are written: thousands separators in threes,
//! and decimal and address texts that read back as the values they show.

use vstd::prelude::*;
use crate::decimal::{
    all_digits, decimal, digit_char, digit_value, digits_value, is_digit, parse_u64_text,
};
use crate::ip::{
    all_hex, dec_octet, double_colon_at, groups_value, h16, h16_list, hex_char,
    hex_digits_value, hex_text, hex_value, ip_display, ipv4_octets, ipv4_text, ipv6_groups,
    join_groups, lemma_split_nonempty, parsed_ip, pieces, pow65536, segments, split_on,
    tail_list, zero_scan,
};
use crate::model::IpAddress;
use crate::render::{
    disposition_list, group_text, grouped, pad_left, pad_right, reporter_rows, source_row,
    source_rows,
};
use crate::summary::{ReporterStatView, SourceStatView};

verus! {

pub open spec fn without_separators(s: Seq<char>) -> Seq<char>
    decreases s.len(),
{
    if s.len() == 0 {
        Seq::empty()
    } else {
        let prev = without_separators(s.drop_last());
        if s.last() == ',' {
            prev
        } else {
            prev.push(s.last())
        }
    }
}

proof fn lemma_without_separators_concat(a: Seq<char>, b: Seq<char>)
    ensures
        without_separators(a + b) == without_separators(a) + without_separators(b),
    decreases b.len(),
{
    if b.len() == 0 {
        assert(a + b =~= a);
        assert(without_separators(a) + without_separators(b) =~= without_separators(a));
    } else {
        lemma_without_separators_concat(a, b.drop_last());
        assert((a + b).drop_last() =~= a + b.drop_last());
        assert(without_separators(a) + without_separators(b) =~= if b.last() == ',' {
            without_separators(a) + without_separators(b.drop_last())
        } else {
            (without_separators(a) + without_separators(b.drop_last())).push(b.last())
        });
    }
}

proof fn lemma_grouped_prefix(d: Seq<char>, i: nat)
    requires
        i <= d.len(),
        forall|k: int| 0 <= k < d.len() ==> #[trigger] d[k] != ',',
    ensures
        without_separators(grouped(d, i)) == d.take(i as int),
    decreases i,
{
    if i > 0 {
        let k = (i - 1) as nat;
        lemma_grouped_prefix(d, k);
        let sep: Seq<char> = if k > 0 && (d.len() - k) % 3 == 0 {
            seq![',']
        } else {
            Seq::empty()
        };
        lemma_without_separators_concat(grouped(d, k), sep);
        lemma_without_separators_concat(grouped(d, k) + sep, seq![d[k as int]]);
        let comma: Seq<char> = seq![','];
        assert(without_separators(comma) =~= Seq::<char>::empty()) by {
            assert(comma.drop_last() =~= Seq::<char>::empty());
            assert(comma.last() == ',');
            assert(without_separators(comma.drop_last()) =~= Seq::<char>::empty());
        }
        let one: Seq<char> = seq![d[k as int]];
        assert(without_separators(one) =~= one) by {
            assert(one.drop_last() =~= Seq::<char>::empty());
            assert(one.last() == d[k as int]);
            assert(without_separators(one.drop_last()) =~= Seq::<char>::empty());
        }
        assert(d.take(i as int) =~= d.take(k as int).push(d[k as int]));
    }
}

proof fn lemma_decimal_digits(n: nat)
    ensures
        forall|k: int| 0 <= k < decimal(n).len() ==> '0' <= #[trigger] decimal(n)[k] <= '9',
    decreases n,
{
    if n >= 10 {
        lemma_decimal_digits(n / 10);
        let prev = decimal(n / 10);
        let c = digit_char(n % 10);
        assert('0' <= c <= '9');
        assert(decimal(n) == prev.push(c));
        assert forall|k: int| 0 <= k < decimal(n).len() implies '0' <= #[trigger] decimal(n)[k] <= '9' by {
            if k < prev.len() {
                assert(decimal(n)[k] == prev[k]);
            }
        }
    } else {
        assert('0' <= digit_char(n) <= '9');
    }
}

/// Grouping only inserts separators: without its commas, the grouped text
/// of `n` is the plain decimal text of `n`.
pub proof fn law_group_digits_only_separates(n: nat)
    ensures
        without_separators(group_text(n)) == decimal(n),
{
    lemma_decimal_digits(n);
    lemma_grouped_prefix(decimal(n), decimal(n).len());
    assert(decimal(n).take(decimal(n).len() as int) =~= decimal(n));
}

/// Length of the first group of `l` digits (1 to 3).
spec fn first_group(l: int) -> int {
    (l - 1) % 3 + 1
}

/// Where the commas of a grouped prefix stand: after the first group, then
/// before every further group of three.
#[verifier::spinoff_prover]
proof fn lemma_grouped_commas(d: Seq<char>, i: nat)
    requires
        d.len() >= 1,
        i <= d.len(),
        forall|k: int| 0 <= k < d.len() ==> #[trigger] d[k] != ',',
    ensures
        grouped(d, i).len() == i + if i <= first_group(d.len() as int) {
            0
        } else {
            (i - first_group(d.len() as int) + 2) / 3
        },
        forall|p: int|
            0 <= p < grouped(d, i).len() ==> (#[trigger] grouped(d, i)[p] == ',' <==> (p
                >= first_group(d.len() as int) && (p - first_group(d.len() as int)) % 4 == 0)),
    decreases i,
{
    if i > 0 {
        let k = (i - 1) as nat;
        let f = first_group(d.len() as int);
        lemma_grouped_commas(d, k);
        let old = grouped(d, k);
        let comma = k > 0 && (d.len() - k) % 3 == 0;
        assert(comma <==> (k >= f && (k - f) % 3 == 0));
        let sep: Seq<char> = if comma {
            seq![',']
        } else {
            Seq::empty()
        };
        let g = grouped(d, i);
        assert(g == old + sep + seq![d[k as int]]);
        assert forall|p: int| 0 <= p < g.len() implies (#[trigger] g[p] == ',' <==> (p >= f && (p - f)
            % 4 == 0)) by {
            if p < old.len() {
                assert(g[p] == old[p]);
            } else if comma && p == old.len() {
                assert(g[p] == ',');
            } else {
                assert(g[p] == d[k as int]);
            }
        }
    }
}

/// Digits are grouped in threes from the right: the text of `n` has a comma
/// exactly at every fourth place counted from its end (never first), one
/// for each full group of three after the first group.
pub proof fn law_group_digits_thousands(n: nat)
    ensures
        group_text(n).len() == decimal(n).len() + (decimal(n).len() - 1) / 3,
        forall|p: int|
            0 <= p < group_text(n).len() ==> (#[trigger] group_text(n)[p] == ',' <==> p > 0 && (
            group_text(n).len() - p) % 4 == 0),
{
    let d = decimal(n);
    lemma_decimal_digits(n);
    lemma_decimal_facts(n);
    lemma_grouped_commas(d, d.len());
}

// ---------------------------------------------------------------------------
// Text that reads back

proof fn lemma_digit_char(d: nat)
    requires
        d < 10,
    ensures
        is_digit(digit_char(d)),
        digit_value(digit_char(d)) == d,
        digit_char(d) == '0' <==> d == 0,
{
}

/// The decimal text of `n`: digits, without a leading zero, of value `n`.
proof fn lemma_decimal_facts(n: nat)
    ensures
        decimal(n).len() >= 1,
        all_digits(decimal(n)),
        digits_value(decimal(n)) == n,
        decimal(n)[0] == '0' ==> n == 0,
        n < 10 ==> decimal(n).len() == 1,
        n < 100 ==> decimal(n).len() <= 2,
        n < 1000 ==> decimal(n).len() <= 3,
    decreases n,
{
    if n < 10 {
        lemma_digit_char(n);
        let s = decimal(n);
        assert(s.drop_last() =~= Seq::<char>::empty());
        assert(digits_value(s.drop_last()) == 0);
    } else {
        lemma_decimal_facts(n / 10);
        lemma_digit_char(n % 10);
        let p = decimal(n / 10);
        let s = decimal(n);
        assert(s == p.push(digit_char(n % 10)));
        assert(s.drop_last() =~= p);
        assert(all_digits(s)) by {
            assert forall|i: int| 0 <= i < s.len() implies is_digit(#[trigger] s[i]) by {
                if i < p.len() {
                    assert(s[i] == p[i]);
                }
            }
        }
        assert(s[0] == p[0]);
    }
}

/// The decimal text of a count reads back as that count.
pub proof fn law_decimal_reads_back(n: u64)
    ensures
        parse_u64_text(decimal(n as nat)) == Some(n),
{
    lemma_decimal_facts(n as nat);
}

/// A piece without separators splits into itself.
proof fn lemma_split_plain(s: Seq<char>, sep: char)
    requires
        !s.contains(sep),
    ensures
        split_on(s, sep) == seq![s],
    decreases s.len(),
{
    if s.len() > 0 {
        let p = s.drop_last();
        assert(!p.contains(sep)) by {
            if p.contains(sep) {
                let k = choose|k: int| 0 <= k < p.len() && p[k] == sep;
                assert(s[k] == sep);
            }
        }
        lemma_split_plain(p, sep);
        assert(s[s.len() - 1] == s.last());
        assert(p.push(s.last()) =~= s);
    } else {
        assert(s =~= Seq::<char>::empty());
    }
}

/// Splitting text joined by a separator splits each side.
proof fn lemma_split_join(x: Seq<char>, y: Seq<char>, sep: char)
    ensures
        split_on(x + seq![sep] + y, sep) == split_on(x, sep) + split_on(y, sep),
    decreases y.len(),
{
    let xs = x + seq![sep];
    if y.len() == 0 {
        assert(xs + y =~= xs);
        assert(xs.drop_last() =~= x);
        assert(split_on(y, sep) =~= seq![Seq::<char>::empty()]);
        assert(split_on(x, sep).push(Seq::<char>::empty()) =~= split_on(x, sep) + split_on(y, sep));
    } else {
        let y1 = y.drop_last();
        let c = y.last();
        lemma_split_join(x, y1, sep);
        lemma_split_nonempty(y1, sep);
        assert((xs + y).drop_last() =~= xs + y1);
        assert((xs + y).last() == c);
        let a = split_on(x, sep);
        let b = split_on(y1, sep);
        if c == sep {
            assert((a + b).push(Seq::<char>::empty()) =~= a + b.push(Seq::<char>::empty()));
        } else {
            assert((a + b).update((a + b).len() - 1, (a + b).last().push(c)) =~= a + b.update(
                b.len() - 1,
                b.last().push(c),
            ));
        }
    }
}

proof fn lemma_no_digit_separators(n: nat)
    ensures
        !decimal(n).contains('.'),
        !decimal(n).contains(':'),
{
    lemma_decimal_facts(n);
    if decimal(n).contains('.') {
        let k = choose|k: int| 0 <= k < decimal(n).len() && decimal(n)[k] == '.';
        assert(is_digit(decimal(n)[k]));
    }
    if decimal(n).contains(':') {
        let k = choose|k: int| 0 <= k < decimal(n).len() && decimal(n)[k] == ':';
        assert(is_digit(decimal(n)[k]));
    }
}

proof fn lemma_dec_octet(n: nat)
    requires
        n <= 255,
    ensures
        dec_octet(decimal(n)) == Some(n as u8),
{
    lemma_decimal_facts(n);
}

/// The four dotted decimal parts of `v`, read back.
#[verifier::spinoff_prover]
proof fn lemma_ipv4_octets(v: u32)
    ensures
        ipv4_octets(ipv4_text(v as nat)) == Some(
            seq![
                (v / 16777216) as u8,
                ((v / 65536) % 256) as u8,
                ((v / 256) % 256) as u8,
                (v % 256) as u8,
            ],
        ),
{
    let a = (v / 16777216) as nat;
    let b = ((v / 65536) % 256) as nat;
    let c = ((v / 256) % 256) as nat;
    let d = (v % 256) as nat;
    let (da, db, dc, dd) = (decimal(a), decimal(b), decimal(c), decimal(d));
    let dot: Seq<char> = seq!['.'];
    lemma_no_digit_separators(a);
    lemma_no_digit_separators(b);
    lemma_no_digit_separators(c);
    lemma_no_digit_separators(d);
    lemma_split_plain(da, '.');
    lemma_split_plain(db, '.');
    lemma_split_plain(dc, '.');
    lemma_split_plain(dd, '.');
    lemma_split_join(da, db, '.');
    lemma_split_join(da + dot + db, dc, '.');
    lemma_split_join(da + dot + db + dot + dc, dd, '.');
    let ps = split_on(ipv4_text(v as nat), '.');
    assert(ipv4_text(v as nat) == da + dot + db + dot + dc + dot + dd);
    assert(ps =~= seq![da, db, dc, dd]);
    lemma_dec_octet(a);
    lemma_dec_octet(b);
    lemma_dec_octet(c);
    lemma_dec_octet(d);
    assert(dec_octet(ps[0]) is Some && dec_octet(ps[1]) is Some && dec_octet(ps[2]) is Some
        && dec_octet(ps[3]) is Some);
    assert(Seq::new(4, |i: int| dec_octet(ps[i]).unwrap()) =~= seq![a as u8, b as u8, c as u8, d as u8]);
}

proof fn lemma_octets_value(v: u32)
    ensures
        (v / 16777216) * 16777216 + ((v / 65536) % 256) * 65536 + ((v / 256) % 256) * 256 + v % 256
            == v,
{
    assert((v / 16777216) * 16777216 + ((v / 65536) % 256) * 65536 + ((v / 256) % 256) * 256 + v % 256
        == v) by (bit_vector);
}

/// The dotted-quad text of an IPv4 address reads back as that address.
proof fn lemma_ipv4_reads_back(v: u32)
    ensures
        parsed_ip(ip_display(IpAddress::V4(v))) == Some(IpAddress::V4(v)),
{
    lemma_ipv4_octets(v);
    lemma_octets_value(v);
}

proof fn lemma_hex_char(d: nat)
    requires
        d < 16,
    ensures
        hex_value(hex_char(d)) == Some(d),
        hex_char(d) != ':',
        hex_char(d) != '.',
{
}

/// The hex text of a group: one to four hex digits, of value `n`.
proof fn lemma_hex_facts(n: nat)
    ensures
        hex_text(n).len() >= 1,
        all_hex(hex_text(n)),
        hex_digits_value(hex_text(n)) == n,
        !hex_text(n).contains(':'),
        !hex_text(n).contains('.'),
        n < 16 ==> hex_text(n).len() == 1,
        n < 256 ==> hex_text(n).len() <= 2,
        n < 4096 ==> hex_text(n).len() <= 3,
        n < 65536 ==> hex_text(n).len() <= 4,
    decreases n,
{
    let s = hex_text(n);
    if n < 16 {
        lemma_hex_char(n);
        assert(s.drop_last() =~= Seq::<char>::empty());
        assert(s[0] == hex_char(n));
        assert(s.last() == hex_char(n));
        assert(hex_digits_value(s.drop_last()) == 0);
    } else {
        lemma_hex_facts(n / 16);
        lemma_hex_char(n % 16);
        let p = hex_text(n / 16);
        assert(s == p.push(hex_char(n % 16)));
        assert(s.drop_last() =~= p);
        assert(s.last() == hex_char(n % 16));
        assert(hex_digits_value(s) == hex_digits_value(p) * 16 + n % 16);
        assert forall|i: int| 0 <= i < s.len() implies (#[trigger] hex_value(s[i])) is Some by {
            if i < p.len() {
                assert(s[i] == p[i]);
            }
        }
        assert forall|c: char| c == ':' || c == '.' implies !s.contains(c) by {
            if s.contains(c) {
                let k = choose|k: int| 0 <= k < s.len() && s[k] == c;
                if k < p.len() {
                    assert(s[k] == p[k]);
                    assert(p.contains(c));
                }
            }
        }
    }
}

proof fn lemma_h16(n: u16)
    ensures
        h16(hex_text(n as nat)) == Some(n),
{
    lemma_hex_facts(n as nat);
}

/// The hex texts of the groups.
spec fn group_texts(g: Seq<u16>) -> Seq<Seq<char>> {
    Seq::new(g.len(), |i: int| hex_text(g[i] as nat))
}

/// Joined groups: no `.`, no two `:` in a row, and neither starting nor
/// ending with `:`; split at `:` they give back the groups' texts.
#[verifier::spinoff_prover]
proof fn lemma_join_facts(g: Seq<u16>)
    requires
        g.len() >= 1,
    ensures
        split_on(join_groups(g), ':') == group_texts(g),
        !join_groups(g).contains('.'),
        join_groups(g).len() >= 1,
        join_groups(g)[0] != ':',
        join_groups(g).last() != ':',
        forall|k: int| !(#[trigger] double_colon_at(join_groups(g), k)),
    decreases g.len(),
{
    let s = join_groups(g);
    if g.len() == 1 {
        lemma_hex_facts(g[0] as nat);
        lemma_split_plain(hex_text(g[0] as nat), ':');
        assert(group_texts(g) =~= seq![hex_text(g[0] as nat)]);
        assert(s[0] != ':') by {
            assert(s.contains(s[0]));
        }
        assert(s.last() != ':') by {
            assert(s.contains(s[s.len() - 1]));
        }
        assert forall|k: int| !(#[trigger] double_colon_at(s, k)) by {
            if double_colon_at(s, k) {
                assert(s.contains(s[k]));
            }
        }
    } else {
        let p = g.drop_last();
        let jp = join_groups(p);
        let t = hex_text(g.last() as nat);
        lemma_join_facts(p);
        lemma_hex_facts(g.last() as nat);
        lemma_split_plain(t, ':');
        lemma_split_join(jp, t, ':');
        assert(s == jp + seq![':'] + t);
        assert(group_texts(p) + seq![t] =~= group_texts(g));
        assert(!s.contains('.')) by {
            if s.contains('.') {
                let k = choose|k: int| 0 <= k < s.len() && s[k] == '.';
                if k < jp.len() {
                    assert(jp[k] == '.');
                    assert(jp.contains('.'));
                } else if k > jp.len() {
                    assert(t[k - jp.len() - 1] == '.');
                    assert(t.contains('.'));
                }
            }
        }
        assert(s[0] == jp[0]);
        assert(s.last() == t.last());
        assert(t.contains(t[t.len() - 1]));
        assert forall|k: int| !(#[trigger] double_colon_at(s, k)) by {
            if double_colon_at(s, k) {
                if k + 1 < jp.len() {
                    assert(s[k] == jp[k] && s[k + 1] == jp[k + 1]);
                    assert(double_colon_at(jp, k));
                } else if k + 1 == jp.len() {
                    assert(s[k] == jp.last());
                } else if k == jp.len() {
                    assert(s[k + 1] == t[0]);
                    assert(t.contains(t[0]));
                } else {
                    assert(s[k] == t[k - jp.len() - 1]);
                    assert(t.contains(t[k - jp.len() - 1]));
                }
            }
        }
    }
}

proof fn lemma_h16_list(g: Seq<u16>)
    ensures
        h16_list(group_texts(g)) == Some(g),
{
    assert forall|i: int| 0 <= i < g.len() implies (#[trigger] h16(group_texts(g)[i])) is Some
        && h16(group_texts(g)[i]).unwrap() == g[i] by {
        lemma_h16(g[i]);
    }
    assert(Seq::new(g.len(), |i: int| h16(group_texts(g)[i]).unwrap()) =~= g);
}

/// Text without a `.` is no dotted quad.
proof fn lemma_not_dotted(s: Seq<char>)
    requires
        !s.contains('.'),
    ensures
        ipv4_octets(s) is None,
{
    lemma_split_plain(s, '.');
}

/// Joined groups read back as a list of groups, with or without a dotted
/// tail.
proof fn lemma_join_reads_back(g: Seq<u16>)
    requires
        g.len() >= 1,
    ensures
        h16_list(pieces(join_groups(g))) == Some(g),
        tail_list(pieces(join_groups(g))) == Some(g),
{
    lemma_join_facts(g);
    lemma_h16_list(g);
    let ps = pieces(join_groups(g));
    assert(ps == group_texts(g));
    lemma_hex_facts(g.last() as nat);
    assert(ps.last() == hex_text(g.last() as nat));
    lemma_not_dotted(ps.last());
}

/// The base-65536 digits of `v` read back as `v`.
proof fn lemma_segments(v: nat, k: nat)
    requires
        v < pow65536(k),
    ensures
        segments(v, k).len() == k,
        groups_value(segments(v, k)) == v,
    decreases k,
{
    if k > 0 {
        let p = pow65536((k - 1) as nat);
        assert(v / 65536 < p) by (nonlinear_arith)
            requires
                v < p * 65536,
        ;
        lemma_segments(v / 65536, (k - 1) as nat);
        let sg = segments(v, k);
        assert(sg.drop_last() =~= segments(v / 65536, (k - 1) as nat));
        assert(sg.last() == (v % 65536) as u16);
    }
}

/// The run that `zero_scan` reports: the longest run lies within the
/// groups and holds only zeros, and so does the run at the end.
proof fn lemma_zero_scan(g: Seq<u16>)
    ensures
        ({
            let (bs, bl, cs, cl) = zero_scan(g);
            &&& 0 <= bl && 0 <= cl
            &&& bl > 0 ==> 0 <= bs && bs + bl <= g.len() && forall|i: int|
                bs <= i < bs + bl ==> #[trigger] g[i] == 0
            &&& cl > 0 ==> 0 <= cs && cs + cl == g.len() && forall|i: int|
                cs <= i < cs + cl ==> #[trigger] g[i] == 0
        }),
    decreases g.len(),
{
    if g.len() > 0 {
        let p = g.drop_last();
        lemma_zero_scan(p);
        assert forall|i: int| 0 <= i < p.len() implies #[trigger] g[i] == p[i] by {}
        assert(g[g.len() - 1] == g.last());
    }
}

proof fn lemma_empty_lists()
    ensures
        h16_list(Seq::<Seq<char>>::empty()) == Some(Seq::<u16>::empty()),
        tail_list(Seq::<Seq<char>>::empty()) == Some(Seq::<u16>::empty()),
        pieces(Seq::<char>::empty()) == Seq::<Seq<char>>::empty(),
        join_groups(Seq::<u16>::empty()) == Seq::<char>::empty(),
{
    assert(Seq::new(0, |i: int| h16(Seq::<Seq<char>>::empty()[i]).unwrap()) =~= Seq::<u16>::empty());
}

/// Eight groups written out in full read back as those groups.
proof fn lemma_ipv6_full(g: Seq<u16>)
    requires
        g.len() == 8,
    ensures
        ipv4_octets(join_groups(g)) is None,
        ipv6_groups(join_groups(g)) == Some(g),
{
    let s = join_groups(g);
    lemma_join_facts(g);
    lemma_join_reads_back(g);
    lemma_not_dotted(s);
    assert(pieces(s) == split_on(s, ':'));
}

/// Groups with a run of zeros written as `::` read back as those groups.
#[verifier::spinoff_prover]
proof fn lemma_ipv6_compressed(g: Seq<u16>, bs: int, bl: int)
    requires
        g.len() == 8,
        0 <= bs,
        2 <= bl,
        bs + bl <= 8,
        forall|i: int| bs <= i < bs + bl ==> #[trigger] g[i] == 0,
    ensures
        ipv4_octets(join_groups(g.subrange(0, bs)) + "::"@ + join_groups(g.subrange(bs + bl, 8)))
            is None,
        ipv6_groups(join_groups(g.subrange(0, bs)) + "::"@ + join_groups(g.subrange(bs + bl, 8)))
            == Some(g),
{
    reveal_strlit("::");
    let hg = g.subrange(0, bs);
    let tg = g.subrange(bs + bl, 8);
    let jh = join_groups(hg);
    let jt = join_groups(tg);
    let dc: Seq<char> = "::"@;
    assert(dc =~= seq![':', ':']);
    let s = jh + dc + jt;
    let k = jh.len() as int;
    lemma_empty_lists();
    if hg.len() > 0 {
        lemma_join_facts(hg);
        lemma_join_reads_back(hg);
    } else {
        assert(hg =~= Seq::<u16>::empty());
    }
    if tg.len() > 0 {
        lemma_join_facts(tg);
        lemma_join_reads_back(tg);
    } else {
        assert(tg =~= Seq::<u16>::empty());
    }
    assert(!s.contains('.')) by {
        if s.contains('.') {
            let i = choose|i: int| 0 <= i < s.len() && s[i] == '.';
            if i < k {
                assert(jh[i] == '.');
                assert(jh.contains('.'));
            } else if i >= k + 2 {
                assert(jt[i - k - 2] == '.');
                assert(jt.contains('.'));
            }
        }
    }
    lemma_not_dotted(s);
    assert(double_colon_at(s, k));
    assert forall|k2: int| #[trigger] double_colon_at(s, k2) implies k2 == k by {
        if k2 + 1 < k {
            assert(s[k2] == jh[k2] && s[k2 + 1] == jh[k2 + 1]);
            assert(double_colon_at(jh, k2));
        } else if k2 + 1 == k {
            assert(s[k2] == jh.last());
        } else if k2 == k + 1 {
            assert(s[k2 + 1] == jt[0]);
        } else if k2 > k + 1 {
            assert(s[k2] == jt[k2 - k - 2] && s[k2 + 1] == jt[k2 - k - 1]);
            assert(double_colon_at(jt, k2 - k - 2));
        }
    }
    assert(s.subrange(0, k) =~= jh);
    assert(s.subrange(k + 2, s.len() as int) =~= jt);
    assert(hg + Seq::new((8 - hg.len() - tg.len()) as nat, |i: int| 0u16) + tg =~= g);
}

proof fn lemma_mapped_parts(hi: u16, lo: u16)
    ensures
        ({
            let w = hi as u32 * 65536 + lo as u32;
            &&& (w / 16777216) * 256 + (w / 65536) % 256 == hi
            &&& ((w / 256) % 256) * 256 + w % 256 == lo
        }),
{
    let w: u32 = (hi as u32 * 65536 + lo as u32) as u32;
    assert(w == hi as u32 * 65536 + lo as u32);
    assert((w / 16777216) * 256 + (w / 65536) % 256 == hi) by (bit_vector)
        requires
            w == hi as u32 * 65536 + lo as u32,
    ;
    assert(((w / 256) % 256) * 256 + w % 256 == lo) by (bit_vector)
        requires
            w == hi as u32 * 65536 + lo as u32,
    ;
}

/// The text of an IPv4 address has no `:`.
#[verifier::spinoff_prover]
proof fn lemma_ipv4_text_plain(v: u32)
    ensures
        !ipv4_text(v as nat).contains(':'),
        ipv4_text(v as nat).len() >= 1,
        is_digit(ipv4_text(v as nat)[0]),
{
    let a = (v / 16777216) as nat;
    let b = ((v / 65536) % 256) as nat;
    let c = ((v / 256) % 256) as nat;
    let d = (v % 256) as nat;
    let t = ipv4_text(v as nat);
    let dot: Seq<char> = seq!['.'];
    lemma_no_digit_separators(a);
    lemma_no_digit_separators(b);
    lemma_no_digit_separators(c);
    lemma_no_digit_separators(d);
    lemma_decimal_facts(a);
    let pieces4 = seq![decimal(a), decimal(b), decimal(c), decimal(d)];
    assert(t == decimal(a) + dot + decimal(b) + dot + decimal(c) + dot + decimal(d));
    assert(t[0] == decimal(a)[0]);
    assert(!t.contains(':')) by {
        if t.contains(':') {
            let i = choose|i: int| 0 <= i < t.len() && t[i] == ':';
            let la = decimal(a).len() as int;
            let lb = decimal(b).len() as int;
            let lc = decimal(c).len() as int;
            if i < la {
                assert(decimal(a)[i] == ':');
                assert(decimal(a).contains(':'));
            } else if la < i < la + 1 + lb {
                assert(decimal(b)[i - la - 1] == ':');
                assert(decimal(b).contains(':'));
            } else if la + 1 + lb < i < la + 2 + lb + lc {
                assert(decimal(c)[i - la - lb - 2] == ':');
                assert(decimal(c).contains(':'));
            } else if la + 2 + lb + lc < i {
                assert(decimal(d)[i - la - lb - lc - 3] == ':');
                assert(decimal(d).contains(':'));
            }
        }
    }
}

/// `::ffff:` before a dotted quad is no dotted quad: its first part is too
/// long.
#[verifier::spinoff_prover]
proof fn lemma_mapped_not_dotted(w: u32)
    ensures
        ipv4_octets("::ffff:"@ + ipv4_text(w as nat)) is None,
{
    reveal_strlit("::ffff:");
    let pre: Seq<char> = "::ffff:"@;
    assert(pre =~= seq![':', ':', 'f', 'f', 'f', 'f', ':']);
    let s = pre + ipv4_text(w as nat);
    let a = (w / 16777216) as nat;
    let b = ((w / 65536) % 256) as nat;
    let c = ((w / 256) % 256) as nat;
    let d = (w % 256) as nat;
    let dot: Seq<char> = seq!['.'];
    lemma_no_digit_separators(a);
    lemma_no_digit_separators(b);
    lemma_no_digit_separators(c);
    lemma_no_digit_separators(d);
    let first = pre + decimal(a);
    assert(!first.contains('.')) by {
        if first.contains('.') {
            let i = choose|i: int| 0 <= i < first.len() && first[i] == '.';
            if i >= 7 {
                assert(decimal(a)[i - 7] == '.');
                assert(decimal(a).contains('.'));
            }
        }
    }
    lemma_split_plain(first, '.');
    lemma_split_plain(decimal(b), '.');
    lemma_split_plain(decimal(c), '.');
    lemma_split_plain(decimal(d), '.');
    lemma_split_join(first, decimal(b), '.');
    lemma_split_join(first + dot + decimal(b), decimal(c), '.');
    lemma_split_join(first + dot + decimal(b) + dot + decimal(c), decimal(d), '.');
    assert(s =~= first + dot + decimal(b) + dot + decimal(c) + dot + decimal(d));
    let ps = split_on(s, '.');
    assert(ps =~= seq![first, decimal(b), decimal(c), decimal(d)]);
    assert(dec_octet(ps[0]) is None);
}

/// `ffff` reads as the group 0xffff.
proof fn lemma_ffff()
    ensures
        h16_list(seq![seq!['f', 'f', 'f', 'f']]) == Some(seq![0xffffu16]),
{
    let ffff: Seq<char> = seq!['f', 'f', 'f', 'f'];
    assert(hex_digits_value(ffff) == 65535) by {
        reveal_with_fuel(hex_digits_value, 5);
        assert(ffff.drop_last() =~= seq!['f', 'f', 'f']);
        assert(ffff.drop_last().drop_last() =~= seq!['f', 'f']);
        assert(ffff.drop_last().drop_last().drop_last() =~= seq!['f']);
        assert(ffff.drop_last().drop_last().drop_last().drop_last() =~= Seq::<char>::empty());
    }
    assert(h16(ffff) == Some(0xffffu16));
    assert(Seq::new(1, |i: int| h16(seq![ffff][i]).unwrap()) =~= seq![0xffffu16]);
}

/// The groups after `::` in `::ffff:a.b.c.d`: `ffff` and the dotted quad as
/// two groups.
proof fn lemma_mapped_tail(w: u32)
    ensures
        tail_list(pieces(seq!['f', 'f', 'f', 'f'] + seq![':'] + ipv4_text(w as nat))) == Some(
            seq![
                0xffffu16,
                ((w / 16777216) * 256 + (w / 65536) % 256) as u16,
                (((w / 256) % 256) * 256 + w % 256) as u16,
            ],
        ),
{
    let ffff: Seq<char> = seq!['f', 'f', 'f', 'f'];
    let t = ipv4_text(w as nat);
    let rest = ffff + seq![':'] + t;
    lemma_ipv4_text_plain(w);
    assert(!ffff.contains(':')) by {
        if ffff.contains(':') {
            let i = choose|i: int| 0 <= i < ffff.len() && ffff[i] == ':';
        }
    }
    lemma_split_plain(ffff, ':');
    lemma_split_plain(t, ':');
    lemma_split_join(ffff, t, ':');
    let tp = pieces(rest);
    assert(tp =~= seq![ffff, t]);
    lemma_ipv4_octets(w);
    assert(tp.last() == t);
    assert(tp.drop_last() =~= seq![ffff]);
    lemma_ffff();
    let o = ipv4_octets(t).unwrap();
    assert(tail_list(tp) == Some(
        seq![0xffffu16] + seq![(o[0] * 256 + o[1]) as u16, (o[2] * 256 + o[3]) as u16],
    ));
    assert(seq![0xffffu16] + seq![(o[0] * 256 + o[1]) as u16, (o[2] * 256 + o[3]) as u16] =~= seq![
        0xffffu16,
        ((w / 16777216) * 256 + (w / 65536) % 256) as u16,
        (((w / 256) % 256) * 256 + w % 256) as u16,
    ]);
}

/// An IPv4-mapped address written as `::ffff:a.b.c.d` reads back.
proof fn lemma_ipv6_mapped(g: Seq<u16>)
    requires
        g.len() == 8,
        g[0] == 0 && g[1] == 0 && g[2] == 0 && g[3] == 0 && g[4] == 0 && g[5] == 0xffff,
    ensures
        ipv4_octets("::ffff:"@ + ipv4_text(g[6] as nat * 65536 + g[7] as nat)) is None,
        ipv6_groups("::ffff:"@ + ipv4_text(g[6] as nat * 65536 + g[7] as nat)) == Some(g),
{
    reveal_strlit("::ffff:");
    let pre: Seq<char> = "::ffff:"@;
    assert(pre =~= seq![':', ':', 'f', 'f', 'f', 'f', ':']);
    let w: u32 = (g[6] as u32 * 65536 + g[7] as u32) as u32;
    assert(w as nat == g[6] as nat * 65536 + g[7] as nat);
    let t = ipv4_text(w as nat);
    let s = pre + t;
    lemma_mapped_not_dotted(w);
    lemma_ipv4_text_plain(w);
    lemma_empty_lists();
    assert(double_colon_at(s, 0));
    assert forall|k2: int| #[trigger] double_colon_at(s, k2) implies k2 == 0 by {
        if 1 <= k2 <= 5 {
            assert(s[k2 + 1] == pre[k2 + 1]);
        } else if k2 == 6 {
            assert(s[7] == t[0]);
        } else if k2 >= 7 {
            assert(s[k2] == t[k2 - 7]);
            assert(t.contains(t[k2 - 7]));
        }
    }
    let ffff: Seq<char> = seq!['f', 'f', 'f', 'f'];
    assert(s.subrange(2, s.len() as int) =~= ffff + seq![':'] + t);
    lemma_mapped_tail(w);
    lemma_mapped_parts(g[6], g[7]);
    let tail = seq![0xffffu16, g[6], g[7]];
    assert(s.subrange(0, 0) =~= Seq::<char>::empty());
    assert(Seq::<u16>::empty() + Seq::new(5, |i: int| 0u16) + tail =~= g);
}

/// An address reads back from its text: parsing what `ip_text` writes (as
/// `IpAddr`'s `Display` does) gives the same address, for IPv4, for IPv6
/// with or without a `::` run, and for IPv4-mapped IPv6.
pub proof fn law_ip_text_reads_back(ip: IpAddress)
    ensures
        parsed_ip(ip_display(ip)) == Some(ip),
{
    match ip {
        IpAddress::V4(v) => lemma_ipv4_reads_back(v),
        IpAddress::V6(b) => {
            assert(pow65536(8) == 0x1_0000_0000_0000_0000_0000_0000_0000_0000) by {
                reveal_with_fuel(pow65536, 9);
            }
            lemma_segments(b as nat, 8);
            let g = segments(b as nat, 8);
            if g[0] == 0 && g[1] == 0 && g[2] == 0 && g[3] == 0 && g[4] == 0 && g[5] == 0xffff {
                lemma_ipv6_mapped(g);
            } else {
                lemma_zero_scan(g);
                let (bs, bl, cs, cl) = zero_scan(g);
                if bl > 1 {
                    lemma_ipv6_compressed(g, bs, bl);
                } else {
                    lemma_ipv6_full(g);
                }
            }
        },
    }
}

// ---------------------------------------------------------------------------
// Source tables

/// Each row of a source table shows, in its columns and in this order, the
/// source's address, its messages, its DKIM pass share (the first of its
/// pair of shares) under DKIM%, its SPF pass share (the second) under SPF%,
/// its dispositions, and its first and last dates; rows follow the sources
/// in order, one row per source.
#[verifier::spinoff_prover]
pub proof fn law_source_row_columns(
    v: Seq<SourceStatView>,
    sh: Seq<(Seq<char>, Seq<char>)>,
    w: int,
    k: int,
)
    requires
        0 <= k < v.len(),
    ensures
        source_rows(v.take(k + 1), sh, w) == source_rows(v.take(k), sh, w) + (pad_right(
            ip_display(v[k].ip),
            w,
        ) + "  "@ + pad_left(group_text(v[k].messages as nat), 10) + "  "@ + pad_left(sh[k].0, 6)
            + "  "@ + pad_left(sh[k].1, 6) + "  "@ + pad_right(disposition_list(v[k].dispositions), 24)
            + "  "@ + pad_right(v[k].first_seen, 10) + "  "@ + pad_right(v[k].last_seen, 10) + "\n"@),
        source_rows(v.take(v.len() as int), sh, w) == source_rows(v, sh, w),
        source_rows(v.take(0), sh, w) == Seq::<char>::empty(),
{
    let t = v.take(k + 1);
    assert(t.drop_last() =~= v.take(k));
    assert(t.last() == v[k]);
    assert(t.len() - 1 == k);
    assert(source_rows(t, sh, w) == source_rows(v.take(k), sh, w) + source_row(v[k], w, sh[k].0, sh[k].1));
    assert(v.take(v.len() as int) =~= v);
    assert(v.take(0) =~= Seq::<SourceStatView>::empty());
}

/// Each row of the reporters table shows, in this order, the organization,
/// its number of reports, and its messages with thousands separators; rows
/// follow the reporters in order, one row per reporter.
#[verifier::spinoff_prover]
pub proof fn law_reporter_row_columns(v: Seq<ReporterStatView>, w: int, k: int)
    requires
        0 <= k < v.len(),
    ensures
        reporter_rows(v.take(k + 1), w) == reporter_rows(v.take(k), w) + (pad_right(v[k].org_name, w)
            + "  "@ + pad_left(decimal(v[k].reports as nat), 8) + "  "@ + pad_left(
            group_text(v[k].messages as nat),
            10,
        ) + "\n"@),
        reporter_rows(v.take(v.len() as int), w) == reporter_rows(v, w),
        reporter_rows(v.take(0), w) == Seq::<char>::empty(),
{
    let t = v.take(k + 1);
    assert(t.drop_last() =~= v.take(k));
    assert(t.last() == v[k]);
    assert(v.take(v.len() as int) =~= v);
    assert(v.take(0) =~= Seq::<ReporterStatView>::empty());
}

proof fn lemma_piece_plain(name: Seq<char>, n: nat)
    requires
        !name.contains(' '),
    ensures
        !(name + ":"@ + decimal(n)).contains(' '),
{
    reveal_strlit(":");
    lemma_decimal_facts(n);
    let p = name + ":"@ + decimal(n);
    if p.contains(' ') {
        let i = choose|i: int| 0 <= i < p.len() && p[i] == ' ';
        if i < name.len() {
            assert(name[i] == ' ');
            assert(name.contains(' '));
        } else if i > name.len() {
            assert(decimal(n)[i - name.len() - 1] == ' ');
            assert(is_digit(decimal(n)[i - name.len() - 1]));
        }
    }
}

/// The disposition column of a source lists every disposition, in order,
/// as `name:count`, separated by single spaces: split at its spaces, it
/// gives exactly those pieces (for names without spaces).
pub proof fn law_disposition_column(d: Seq<(Seq<char>, u64)>)
    requires
        d.len() >= 1,
        forall|k: int| 0 <= k < d.len() ==> !(#[trigger] d[k].0).contains(' '),
    ensures
        split_on(disposition_list(d), ' ') == Seq::new(
            d.len(),
            |k: int| d[k].0 + ":"@ + decimal(d[k].1 as nat),
        ),
    decreases d.len(),
{
    let last = d.last();
    assert(d[d.len() - 1] == last);
    let piece = last.0 + ":"@ + decimal(last.1 as nat);
    lemma_piece_plain(last.0, last.1 as nat);
    lemma_split_plain(piece, ' ');
    let p = d.drop_last();
    if d.len() == 1 {
        assert(p =~= Seq::<(Seq<char>, u64)>::empty());
        assert(disposition_list(p) == Seq::<char>::empty());
        assert(disposition_list(d) =~= piece);
        assert(Seq::new(d.len(), |k: int| d[k].0 + ":"@ + decimal(d[k].1 as nat)) =~= seq![piece]);
    } else {
        assert forall|k: int| 0 <= k < p.len() implies !(#[trigger] p[k].0).contains(' ') by {
            assert(p[k] == d[k]);
        }
        law_disposition_column(p);
        reveal_strlit(" ");
        assert(" "@ =~= seq![' ']);
        assert(disposition_list(d) == disposition_list(p) + " "@ + piece);
        assert(disposition_list(p) + " "@ + piece =~= disposition_list(p) + seq![' '] + piece);
        lemma_split_join(disposition_list(p), piece, ' ');
        assert(Seq::new(d.len(), |k: int| d[k].0 + ":"@ + decimal(d[k].1 as nat)) =~= Seq::new(
            p.len(),
            |k: int| p[k].0 + ":"@ + decimal(p[k].1 as nat),
        ) + seq![piece]);
    }
}

} // verus!
