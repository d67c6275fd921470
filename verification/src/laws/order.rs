//! The order of the reports does not matter: every figure of the summary is
//! a function of the reports as a multiset.

use vstd::prelude::*;
use vstd::seq_lib::{
    lemma_multiset_commutative, to_multiset_build, to_multiset_contains, to_multiset_len,
    to_multiset_remove,
};
use crate::laws::aggregation::{lemma_reporter_ranking_unique, lemma_source_ranking_unique};
use crate::model::{AggregateReport, DateRange, IpAddress, Record};
use crate::summary::{
    describes, entries, failing_of, first_seen, has_name, is_reporter_ranking, is_source_ranking,
    last_seen, lemma_entries_concat, messages, occurs, org_messages, org_reports, period,
    report_entries, reporters_view, reports_from, skipped, source_correct, stats_view, tallies,
    total_messages, ReporterStatView, SourceStatView, Summary, Tally,
};

verus! {

/// `b` holds the last element of `a` somewhere, and without it both hold
/// the same elements.
proof fn lemma_perm_last<A>(a: Seq<A>, b: Seq<A>) -> (j: int)
    requires
        a.len() > 0,
        a.to_multiset() == b.to_multiset(),
    ensures
        0 <= j < b.len(),
        b[j] == a.last(),
        a.drop_last().to_multiset() == b.remove(j).to_multiset(),
{
    let x = a.last();
    to_multiset_build(a.drop_last(), x);
    assert(a.drop_last().push(x) =~= a);
    assert(a.to_multiset().count(x) > 0);
    to_multiset_contains(b, x);
    let j = choose|j: int| 0 <= j < b.len() && b[j] == x;
    to_multiset_remove(b, j);
    assert(a.drop_last().to_multiset() =~= a.drop_last().to_multiset().insert(x).remove(x));
    j
}

/// A sequence around one of its elements.
proof fn lemma_split_at<A>(s: Seq<A>, j: int)
    requires
        0 <= j < s.len(),
    ensures
        s == s.take(j) + seq![s[j]] + s.skip(j + 1),
        s.remove(j) == s.take(j) + s.skip(j + 1),
{
    assert(s =~= s.take(j) + seq![s[j]] + s.skip(j + 1));
    assert(s.remove(j) =~= s.take(j) + s.skip(j + 1));
}

/// The records of reports held in any order are the same records.
proof fn lemma_entries_perm(a: Seq<AggregateReport>, b: Seq<AggregateReport>)
    requires
        a.to_multiset() == b.to_multiset(),
    ensures
        entries(a).to_multiset() == entries(b).to_multiset(),
    decreases a.len(),
{
    if a.len() == 0 {
        to_multiset_len(a);
        to_multiset_len(b);
        assert(b =~= Seq::<AggregateReport>::empty());
        assert(a =~= b);
    } else {
        let j = lemma_perm_last(a, b);
        let x = a.last();
        lemma_entries_perm(a.drop_last(), b.remove(j));
        lemma_split_at(b, j);
        let (l, r) = (b.take(j), b.skip(j + 1));
        lemma_entries_concat(l + seq![x], r);
        lemma_entries_concat(l, seq![x]);
        lemma_entries_concat(l, r);
        assert(entries(seq![x]) =~= report_entries(x)) by {
            let one = seq![x];
            assert(one.drop_last() =~= Seq::<AggregateReport>::empty());
            assert(one.last() == x);
            assert(entries(one.drop_last()) =~= Seq::<(DateRange, Record)>::empty());
            assert(entries(one) == entries(one.drop_last()) + report_entries(one.last()));
        }
        assert(entries(a) == entries(a.drop_last()) + report_entries(x));
        let (el, ex, er) = (entries(l), report_entries(x), entries(r));
        lemma_multiset_commutative(entries(a.drop_last()), ex);
        lemma_multiset_commutative(el + ex, er);
        lemma_multiset_commutative(el, ex);
        lemma_multiset_commutative(el, er);
        assert(entries(b).to_multiset() =~= entries(a).to_multiset());
    }
}

/// Weights of the elements, added up.
spec fn total_of<A>(s: Seq<A>, w: spec_fn(A) -> nat) -> nat
    decreases s.len(),
{
    if s.len() == 0 {
        0
    } else {
        total_of(s.drop_last(), w) + w(s.last())
    }
}

proof fn lemma_total_of_concat<A>(a: Seq<A>, b: Seq<A>, w: spec_fn(A) -> nat)
    ensures
        total_of(a + b, w) == total_of(a, w) + total_of(b, w),
    decreases b.len(),
{
    if b.len() == 0 {
        assert(a + b =~= a);
    } else {
        lemma_total_of_concat(a, b.drop_last(), w);
        assert((a + b).drop_last() =~= a + b.drop_last());
    }
}

proof fn lemma_total_of_one<A>(x: A, w: spec_fn(A) -> nat)
    ensures
        total_of(seq![x], w) == w(x),
{
    let one = seq![x];
    assert(one.drop_last() =~= Seq::<A>::empty());
    assert(one.last() == x);
    assert(total_of(one.drop_last(), w) == 0);
}

proof fn lemma_total_of_perm<A>(a: Seq<A>, b: Seq<A>, w: spec_fn(A) -> nat)
    requires
        a.to_multiset() == b.to_multiset(),
    ensures
        total_of(a, w) == total_of(b, w),
    decreases a.len(),
{
    if a.len() == 0 {
        to_multiset_len(a);
        to_multiset_len(b);
        assert(b =~= a);
    } else {
        let j = lemma_perm_last(a, b);
        lemma_total_of_perm(a.drop_last(), b.remove(j), w);
        lemma_split_at(b, j);
        lemma_total_of_concat(b.take(j) + seq![b[j]], b.skip(j + 1), w);
        lemma_total_of_concat(b.take(j), seq![b[j]], w);
        lemma_total_of_concat(b.take(j), b.skip(j + 1), w);
        lemma_total_of_one(b[j], w);
    }
}

/// The smaller (`low`) or larger of two optional values.
spec fn pick(x: Option<i64>, y: Option<i64>, low: bool) -> Option<i64> {
    match (x, y) {
        (Some(p), Some(q)) => Some(
            if low {
                if p <= q {
                    p
                } else {
                    q
                }
            } else {
                if p >= q {
                    p
                } else {
                    q
                }
            },
        ),
        (Some(p), None) => Some(p),
        (None, _) => y,
    }
}

proof fn lemma_pick_swap(p: Option<i64>, x: Option<i64>, q: Option<i64>, low: bool)
    ensures
        pick(pick(p, x, low), q, low) == pick(pick(p, q, low), x, low),
{
}

/// The least (`low`) or greatest of the keys of the elements.
spec fn extreme_of<A>(s: Seq<A>, k: spec_fn(A) -> Option<i64>, low: bool) -> Option<i64>
    decreases s.len(),
{
    if s.len() == 0 {
        None
    } else {
        pick(extreme_of(s.drop_last(), k, low), k(s.last()), low)
    }
}

proof fn lemma_extreme_of_concat<A>(a: Seq<A>, b: Seq<A>, k: spec_fn(A) -> Option<i64>, low: bool)
    ensures
        extreme_of(a + b, k, low) == pick(extreme_of(a, k, low), extreme_of(b, k, low), low),
    decreases b.len(),
{
    if b.len() == 0 {
        assert(a + b =~= a);
    } else {
        lemma_extreme_of_concat(a, b.drop_last(), k, low);
        assert((a + b).drop_last() =~= a + b.drop_last());
    }
}

proof fn lemma_extreme_of_perm<A>(a: Seq<A>, b: Seq<A>, k: spec_fn(A) -> Option<i64>, low: bool)
    requires
        a.to_multiset() == b.to_multiset(),
    ensures
        extreme_of(a, k, low) == extreme_of(b, k, low),
    decreases a.len(),
{
    if a.len() == 0 {
        to_multiset_len(a);
        to_multiset_len(b);
        assert(b =~= a);
    } else {
        let j = lemma_perm_last(a, b);
        lemma_extreme_of_perm(a.drop_last(), b.remove(j), k, low);
        lemma_split_at(b, j);
        lemma_extreme_of_concat(b.take(j) + seq![b[j]], b.skip(j + 1), k, low);
        lemma_extreme_of_concat(b.take(j), seq![b[j]], k, low);
        lemma_extreme_of_concat(b.take(j), b.skip(j + 1), k, low);
        let one = seq![b[j]];
        assert(one.drop_last() =~= Seq::<A>::empty());
        assert(one.last() == b[j]);
        assert(extreme_of(one.drop_last(), k, low) == None::<i64>);
        assert(extreme_of(one, k, low) == pick(None, k(b[j]), low));
        lemma_pick_swap(extreme_of(b.take(j), k, low), k(b[j]), extreme_of(b.skip(j + 1), k, low), low);
    }
}

/// Elements of sequences with the same elements.
proof fn lemma_perm_contains<A>(a: Seq<A>, b: Seq<A>, x: A)
    requires
        a.to_multiset() == b.to_multiset(),
    ensures
        a.contains(x) <==> b.contains(x),
{
    to_multiset_contains(a, x);
    to_multiset_contains(b, x);
}

spec fn count_weight(t: Tally) -> spec_fn((DateRange, Record)) -> nat {
    |x: (DateRange, Record)|
        if tallies(t, x.1) {
            x.1.row.count as nat
        } else {
            0
        }
}

spec fn begin_key(ip: IpAddress) -> spec_fn((DateRange, Record)) -> Option<i64> {
    |x: (DateRange, Record)|
        if x.1.row.source_ip == ip {
            Some(x.0.begin)
        } else {
            None
        }
}

spec fn end_key(ip: IpAddress) -> spec_fn((DateRange, Record)) -> Option<i64> {
    |x: (DateRange, Record)|
        if x.1.row.source_ip == ip {
            Some(x.0.end)
        } else {
            None
        }
}

proof fn lemma_entry_forms(e: Seq<(DateRange, Record)>, t: Tally, ip: IpAddress)
    ensures
        messages(e, t) == total_of(e, count_weight(t)),
        first_seen(e, ip) == extreme_of(e, begin_key(ip), true),
        last_seen(e, ip) == extreme_of(e, end_key(ip), false),
    decreases e.len(),
{
    if e.len() > 0 {
        lemma_entry_forms(e.drop_last(), t, ip);
    }
}

/// Records held in any order give the same counts, the same sources and
/// the same first and last dates.
proof fn lemma_entry_figures_perm(e1: Seq<(DateRange, Record)>, e2: Seq<(DateRange, Record)>)
    requires
        e1.to_multiset() == e2.to_multiset(),
    ensures
        forall|t: Tally| #[trigger] messages(e1, t) == messages(e2, t),
        forall|t: Tally| #[trigger] occurs(e1, t) == occurs(e2, t),
        forall|ip: IpAddress| #[trigger] first_seen(e1, ip) == first_seen(e2, ip),
        forall|ip: IpAddress| #[trigger] last_seen(e1, ip) == last_seen(e2, ip),
{
    assert forall|t: Tally| #[trigger] messages(e1, t) == messages(e2, t) by {
        lemma_entry_forms(e1, t, IpAddress::V4(0));
        lemma_entry_forms(e2, t, IpAddress::V4(0));
        lemma_total_of_perm(e1, e2, count_weight(t));
    }
    assert forall|ip: IpAddress| #[trigger] first_seen(e1, ip) == first_seen(e2, ip) by {
        lemma_entry_forms(e1, Tally::All, ip);
        lemma_entry_forms(e2, Tally::All, ip);
        lemma_extreme_of_perm(e1, e2, begin_key(ip), true);
    }
    assert forall|ip: IpAddress| #[trigger] last_seen(e1, ip) == last_seen(e2, ip) by {
        lemma_entry_forms(e1, Tally::All, ip);
        lemma_entry_forms(e2, Tally::All, ip);
        lemma_extreme_of_perm(e1, e2, end_key(ip), false);
    }
    assert forall|t: Tally| #[trigger] occurs(e1, t) == occurs(e2, t) by {
        if occurs(e1, t) {
            let k = choose|k: int| 0 <= k < e1.len() && tallies(t, (#[trigger] e1[k]).1);
            assert(e1.contains(e1[k]));
            lemma_perm_contains(e1, e2, e1[k]);
            let m = choose|m: int| 0 <= m < e2.len() && e2[m] == e1[k];
            assert(tallies(t, e2[m].1));
        }
        if occurs(e2, t) {
            let k = choose|k: int| 0 <= k < e2.len() && tallies(t, (#[trigger] e2[k]).1);
            assert(e2.contains(e2[k]));
            lemma_perm_contains(e1, e2, e2[k]);
            let m = choose|m: int| 0 <= m < e1.len() && e1[m] == e2[k];
            assert(tallies(t, e1[m].1));
        }
    }
}

spec fn warnings_weight() -> spec_fn(AggregateReport) -> nat {
    |r: AggregateReport| r.warnings@.len()
}

spec fn org_weight(name: Seq<char>) -> spec_fn(AggregateReport) -> nat {
    |r: AggregateReport|
        if r.metadata.org_name@ == name {
            1nat
        } else {
            0nat
        }
}

spec fn org_messages_weight(name: Seq<char>) -> spec_fn(AggregateReport) -> nat {
    |r: AggregateReport|
        if r.metadata.org_name@ == name {
            messages(report_entries(r), Tally::All)
        } else {
            0
        }
}

spec fn begin_of() -> spec_fn(AggregateReport) -> Option<i64> {
    |r: AggregateReport| Some(r.metadata.date_range.begin)
}

spec fn end_of() -> spec_fn(AggregateReport) -> Option<i64> {
    |r: AggregateReport| Some(r.metadata.date_range.end)
}

proof fn lemma_report_forms(reps: Seq<AggregateReport>, name: Seq<char>)
    ensures
        skipped(reps) == total_of(reps, warnings_weight()),
        org_reports(reps, name) == total_of(reps, org_weight(name)),
        org_messages(reps, name) == total_of(reps, org_messages_weight(name)),
        extreme_of(reps, begin_of(), true) is Some <==> reps.len() > 0,
        extreme_of(reps, end_of(), false) is Some <==> reps.len() > 0,
        period(reps) == match (extreme_of(reps, begin_of(), true), extreme_of(reps, end_of(), false)) {
            (Some(b), Some(e)) => Some((b, e)),
            _ => None,
        },
    decreases reps.len(),
{
    if reps.len() > 0 {
        lemma_report_forms(reps.drop_last(), name);
    }
}

/// Reports held in any order have the same number of skipped records, the
/// same period, and the same reporters with the same counts.
proof fn lemma_report_figures_perm(a: Seq<AggregateReport>, b: Seq<AggregateReport>)
    requires
        a.to_multiset() == b.to_multiset(),
    ensures
        a.len() == b.len(),
        skipped(a) == skipped(b),
        period(a) == period(b),
        forall|name: Seq<char>| #[trigger] org_reports(a, name) == org_reports(b, name),
        forall|name: Seq<char>| #[trigger] org_messages(a, name) == org_messages(b, name),
        forall|name: Seq<char>| #[trigger] reports_from(a, name) == reports_from(b, name),
{
    to_multiset_len(a);
    to_multiset_len(b);
    lemma_report_forms(a, Seq::empty());
    lemma_report_forms(b, Seq::empty());
    lemma_total_of_perm(a, b, warnings_weight());
    lemma_extreme_of_perm(a, b, begin_of(), true);
    lemma_extreme_of_perm(a, b, end_of(), false);
    assert forall|name: Seq<char>| #[trigger] org_reports(a, name) == org_reports(b, name) by {
        lemma_report_forms(a, name);
        lemma_report_forms(b, name);
        lemma_total_of_perm(a, b, org_weight(name));
    }
    assert forall|name: Seq<char>| #[trigger] org_messages(a, name) == org_messages(b, name) by {
        lemma_report_forms(a, name);
        lemma_report_forms(b, name);
        lemma_total_of_perm(a, b, org_messages_weight(name));
    }
    assert forall|name: Seq<char>| #[trigger] reports_from(a, name) == reports_from(b, name) by {
        if reports_from(a, name) {
            let i = choose|i: int| 0 <= i < a.len() && (#[trigger] a[i]).metadata.org_name@ == name;
            assert(a.contains(a[i]));
            lemma_perm_contains(a, b, a[i]);
            let m = choose|m: int| 0 <= m < b.len() && b[m] == a[i];
            assert(b[m].metadata.org_name@ == name);
        }
        if reports_from(b, name) {
            let i = choose|i: int| 0 <= i < b.len() && (#[trigger] b[i]).metadata.org_name@ == name;
            assert(b.contains(b[i]));
            lemma_perm_contains(a, b, b[i]);
            let m = choose|m: int| 0 <= m < a.len() && a[m] == b[i];
            assert(a[m].metadata.org_name@ == name);
        }
    }
}

/// A ranking of the sources depends on the records only through their
/// counts, sources and dates.
proof fn lemma_source_ranking_transfer(
    v: Seq<SourceStatView>,
    e1: Seq<(DateRange, Record)>,
    e2: Seq<(DateRange, Record)>,
)
    requires
        is_source_ranking(v, e1),
        forall|t: Tally| #[trigger] messages(e1, t) == messages(e2, t),
        forall|t: Tally| #[trigger] occurs(e1, t) == occurs(e2, t),
        forall|ip: IpAddress| #[trigger] first_seen(e1, ip) == first_seen(e2, ip),
        forall|ip: IpAddress| #[trigger] last_seen(e1, ip) == last_seen(e2, ip),
    ensures
        is_source_ranking(v, e2),
{
    assert forall|k: int| 0 <= k < v.len() implies source_correct(#[trigger] v[k], e2) by {
        let x = v[k];
        assert(source_correct(x, e1));
        assert(messages(e1, Tally::FromIp(x.ip)) == messages(e2, Tally::FromIp(x.ip)));
        assert(messages(e1, Tally::IpDkim(x.ip)) == messages(e2, Tally::IpDkim(x.ip)));
        assert(messages(e1, Tally::IpSpf(x.ip)) == messages(e2, Tally::IpSpf(x.ip)));
        assert(first_seen(e1, x.ip) == first_seen(e2, x.ip));
        assert(last_seen(e1, x.ip) == last_seen(e2, x.ip));
        assert forall|i: int| 0 <= i < x.dispositions.len() implies (#[trigger] x.dispositions[i]).1
            == messages(e2, Tally::IpDisposition(x.ip, x.dispositions[i].0)) by {
            assert(messages(e1, Tally::IpDisposition(x.ip, x.dispositions[i].0)) == messages(
                e2,
                Tally::IpDisposition(x.ip, x.dispositions[i].0),
            ));
        }
        assert forall|name: Seq<char>| #[trigger] occurs(e2, Tally::IpDisposition(x.ip, name))
            <==> has_name(x.dispositions, name) by {
            assert(occurs(e1, Tally::IpDisposition(x.ip, name)) == occurs(
                e2,
                Tally::IpDisposition(x.ip, name),
            ));
        }
    }
    assert forall|ip: IpAddress| #[trigger] occurs(e2, Tally::FromIp(ip)) <==> exists|k: int|
        0 <= k < v.len() && (#[trigger] v[k]).ip == ip by {
        assert(occurs(e1, Tally::FromIp(ip)) == occurs(e2, Tally::FromIp(ip)));
    }
}

/// A ranking of the reporters depends on the reports only through the
/// organizations and their counts.
proof fn lemma_reporter_ranking_transfer(
    v: Seq<ReporterStatView>,
    a: Seq<AggregateReport>,
    b: Seq<AggregateReport>,
)
    requires
        is_reporter_ranking(v, a),
        forall|name: Seq<char>| #[trigger] org_reports(a, name) == org_reports(b, name),
        forall|name: Seq<char>| #[trigger] org_messages(a, name) == org_messages(b, name),
        forall|name: Seq<char>| #[trigger] reports_from(a, name) == reports_from(b, name),
    ensures
        is_reporter_ranking(v, b),
{
    assert forall|k: int| 0 <= k < v.len() implies (#[trigger] v[k]).reports == org_reports(
        b,
        v[k].org_name,
    ) && v[k].messages == org_messages(b, v[k].org_name) by {
        assert(org_reports(a, v[k].org_name) == org_reports(b, v[k].org_name));
        assert(org_messages(a, v[k].org_name) == org_messages(b, v[k].org_name));
    }
    assert forall|name: Seq<char>| #[trigger] reports_from(b, name) <==> exists|k: int|
        0 <= k < v.len() && (#[trigger] v[k]).org_name == name by {
        assert(reports_from(a, name) == reports_from(b, name));
    }
}

/// The order of the reports does not matter: summaries of the same reports
/// in any order (with the same count of unreadable files and the same
/// `top`) hold the same figures, dates, sources and reporters, in the same
/// order.
pub proof fn law_summary_ignores_report_order(
    s1: Summary,
    s2: Summary,
    reps1: Seq<AggregateReport>,
    reps2: Seq<AggregateReport>,
    failed_files: usize,
    top: usize,
)
    requires
        reps1.to_multiset() == reps2.to_multiset(),
        describes(s1, reps1, failed_files, top),
        describes(s2, reps2, failed_files, top),
    ensures
        s1.reports == s2.reports,
        s1.messages == s2.messages,
        s1.auth == s2.auth,
        s1.date_range is Some <==> s2.date_range is Some,
        s1.date_range matches Some(p1) ==> s2.date_range matches Some(p2) && p1.begin == p2.begin
            && p1.end == p2.end && p1.begin_date@ == p2.begin_date@ && p1.end_date@ == p2.end_date@,
        stats_view(s1.top_sources@) == stats_view(s2.top_sources@),
        stats_view(s1.failing_sources@) == stats_view(s2.failing_sources@),
        reporters_view(s1.reporters@) == reporters_view(s2.reporters@),
{
    let e1 = entries(reps1);
    let e2 = entries(reps2);
    lemma_entries_perm(reps1, reps2);
    lemma_entry_figures_perm(e1, e2);
    lemma_report_figures_perm(reps1, reps2);
    assert(total_messages(reps1) == total_messages(reps2));
    assert(messages(e1, Tally::Aligned(true, true)) == messages(e2, Tally::Aligned(true, true)));
    assert(messages(e1, Tally::Aligned(true, false)) == messages(e2, Tally::Aligned(true, false)));
    assert(messages(e1, Tally::Aligned(false, true)) == messages(e2, Tally::Aligned(false, true)));
    assert(messages(e1, Tally::Aligned(false, false)) == messages(e2, Tally::Aligned(false, false)));
    let r1 = choose|ranked: Seq<SourceStatView>|
        {
            &&& is_source_ranking(ranked, e1)
            &&& stats_view(s1.top_sources@) == ranked.take(
                if top <= ranked.len() {
                    top as int
                } else {
                    ranked.len() as int
                },
            )
            &&& stats_view(s1.failing_sources@) == failing_of(ranked)
        };
    let r2 = choose|ranked: Seq<SourceStatView>|
        {
            &&& is_source_ranking(ranked, e2)
            &&& stats_view(s2.top_sources@) == ranked.take(
                if top <= ranked.len() {
                    top as int
                } else {
                    ranked.len() as int
                },
            )
            &&& stats_view(s2.failing_sources@) == failing_of(ranked)
        };
    lemma_source_ranking_transfer(r2, e2, e1);
    lemma_source_ranking_unique(r1, r2, e1);
    lemma_reporter_ranking_transfer(reporters_view(s2.reporters@), reps2, reps1);
    lemma_reporter_ranking_unique(reporters_view(s1.reporters@), reporters_view(s2.reporters@), reps1);
}

} // verus!
