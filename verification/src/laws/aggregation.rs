//! What the summary keeps of the reports: the counts add up, the failing
//! sources are exactly those without any aligned pass, the period spans
//! the reports, and the summary is determined by the reports.

use vstd::prelude::*;
use crate::model::{AggregateReport, DateRange, DmarcResultView, IpAddress, Record};
use crate::summary::{
    describes, disposition_name, dispositions_tallied, entries, failing_of, has_name, is_reporter_ranking,
    is_source_ranking, lemma_alignment_partition, lemma_reporter_order, lemma_source_order,
    lemma_total_step, messages, occurs, org_messages, org_reports, period, report_entries,
    reporter_precedes, reporters_view, reports_from, source_correct, source_precedes,
    stats_view, tallies, total_messages, ReporterStatView, SourceStatView, Summary, Tally,
};
use crate::text::{lemma_text_less_irreflexive, lemma_text_less_transitive, text_less};

verus! {

/// The counts of the summary add up: every message is in exactly one of
/// the four alignment classes, DKIM and SPF each split the total into pass
/// and fail, and so does the DMARC verdict.
pub proof fn law_summary_totals(s: Summary, reps: Seq<AggregateReport>, failed_files: usize, top: usize)
    requires
        describes(s, reps, failed_files, top),
    ensures
        s.auth.both_pass + s.auth.dkim_only + s.auth.spf_only + s.auth.both_fail == s.messages.total,
        s.auth.dkim_pass + s.auth.dkim_fail == s.messages.total,
        s.auth.spf_pass + s.auth.spf_fail == s.messages.total,
        s.messages.dmarc_pass + s.messages.dmarc_fail == s.messages.total,
{
    lemma_alignment_partition(entries(reps));
}

proof fn lemma_failing_of(v: Seq<SourceStatView>)
    ensures
        failing_of(v).len() <= v.len(),
        forall|k: int|
            0 <= k < failing_of(v).len() ==> (#[trigger] failing_of(v)[k]).dkim_pass == 0
                && failing_of(v)[k].spf_pass == 0 && v.contains(failing_of(v)[k]),
        forall|k: int|
            0 <= k < v.len() && v[k].dkim_pass == 0 && v[k].spf_pass == 0 ==> failing_of(v).contains(
                #[trigger] v[k],
            ),
    decreases v.len(),
{
    if v.len() > 0 {
        let p = v.drop_last();
        lemma_failing_of(p);
        assert forall|k: int| 0 <= k < failing_of(p).len() implies v.contains(#[trigger] failing_of(p)[k]) by {
            let q = choose|q: int| 0 <= q < p.len() && p[q] == failing_of(p)[k];
            assert(v[q] == p[q]);
        }
        assert forall|k: int|
            0 <= k < v.len() && v[k].dkim_pass == 0 && v[k].spf_pass == 0 implies failing_of(v).contains(
            #[trigger] v[k],
        ) by {
            if k < p.len() {
                assert(p[k] == v[k]);
                let q = choose|q: int| 0 <= q < failing_of(p).len() && failing_of(p)[q] == p[k];
                assert(failing_of(v)[q] == failing_of(p)[q]);
            } else {
                assert(failing_of(v).last() == v[k]);
            }
        }
        if v.last().dkim_pass == 0 && v.last().spf_pass == 0 {
            assert(v.contains(v.last()));
        }
    }
}

/// The sources listed as failing both DKIM and SPF are exactly those, of
/// all sources, with no aligned DKIM pass and no aligned SPF pass; the
/// top-sources list holds at most `top` sources. The failing list is not
/// cut to `top`.
pub proof fn law_failing_sources(s: Summary, reps: Seq<AggregateReport>, failed_files: usize, top: usize)
    requires
        describes(s, reps, failed_files, top),
    ensures
        s.top_sources@.len() <= top,
        forall|k: int|
            0 <= k < s.failing_sources@.len() ==> (#[trigger] s.failing_sources@[k]).dkim_pass == 0
                && s.failing_sources@[k].spf_pass == 0,
        exists|ranked: Seq<SourceStatView>|
            {
                &&& is_source_ranking(ranked, entries(reps))
                &&& forall|k: int|
                    0 <= k < ranked.len() && ranked[k].dkim_pass == 0 && ranked[k].spf_pass == 0
                        ==> stats_view(s.failing_sources@).contains(#[trigger] ranked[k])
                &&& forall|k: int|
                    0 <= k < s.failing_sources@.len() ==> ranked.contains(
                        #[trigger] stats_view(s.failing_sources@)[k],
                    )
            },
{
    let ranked = choose|ranked: Seq<SourceStatView>|
        {
            &&& is_source_ranking(ranked, entries(reps))
            &&& stats_view(s.top_sources@) == ranked.take(
                if top <= ranked.len() {
                    top as int
                } else {
                    ranked.len() as int
                },
            )
            &&& stats_view(s.failing_sources@) == failing_of(ranked)
        };
    lemma_failing_of(ranked);
    assert(stats_view(s.top_sources@).len() == s.top_sources@.len());
    assert forall|k: int| 0 <= k < s.failing_sources@.len() implies (#[trigger] s.failing_sources@[k]).dkim_pass
        == 0 && s.failing_sources@[k].spf_pass == 0 by {
        assert(stats_view(s.failing_sources@)[k] == s.failing_sources@[k]@);
    }
}

/// Two sequences sorted strictly by the same strict order and holding the
/// same elements are equal.
#[verifier::spinoff_prover]
proof fn lemma_sorted_unique<A>(a: Seq<A>, b: Seq<A>, lt: spec_fn(A, A) -> bool)
    requires
        forall|x: A| !(#[trigger] lt(x, x)),
        forall|x: A, y: A, z: A| #[trigger] lt(x, y) && #[trigger] lt(y, z) ==> lt(x, z),
        forall|i: int, j: int| 0 <= i < j < a.len() ==> #[trigger] lt(a[i], a[j]),
        forall|i: int, j: int| 0 <= i < j < b.len() ==> #[trigger] lt(b[i], b[j]),
        forall|x: A| a.contains(x) <==> b.contains(x),
    ensures
        a == b,
    decreases a.len(),
{
    if a.len() == 0 {
        if b.len() > 0 {
            assert(b.contains(b[0]));
        }
        assert(a =~= b);
    } else {
        assert(a.contains(a[0]));
        let j = choose|j: int| 0 <= j < b.len() && b[j] == a[0];
        assert(b.contains(b[0]));
        let i = choose|i: int| 0 <= i < a.len() && a[i] == b[0];
        if a[0] != b[0] {
            assert(lt(b[0], b[j]));
            assert(lt(a[0], a[i]));
            assert(lt(a[0], a[0]));
        }
        let a1 = a.drop_first();
        let b1 = b.drop_first();
        assert forall|x: A| a1.contains(x) implies b1.contains(x) by {
            let k = choose|k: int| 0 <= k < a1.len() && a1[k] == x;
            assert(a[k + 1] == x);
            assert(lt(a[0], a[k + 1]));
            assert(b.contains(x));
            let m = choose|m: int| 0 <= m < b.len() && b[m] == x;
            assert(m != 0);
            assert(b1[m - 1] == x);
        }
        assert forall|x: A| b1.contains(x) implies a1.contains(x) by {
            let k = choose|k: int| 0 <= k < b1.len() && b1[k] == x;
            assert(b[k + 1] == x);
            assert(lt(b[0], b[k + 1]));
            assert(a.contains(x));
            let m = choose|m: int| 0 <= m < a.len() && a[m] == x;
            assert(m != 0);
            assert(a1[m - 1] == x);
        }
        assert forall|p: int, q: int| 0 <= p < q < a1.len() implies #[trigger] lt(a1[p], a1[q]) by {
            assert(lt(a[p + 1], a[q + 1]));
        }
        assert forall|p: int, q: int| 0 <= p < q < b1.len() implies #[trigger] lt(b1[p], b1[q]) by {
            assert(lt(b[p + 1], b[q + 1]));
        }
        lemma_sorted_unique(a1, b1, lt);
        assert(a =~= seq![a[0]] + a1);
        assert(b =~= seq![b[0]] + b1);
    }
}

spec fn name_before(p: (Seq<char>, u64), q: (Seq<char>, u64)) -> bool {
    text_less(p.0, q.0)
}

/// The per-disposition counts of a source are determined by the records.
proof fn lemma_dispositions_unique(
    d1: Seq<(Seq<char>, u64)>,
    d2: Seq<(Seq<char>, u64)>,
    e: Seq<(DateRange, Record)>,
    ip: IpAddress,
)
    requires
        dispositions_tallied(d1, e, ip),
        dispositions_tallied(d2, e, ip),
    ensures
        d1 == d2,
{
    let lt = |p: (Seq<char>, u64), q: (Seq<char>, u64)| name_before(p, q);
    assert forall|x: (Seq<char>, u64)| !(#[trigger] lt(x, x)) by {
        lemma_text_less_irreflexive(x.0);
    }
    assert forall|x: (Seq<char>, u64), y: (Seq<char>, u64), z: (Seq<char>, u64)|
        #[trigger] lt(x, y) && #[trigger] lt(y, z) implies lt(x, z) by {
        lemma_text_less_transitive(x.0, y.0, z.0);
    }
    assert forall|x: (Seq<char>, u64)| d1.contains(x) implies d2.contains(x) by {
        let k = choose|k: int| 0 <= k < d1.len() && d1[k] == x;
        assert(has_name(d1, x.0));
        assert(occurs(e, Tally::IpDisposition(ip, x.0)));
        assert(has_name(d2, x.0));
        let m = choose|m: int| 0 <= m < d2.len() && (#[trigger] d2[m]).0 == x.0;
        assert(d2[m] == x);
    }
    assert forall|x: (Seq<char>, u64)| d2.contains(x) implies d1.contains(x) by {
        let k = choose|k: int| 0 <= k < d2.len() && d2[k] == x;
        assert(has_name(d2, x.0));
        assert(occurs(e, Tally::IpDisposition(ip, x.0)));
        assert(has_name(d1, x.0));
        let m = choose|m: int| 0 <= m < d1.len() && (#[trigger] d1[m]).0 == x.0;
        assert(d1[m] == x);
    }
    assert forall|i: int, j: int| 0 <= i < j < d1.len() implies #[trigger] lt(d1[i], d1[j]) by {}
    assert forall|i: int, j: int| 0 <= i < j < d2.len() implies #[trigger] lt(d2[i], d2[j]) by {}
    lemma_sorted_unique(d1, d2, lt);
}

/// The statistics of a source are determined by its address and the records.
proof fn lemma_source_unique(x: SourceStatView, y: SourceStatView, e: Seq<(DateRange, Record)>)
    requires
        source_correct(x, e),
        source_correct(y, e),
        x.ip == y.ip,
    ensures
        x == y,
{
    lemma_dispositions_unique(x.dispositions, y.dispositions, e, x.ip);
}

/// There is one ranking of the sources of a set of records.
pub(crate) proof fn lemma_source_ranking_unique(a: Seq<SourceStatView>, b: Seq<SourceStatView>, e: Seq<(DateRange, Record)>)
    requires
        is_source_ranking(a, e),
        is_source_ranking(b, e),
    ensures
        a == b,
{
    let lt = |p: SourceStatView, q: SourceStatView| source_precedes(p, q);
    assert forall|x: SourceStatView| !(#[trigger] lt(x, x)) by {
        lemma_source_order(x, x, x);
    }
    assert forall|x: SourceStatView, y: SourceStatView, z: SourceStatView|
        #[trigger] lt(x, y) && #[trigger] lt(y, z) implies lt(x, z) by {
        lemma_source_order(x, y, z);
    }
    assert forall|x: SourceStatView| a.contains(x) implies b.contains(x) by {
        let k = choose|k: int| 0 <= k < a.len() && a[k] == x;
        assert(source_correct(a[k], e));
        assert(occurs(e, Tally::FromIp(x.ip)));
        let m = choose|m: int| 0 <= m < b.len() && (#[trigger] b[m]).ip == x.ip;
        lemma_source_unique(x, b[m], e);
    }
    assert forall|x: SourceStatView| b.contains(x) implies a.contains(x) by {
        let k = choose|k: int| 0 <= k < b.len() && b[k] == x;
        assert(source_correct(b[k], e));
        assert(occurs(e, Tally::FromIp(x.ip)));
        let m = choose|m: int| 0 <= m < a.len() && (#[trigger] a[m]).ip == x.ip;
        lemma_source_unique(x, a[m], e);
    }
    assert forall|i: int, j: int| 0 <= i < j < a.len() implies #[trigger] lt(a[i], a[j]) by {}
    assert forall|i: int, j: int| 0 <= i < j < b.len() implies #[trigger] lt(b[i], b[j]) by {}
    lemma_sorted_unique(a, b, lt);
}

/// There is one ranking of the reporters of a set of reports.
pub(crate) proof fn lemma_reporter_ranking_unique(
    a: Seq<ReporterStatView>,
    b: Seq<ReporterStatView>,
    reps: Seq<AggregateReport>,
)
    requires
        is_reporter_ranking(a, reps),
        is_reporter_ranking(b, reps),
    ensures
        a == b,
{
    let lt = |p: ReporterStatView, q: ReporterStatView| reporter_precedes(p, q);
    assert forall|x: ReporterStatView| !(#[trigger] lt(x, x)) by {
        lemma_reporter_order(x, x, x);
    }
    assert forall|x: ReporterStatView, y: ReporterStatView, z: ReporterStatView|
        #[trigger] lt(x, y) && #[trigger] lt(y, z) implies lt(x, z) by {
        lemma_reporter_order(x, y, z);
    }
    assert forall|x: ReporterStatView| a.contains(x) implies b.contains(x) by {
        let k = choose|k: int| 0 <= k < a.len() && a[k] == x;
        assert(reports_from(reps, x.org_name));
        let m = choose|m: int| 0 <= m < b.len() && (#[trigger] b[m]).org_name == x.org_name;
        assert(b[m] == x);
    }
    assert forall|x: ReporterStatView| b.contains(x) implies a.contains(x) by {
        let k = choose|k: int| 0 <= k < b.len() && b[k] == x;
        assert(reports_from(reps, x.org_name));
        let m = choose|m: int| 0 <= m < a.len() && (#[trigger] a[m]).org_name == x.org_name;
        assert(a[m] == x);
    }
    assert forall|i: int, j: int| 0 <= i < j < a.len() implies #[trigger] lt(a[i], a[j]) by {}
    assert forall|i: int, j: int| 0 <= i < j < b.len() implies #[trigger] lt(b[i], b[j]) by {}
    lemma_sorted_unique(a, b, lt);
}

/// The summary is determined by the reports: two summaries of the same
/// reports (with the same count of unreadable files and the same `top`)
/// hold the same figures, dates, sources and reporters, in the same order.
pub proof fn law_summary_determined(
    s1: Summary,
    s2: Summary,
    reps: Seq<AggregateReport>,
    failed_files: usize,
    top: usize,
)
    requires
        describes(s1, reps, failed_files, top),
        describes(s2, reps, failed_files, top),
    ensures
        s1.reports == s2.reports,
        s1.messages == s2.messages,
        s1.auth == s2.auth,
        s1.date_range is Some <==> s2.date_range is Some,
        s1.date_range matches Some(p1) ==> s2.date_range matches Some(p2) && p1.begin == p2.begin
            && p1.end == p2.end && p1.begin_date@ == p2.begin_date@ && p1.end_date@ == p2.end_date@,
        stats_view(s1.top_sources@) == stats_view(s2.top_sources@),
        stats_view(s1.failing_sources@) == stats_view(s2.failing_sources@),
        reporters_view(s1.reporters@) == reporters_view(s2.reporters@),
{
    let e = entries(reps);
    let r1 = choose|ranked: Seq<SourceStatView>|
        {
            &&& is_source_ranking(ranked, e)
            &&& stats_view(s1.top_sources@) == ranked.take(
                if top <= ranked.len() {
                    top as int
                } else {
                    ranked.len() as int
                },
            )
            &&& stats_view(s1.failing_sources@) == failing_of(ranked)
        };
    let r2 = choose|ranked: Seq<SourceStatView>|
        {
            &&& is_source_ranking(ranked, e)
            &&& stats_view(s2.top_sources@) == ranked.take(
                if top <= ranked.len() {
                    top as int
                } else {
                    ranked.len() as int
                },
            )
            &&& stats_view(s2.failing_sources@) == failing_of(ranked)
        };
    lemma_source_ranking_unique(r1, r2, e);
    lemma_reporter_ranking_unique(reporters_view(s1.reporters@), reporters_view(s2.reporters@), reps);
}

/// Messages of the listed sources, added up.
pub open spec fn sources_messages(v: Seq<SourceStatView>) -> nat
    decreases v.len(),
{
    if v.len() == 0 {
        0
    } else {
        sources_messages(v.drop_last()) + v.last().messages as nat
    }
}

/// Reports of the listed reporters, added up.
pub open spec fn reporters_reports(v: Seq<ReporterStatView>) -> nat
    decreases v.len(),
{
    if v.len() == 0 {
        0
    } else {
        reporters_reports(v.drop_last()) + v.last().reports as nat
    }
}

/// Messages of the listed reporters, added up.
pub open spec fn reporters_messages(v: Seq<ReporterStatView>) -> nat
    decreases v.len(),
{
    if v.len() == 0 {
        0
    } else {
        reporters_messages(v.drop_last()) + v.last().messages as nat
    }
}

/// Messages from each listed address, added up.
spec fn per_ip(v: Seq<SourceStatView>, e: Seq<(DateRange, Record)>) -> nat
    decreases v.len(),
{
    if v.len() == 0 {
        0
    } else {
        per_ip(v.drop_last(), e) + messages(e, Tally::FromIp(v.last().ip))
    }
}

spec fn distinct_ips(v: Seq<SourceStatView>) -> bool {
    forall|a: int, b: int| 0 <= a < b < v.len() ==> (#[trigger] v[a]).ip != (#[trigger] v[b]).ip
}

spec fn lists_ip(v: Seq<SourceStatView>, ip: IpAddress) -> bool {
    exists|k: int| 0 <= k < v.len() && (#[trigger] v[k]).ip == ip
}

#[verifier::spinoff_prover]
proof fn lemma_per_ip_push(v: Seq<SourceStatView>, e: Seq<(DateRange, Record)>, x: (DateRange, Record))
    requires
        distinct_ips(v),
    ensures
        per_ip(v, e.push(x)) == per_ip(v, e) + if lists_ip(v, x.1.row.source_ip) {
            x.1.row.count as nat
        } else {
            0
        },
    decreases v.len(),
{
    if v.len() > 0 {
        let p = v.drop_last();
        let y = v.last();
        assert(distinct_ips(p)) by {
            assert forall|a: int, b: int| 0 <= a < b < p.len() implies (#[trigger] p[a]).ip != (#[trigger] p[b]).ip by {
                assert(p[a] == v[a] && p[b] == v[b]);
            }
        }
        lemma_per_ip_push(p, e, x);
        assert(e.push(x).drop_last() =~= e);
        let ip = x.1.row.source_ip;
        if y.ip == ip {
            assert(!lists_ip(p, ip)) by {
                if lists_ip(p, ip) {
                    let k = choose|k: int| 0 <= k < p.len() && (#[trigger] p[k]).ip == ip;
                    assert(v[k].ip == v[v.len() - 1].ip);
                }
            }
            assert(lists_ip(v, ip)) by {
                assert(v[v.len() - 1].ip == ip);
            }
        } else {
            if lists_ip(p, ip) {
                let k = choose|k: int| 0 <= k < p.len() && (#[trigger] p[k]).ip == ip;
                assert(v[k].ip == ip);
            }
            if lists_ip(v, ip) {
                let k = choose|k: int| 0 <= k < v.len() && (#[trigger] v[k]).ip == ip;
                assert(p[k].ip == ip);
            }
        }
    }
}

proof fn lemma_per_ip_empty(v: Seq<SourceStatView>)
    ensures
        per_ip(v, Seq::empty()) == 0,
    decreases v.len(),
{
    if v.len() > 0 {
        lemma_per_ip_empty(v.drop_last());
    }
}

/// Distinct addresses that cover every address of the records account for
/// all their messages.
proof fn lemma_per_ip_covers(v: Seq<SourceStatView>, e: Seq<(DateRange, Record)>)
    requires
        distinct_ips(v),
        forall|ip: IpAddress| #[trigger] occurs(e, Tally::FromIp(ip)) ==> lists_ip(v, ip),
    ensures
        per_ip(v, e) == messages(e, Tally::All),
    decreases e.len(),
{
    if e.len() == 0 {
        lemma_per_ip_empty(v);
        assert(e =~= Seq::<(DateRange, Record)>::empty());
    } else {
        let p = e.drop_last();
        let x = e.last();
        assert forall|ip: IpAddress| #[trigger] occurs(p, Tally::FromIp(ip)) implies lists_ip(v, ip) by {
            let k = choose|k: int| 0 <= k < p.len() && tallies(Tally::FromIp(ip), (#[trigger] p[k]).1);
            assert(e[k] == p[k]);
            assert(occurs(e, Tally::FromIp(ip)));
        }
        lemma_per_ip_covers(v, p);
        assert(occurs(e, Tally::FromIp(x.1.row.source_ip))) by {
            assert(tallies(Tally::FromIp(x.1.row.source_ip), e[e.len() - 1].1));
        }
        assert(p.push(x) =~= e);
        lemma_per_ip_push(v, p, x);
    }
}

proof fn lemma_sources_messages_per_ip(v: Seq<SourceStatView>, e: Seq<(DateRange, Record)>)
    requires
        forall|k: int| 0 <= k < v.len() ==> (#[trigger] v[k]).messages == messages(e, Tally::FromIp(v[k].ip)),
    ensures
        sources_messages(v) == per_ip(v, e),
    decreases v.len(),
{
    if v.len() > 0 {
        let p = v.drop_last();
        assert forall|k: int| 0 <= k < p.len() implies (#[trigger] p[k]).messages == messages(e, Tally::FromIp(p[k].ip)) by {
            assert(p[k] == v[k]);
        }
        lemma_sources_messages_per_ip(p, e);
        assert(v[v.len() - 1] == v.last());
    }
}

proof fn lemma_sources_messages_prefix(v: Seq<SourceStatView>, n: int)
    requires
        0 <= n <= v.len(),
    ensures
        sources_messages(v.take(n)) <= sources_messages(v),
    decreases v.len() - n,
{
    if n < v.len() {
        lemma_sources_messages_prefix(v, n + 1);
        assert(v.take(n + 1).drop_last() =~= v.take(n));
    } else {
        assert(v.take(n) =~= v);
    }
}

/// A source ranking accounts for every message once.
proof fn lemma_ranking_covers(v: Seq<SourceStatView>, e: Seq<(DateRange, Record)>)
    requires
        is_source_ranking(v, e),
    ensures
        sources_messages(v) == messages(e, Tally::All),
{
    assert(distinct_ips(v)) by {
        assert forall|a: int, b: int| 0 <= a < b < v.len() implies (#[trigger] v[a]).ip != (#[trigger] v[b]).ip by {
            assert(source_precedes(v[a], v[b]));
            if v[a].ip == v[b].ip {
                lemma_source_unique(v[a], v[b], e);
                lemma_source_order(v[a], v[a], v[a]);
            }
        }
    }
    assert forall|ip: IpAddress| #[trigger] occurs(e, Tally::FromIp(ip)) implies lists_ip(v, ip) by {}
    lemma_per_ip_covers(v, e);
    assert forall|k: int| 0 <= k < v.len() implies (#[trigger] v[k]).messages == messages(e, Tally::FromIp(v[k].ip)) by {
        assert(source_correct(v[k], e));
    }
    lemma_sources_messages_per_ip(v, e);
}

spec fn lists_org(v: Seq<ReporterStatView>, name: Seq<char>) -> bool {
    exists|k: int| 0 <= k < v.len() && (#[trigger] v[k]).org_name == name
}

spec fn distinct_orgs(v: Seq<ReporterStatView>) -> bool {
    forall|a: int, b: int| 0 <= a < b < v.len() ==> (#[trigger] v[a]).org_name != (#[trigger] v[b]).org_name
}

/// Reports and messages of each listed organization, added up.
spec fn per_org(v: Seq<ReporterStatView>, reps: Seq<AggregateReport>) -> (nat, nat)
    decreases v.len(),
{
    if v.len() == 0 {
        (0, 0)
    } else {
        let prev = per_org(v.drop_last(), reps);
        (prev.0 + org_reports(reps, v.last().org_name), prev.1 + org_messages(reps, v.last().org_name))
    }
}

#[verifier::spinoff_prover]
proof fn lemma_per_org_push(v: Seq<ReporterStatView>, reps: Seq<AggregateReport>, r: AggregateReport)
    requires
        distinct_orgs(v),
    ensures
        per_org(v, reps.push(r)) == if lists_org(v, r.metadata.org_name@) {
            (per_org(v, reps).0 + 1, per_org(v, reps).1 + messages(report_entries(r), Tally::All))
        } else {
            per_org(v, reps)
        },
    decreases v.len(),
{
    if v.len() > 0 {
        let p = v.drop_last();
        let y = v.last();
        assert(distinct_orgs(p)) by {
            assert forall|a: int, b: int| 0 <= a < b < p.len() implies (#[trigger] p[a]).org_name != (#[trigger] p[b]).org_name by {
                assert(p[a] == v[a] && p[b] == v[b]);
            }
        }
        lemma_per_org_push(p, reps, r);
        assert(reps.push(r).drop_last() =~= reps);
        let name = r.metadata.org_name@;
        if y.org_name == name {
            assert(!lists_org(p, name)) by {
                if lists_org(p, name) {
                    let k = choose|k: int| 0 <= k < p.len() && (#[trigger] p[k]).org_name == name;
                    assert(v[k].org_name == v[v.len() - 1].org_name);
                }
            }
            assert(lists_org(v, name)) by {
                assert(v[v.len() - 1].org_name == name);
            }
        } else {
            if lists_org(p, name) {
                let k = choose|k: int| 0 <= k < p.len() && (#[trigger] p[k]).org_name == name;
                assert(v[k].org_name == name);
            }
            if lists_org(v, name) {
                let k = choose|k: int| 0 <= k < v.len() && (#[trigger] v[k]).org_name == name;
                assert(p[k].org_name == name);
            }
        }
    }
}

proof fn lemma_per_org_empty(v: Seq<ReporterStatView>)
    ensures
        per_org(v, Seq::empty()) == (0nat, 0nat),
    decreases v.len(),
{
    if v.len() > 0 {
        lemma_per_org_empty(v.drop_last());
    }
}

proof fn lemma_per_org_covers(v: Seq<ReporterStatView>, reps: Seq<AggregateReport>)
    requires
        distinct_orgs(v),
        forall|name: Seq<char>| #[trigger] reports_from(reps, name) ==> lists_org(v, name),
    ensures
        per_org(v, reps) == (reps.len(), total_messages(reps)),
    decreases reps.len(),
{
    if reps.len() == 0 {
        lemma_per_org_empty(v);
        assert(reps =~= Seq::<AggregateReport>::empty());
        assert(entries(reps) =~= Seq::<(DateRange, Record)>::empty());
    } else {
        let p = reps.drop_last();
        let r = reps.last();
        assert forall|name: Seq<char>| #[trigger] reports_from(p, name) implies lists_org(v, name) by {
            let i = choose|i: int| 0 <= i < p.len() && (#[trigger] p[i]).metadata.org_name@ == name;
            assert(reps[i] == p[i]);
            assert(reports_from(reps, name));
        }
        lemma_per_org_covers(v, p);
        assert(reports_from(reps, r.metadata.org_name@)) by {
            assert(reps[reps.len() - 1] == r);
        }
        assert(p.push(r) =~= reps);
        lemma_per_org_push(v, p, r);
        lemma_total_step(reps);
    }
}

proof fn lemma_reporter_sums(v: Seq<ReporterStatView>, reps: Seq<AggregateReport>)
    requires
        forall|k: int|
            0 <= k < v.len() ==> (#[trigger] v[k]).reports == org_reports(reps, v[k].org_name)
                && v[k].messages == org_messages(reps, v[k].org_name),
    ensures
        per_org(v, reps) == (reporters_reports(v), reporters_messages(v)),
    decreases v.len(),
{
    if v.len() > 0 {
        let p = v.drop_last();
        assert forall|k: int| 0 <= k < p.len() implies (#[trigger] p[k]).reports == org_reports(reps, p[k].org_name)
            && p[k].messages == org_messages(reps, p[k].org_name) by {
            assert(p[k] == v[k]);
        }
        lemma_reporter_sums(p, reps);
        assert(v[v.len() - 1] == v.last());
    }
}

/// Message counts of the listed dispositions, added up.
pub open spec fn disposition_total(d: Seq<(Seq<char>, u64)>) -> nat
    decreases d.len(),
{
    if d.len() == 0 {
        0
    } else {
        disposition_total(d.drop_last()) + d.last().1 as nat
    }
}

/// Messages from `ip` under each listed disposition, added up.
spec fn per_name(d: Seq<(Seq<char>, u64)>, e: Seq<(DateRange, Record)>, ip: IpAddress) -> nat
    decreases d.len(),
{
    if d.len() == 0 {
        0
    } else {
        per_name(d.drop_last(), e, ip) + messages(e, Tally::IpDisposition(ip, d.last().0))
    }
}

spec fn distinct_names(d: Seq<(Seq<char>, u64)>) -> bool {
    forall|a: int, b: int| 0 <= a < b < d.len() ==> (#[trigger] d[a]).0 != (#[trigger] d[b]).0
}

proof fn lemma_per_name_push(
    d: Seq<(Seq<char>, u64)>,
    e: Seq<(DateRange, Record)>,
    ip: IpAddress,
    x: (DateRange, Record),
)
    requires
        distinct_names(d),
    ensures
        per_name(d, e.push(x), ip) == per_name(d, e, ip) + if x.1.row.source_ip == ip && has_name(
            d,
            disposition_name(x.1),
        ) {
            x.1.row.count as nat
        } else {
            0
        },
    decreases d.len(),
{
    if d.len() > 0 {
        let p = d.drop_last();
        let y = d.last();
        assert(distinct_names(p)) by {
            assert forall|a: int, b: int| 0 <= a < b < p.len() implies (#[trigger] p[a]).0 != (#[trigger] p[b]).0 by {
                assert(p[a] == d[a] && p[b] == d[b]);
            }
        }
        lemma_per_name_push(p, e, ip, x);
        assert(e.push(x).drop_last() =~= e);
        let n = disposition_name(x.1);
        if y.0 == n {
            assert(!has_name(p, n)) by {
                if has_name(p, n) {
                    let k = choose|k: int| 0 <= k < p.len() && (#[trigger] p[k]).0 == n;
                    assert(d[k].0 == d[d.len() - 1].0);
                }
            }
            assert(has_name(d, n)) by {
                assert(d[d.len() - 1].0 == n);
            }
        } else {
            if has_name(p, n) {
                let k = choose|k: int| 0 <= k < p.len() && (#[trigger] p[k]).0 == n;
                assert(d[k].0 == n);
            }
            if has_name(d, n) {
                let k = choose|k: int| 0 <= k < d.len() && (#[trigger] d[k]).0 == n;
                assert(p[k].0 == n);
            }
        }
    }
}

proof fn lemma_per_name_empty(d: Seq<(Seq<char>, u64)>, ip: IpAddress)
    ensures
        per_name(d, Seq::empty(), ip) == 0,
    decreases d.len(),
{
    if d.len() > 0 {
        lemma_per_name_empty(d.drop_last(), ip);
    }
}

/// Distinct dispositions that cover every disposition of the messages from
/// `ip` account for all of them.
proof fn lemma_per_name_covers(d: Seq<(Seq<char>, u64)>, e: Seq<(DateRange, Record)>, ip: IpAddress)
    requires
        distinct_names(d),
        forall|name: Seq<char>| #[trigger] occurs(e, Tally::IpDisposition(ip, name)) ==> has_name(d, name),
    ensures
        per_name(d, e, ip) == messages(e, Tally::FromIp(ip)),
    decreases e.len(),
{
    if e.len() == 0 {
        lemma_per_name_empty(d, ip);
        assert(e =~= Seq::<(DateRange, Record)>::empty());
    } else {
        let p = e.drop_last();
        let x = e.last();
        assert forall|name: Seq<char>| #[trigger] occurs(p, Tally::IpDisposition(ip, name)) implies has_name(d, name) by {
            let k = choose|k: int| 0 <= k < p.len() && tallies(Tally::IpDisposition(ip, name), (#[trigger] p[k]).1);
            assert(e[k] == p[k]);
            assert(occurs(e, Tally::IpDisposition(ip, name)));
        }
        lemma_per_name_covers(d, p, ip);
        if x.1.row.source_ip == ip {
            assert(occurs(e, Tally::IpDisposition(ip, disposition_name(x.1)))) by {
                assert(tallies(Tally::IpDisposition(ip, disposition_name(x.1)), e[e.len() - 1].1));
            }
        }
        assert(p.push(x) =~= e);
        lemma_per_name_push(d, p, ip, x);
    }
}

proof fn lemma_disposition_total(d: Seq<(Seq<char>, u64)>, e: Seq<(DateRange, Record)>, ip: IpAddress)
    requires
        forall|k: int| 0 <= k < d.len() ==> (#[trigger] d[k]).1 == messages(e, Tally::IpDisposition(ip, d[k].0)),
    ensures
        disposition_total(d) == per_name(d, e, ip),
    decreases d.len(),
{
    if d.len() > 0 {
        let p = d.drop_last();
        assert forall|k: int| 0 <= k < p.len() implies (#[trigger] p[k]).1 == messages(e, Tally::IpDisposition(ip, p[k].0)) by {
            assert(p[k] == d[k]);
        }
        lemma_disposition_total(p, e, ip);
        assert(d[d.len() - 1] == d.last());
    }
}

proof fn lemma_pass_within(e: Seq<(DateRange, Record)>, ip: IpAddress)
    ensures
        messages(e, Tally::IpDkim(ip)) <= messages(e, Tally::FromIp(ip)),
        messages(e, Tally::IpSpf(ip)) <= messages(e, Tally::FromIp(ip)),
    decreases e.len(),
{
    if e.len() > 0 {
        lemma_pass_within(e.drop_last(), ip);
    }
}

/// The figures of a source agree with each other: its disposition counts
/// add up to its messages, and its DKIM and SPF passes are among them.
proof fn lemma_source_consistent(x: SourceStatView, e: Seq<(DateRange, Record)>)
    requires
        source_correct(x, e),
    ensures
        disposition_total(x.dispositions) == x.messages,
        x.dkim_pass <= x.messages,
        x.spf_pass <= x.messages,
{
    let d = x.dispositions;
    assert(distinct_names(d)) by {
        assert forall|a: int, b: int| 0 <= a < b < d.len() implies (#[trigger] d[a]).0 != (#[trigger] d[b]).0 by {
            assert(text_less(d[a].0, d[b].0));
            if d[a].0 == d[b].0 {
                lemma_text_less_irreflexive(d[a].0);
            }
        }
    }
    lemma_per_name_covers(d, e, x.ip);
    lemma_disposition_total(d, e, x.ip);
    lemma_pass_within(e, x.ip);
}

/// Every listed source, among the top and the failing ones, is consistent:
/// its disposition counts add up to its messages, and its DKIM and SPF pass
/// counts are at most its messages.
pub proof fn law_source_figures_agree(s: Summary, reps: Seq<AggregateReport>, failed_files: usize, top: usize)
    requires
        describes(s, reps, failed_files, top),
    ensures
        forall|k: int|
            0 <= k < s.top_sources@.len() ==> {
                let x = #[trigger] s.top_sources@[k];
                &&& disposition_total(x@.dispositions) == x.messages
                &&& x.dkim_pass <= x.messages
                &&& x.spf_pass <= x.messages
            },
        forall|k: int|
            0 <= k < s.failing_sources@.len() ==> {
                let x = #[trigger] s.failing_sources@[k];
                &&& disposition_total(x@.dispositions) == x.messages
                &&& x.dkim_pass <= x.messages
                &&& x.spf_pass <= x.messages
            },
{
    let e = entries(reps);
    let ranked = choose|ranked: Seq<SourceStatView>|
        {
            &&& is_source_ranking(ranked, e)
            &&& stats_view(s.top_sources@) == ranked.take(
                if top <= ranked.len() {
                    top as int
                } else {
                    ranked.len() as int
                },
            )
            &&& stats_view(s.failing_sources@) == failing_of(ranked)
        };
    lemma_failing_of(ranked);
    assert forall|k: int| 0 <= k < s.top_sources@.len() implies {
        let x = #[trigger] s.top_sources@[k];
        &&& disposition_total(x@.dispositions) == x.messages
        &&& x.dkim_pass <= x.messages
        &&& x.spf_pass <= x.messages
    } by {
        let n: int = if top <= ranked.len() { top as int } else { ranked.len() as int };
        assert(stats_view(s.top_sources@).len() == s.top_sources@.len());
        assert(stats_view(s.top_sources@)[k] == s.top_sources@[k]@);
        assert(ranked.take(n)[k] == ranked[k]);
        assert(source_correct(ranked[k], e));
        lemma_source_consistent(ranked[k], e);
    }
    assert forall|k: int| 0 <= k < s.failing_sources@.len() implies {
        let x = #[trigger] s.failing_sources@[k];
        &&& disposition_total(x@.dispositions) == x.messages
        &&& x.dkim_pass <= x.messages
        &&& x.spf_pass <= x.messages
    } by {
        let y = stats_view(s.failing_sources@)[k];
        assert(y == s.failing_sources@[k]@);
        assert(ranked.contains(y));
        let j = choose|j: int| 0 <= j < ranked.len() && ranked[j] == y;
        assert(source_correct(ranked[j], e));
        lemma_source_consistent(ranked[j], e);
    }
}

/// Messages of the records that `sel` picks, added up.
pub open spec fn counted(e: Seq<(DateRange, Record)>, sel: spec_fn(Record) -> bool) -> nat
    decreases e.len(),
{
    if e.len() == 0 {
        0
    } else {
        counted(e.drop_last(), sel) + if sel(e.last().1) {
            e.last().1.row.count as nat
        } else {
            0
        }
    }
}

/// The record's `policy_evaluated` DKIM verdict is `pass`.
pub open spec fn dkim_is_pass(r: Record) -> bool {
    r.row.policy_evaluated@.dkim == Some(DmarcResultView::Pass)
}

/// The record's `policy_evaluated` SPF verdict is `pass`.
pub open spec fn spf_is_pass(r: Record) -> bool {
    r.row.policy_evaluated@.spf == Some(DmarcResultView::Pass)
}

pub open spec fn pick_all() -> spec_fn(Record) -> bool {
    |r: Record| true
}

pub open spec fn pick_dkim() -> spec_fn(Record) -> bool {
    |r: Record| dkim_is_pass(r)
}

pub open spec fn pick_spf() -> spec_fn(Record) -> bool {
    |r: Record| spf_is_pass(r)
}

pub open spec fn pick_either() -> spec_fn(Record) -> bool {
    |r: Record| dkim_is_pass(r) || spf_is_pass(r)
}

pub open spec fn pick_both() -> spec_fn(Record) -> bool {
    |r: Record| dkim_is_pass(r) && spf_is_pass(r)
}

pub open spec fn pick_dkim_only() -> spec_fn(Record) -> bool {
    |r: Record| dkim_is_pass(r) && !spf_is_pass(r)
}

pub open spec fn pick_spf_only() -> spec_fn(Record) -> bool {
    |r: Record| !dkim_is_pass(r) && spf_is_pass(r)
}

pub open spec fn pick_neither() -> spec_fn(Record) -> bool {
    |r: Record| !dkim_is_pass(r) && !spf_is_pass(r)
}

proof fn lemma_counted(e: Seq<(DateRange, Record)>)
    ensures
        messages(e, Tally::All) == counted(e, pick_all()),
        messages(e, Tally::Aligned(true, true)) == counted(e, pick_both()),
        messages(e, Tally::Aligned(true, false)) == counted(e, pick_dkim_only()),
        messages(e, Tally::Aligned(false, true)) == counted(e, pick_spf_only()),
        messages(e, Tally::Aligned(false, false)) == counted(e, pick_neither()),
        counted(e, pick_dkim()) == counted(e, pick_both()) + counted(e, pick_dkim_only()),
        counted(e, pick_spf()) == counted(e, pick_both()) + counted(e, pick_spf_only()),
        counted(e, pick_either()) == counted(e, pick_both()) + counted(e, pick_dkim_only())
            + counted(e, pick_spf_only()),
    decreases e.len(),
{
    if e.len() > 0 {
        lemma_counted(e.drop_last());
    }
}

/// The authentication figures count messages by their own verdicts: DKIM
/// pass is every message whose `policy_evaluated` DKIM is `pass`, SPF pass
/// every message whose SPF is `pass`, the DMARC pass every message with
/// either, and the four alignment classes are the messages with both, DKIM
/// alone, SPF alone and neither; dispositions play no part.
pub proof fn law_auth_counts(s: Summary, reps: Seq<AggregateReport>, failed_files: usize, top: usize)
    requires
        describes(s, reps, failed_files, top),
    ensures
        s.messages.total == counted(entries(reps), pick_all()),
        s.auth.dkim_pass == counted(entries(reps), pick_dkim()),
        s.auth.spf_pass == counted(entries(reps), pick_spf()),
        s.messages.dmarc_pass == counted(entries(reps), pick_either()),
        s.auth.both_pass == counted(entries(reps), pick_both()),
        s.auth.dkim_only == counted(entries(reps), pick_dkim_only()),
        s.auth.spf_only == counted(entries(reps), pick_spf_only()),
        s.auth.both_fail == counted(entries(reps), pick_neither()),
        s.messages.dmarc_fail == counted(entries(reps), pick_neither()),
        s.auth.dkim_fail == s.messages.total - s.auth.dkim_pass,
        s.auth.spf_fail == s.messages.total - s.auth.spf_pass,
{
    lemma_counted(entries(reps));
    lemma_alignment_partition(entries(reps));
}

/// Nothing is lost or counted twice in the breakdowns: the reporters'
/// report counts add up to the reports analyzed and their message counts to
/// the total; the listed sources never hold more messages than the total,
/// and exactly the total when fewer than `top` are listed (all of them).
pub proof fn law_breakdowns_add_up(s: Summary, reps: Seq<AggregateReport>, failed_files: usize, top: usize)
    requires
        describes(s, reps, failed_files, top),
    ensures
        reporters_reports(reporters_view(s.reporters@)) == s.reports.analyzed,
        reporters_messages(reporters_view(s.reporters@)) == s.messages.total,
        sources_messages(stats_view(s.top_sources@)) <= s.messages.total,
        s.top_sources@.len() < top ==> sources_messages(stats_view(s.top_sources@)) == s.messages.total,
{
    let e = entries(reps);
    let ranked = choose|ranked: Seq<SourceStatView>|
        {
            &&& is_source_ranking(ranked, e)
            &&& stats_view(s.top_sources@) == ranked.take(
                if top <= ranked.len() {
                    top as int
                } else {
                    ranked.len() as int
                },
            )
            &&& stats_view(s.failing_sources@) == failing_of(ranked)
        };
    lemma_ranking_covers(ranked, e);
    let n: int = if top <= ranked.len() { top as int } else { ranked.len() as int };
    lemma_sources_messages_prefix(ranked, n);
    assert(stats_view(s.top_sources@).len() == s.top_sources@.len());
    if s.top_sources@.len() < top {
        assert(ranked.take(n) =~= ranked);
    }
    let rv = reporters_view(s.reporters@);
    assert(distinct_orgs(rv));
    assert forall|name: Seq<char>| #[trigger] reports_from(reps, name) implies lists_org(rv, name) by {}
    lemma_per_org_covers(rv, reps);
    lemma_reporter_sums(rv, reps);
}

proof fn lemma_period_bounds(reps: Seq<AggregateReport>)
    ensures
        period(reps) is None <==> reps.len() == 0,
        period(reps) matches Some((b, e)) ==> {
            &&& forall|i: int|
                0 <= i < reps.len() ==> b <= (#[trigger] reps[i]).metadata.date_range.begin
                    && reps[i].metadata.date_range.end <= e
            &&& exists|i: int| 0 <= i < reps.len() && (#[trigger] reps[i]).metadata.date_range.begin == b
            &&& exists|i: int| 0 <= i < reps.len() && (#[trigger] reps[i]).metadata.date_range.end == e
        },
    decreases reps.len(),
{
    if reps.len() > 0 {
        let p = reps.drop_last();
        lemma_period_bounds(p);
        let last = reps.len() - 1;
        assert(reps[last] == reps.last());
        assert forall|i: int| 0 <= i < p.len() implies #[trigger] reps[i] == p[i] by {}
        match period(p) {
            None => {},
            Some((b0, e0)) => {
                let i0 = choose|i: int| 0 <= i < p.len() && (#[trigger] p[i]).metadata.date_range.begin == b0;
                let j0 = choose|i: int| 0 <= i < p.len() && (#[trigger] p[i]).metadata.date_range.end == e0;
                assert(reps[i0] == p[i0]);
                assert(reps[j0] == p[j0]);
            },
        }
    }
}

/// The period of the summary spans the reports: it begins at the earliest
/// begin and ends at the latest end of their date ranges, and it is absent
/// exactly when no report was analyzed.
pub proof fn law_period_spans_reports(s: Summary, reps: Seq<AggregateReport>, failed_files: usize, top: usize)
    requires
        describes(s, reps, failed_files, top),
    ensures
        s.date_range is None <==> reps.len() == 0,
        s.date_range matches Some(p) ==> {
            &&& forall|i: int|
                0 <= i < reps.len() ==> p.begin <= (#[trigger] reps[i]).metadata.date_range.begin
                    && reps[i].metadata.date_range.end <= p.end
            &&& exists|i: int| 0 <= i < reps.len() && (#[trigger] reps[i]).metadata.date_range.begin == p.begin
            &&& exists|i: int| 0 <= i < reps.len() && (#[trigger] reps[i]).metadata.date_range.end == p.end
        },
{
    lemma_period_bounds(reps);
}

} // verus!
