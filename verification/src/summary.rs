//! Aggregation of parsed reports into the delivery-health summary shared by
//! the human and JSON renderers, and the report-level filters.

use vstd::prelude::*;
use vstd::multiset::Multiset;
use crate::clock::{midnight_epoch, utc_date_text, utc_midnight, utc_ymd};
use crate::decimal::{i64_text, signed_decimal};
use crate::model::{
    disposition_text, AggregateReport, DateRange, DmarcResultView, IpAddress, Record,
};
use crate::text::{
    eq_ignore_case, equals_ignore_case, lemma_text_less_asymmetric, lemma_text_less_irreflexive,
    lemma_text_less_total, lemma_text_less_transitive, same_text, text_before, text_less,
};

verus! {

// ---------------------------------------------------------------------------
// Filters

/// A calendar day (proleptic Gregorian).
#[derive(Debug, Clone, Copy)]
pub struct CalendarDate {
    pub year: i32,
    pub month: u32,
    pub day: u32,
}

/// Report-level filters. Timestamps are epoch seconds (UTC).
#[derive(Debug, Default)]
pub struct Filters {
    pub since: Option<i64>,
    pub until: Option<i64>,
    pub domain: Option<String>,
}

/// Epoch seconds of the start of a UTC day (0 for a day that does not exist).
pub open spec fn day_start(d: CalendarDate) -> i64 {
    match utc_midnight(d.year, d.month, d.day) {
        Some(t) => t,
        None => 0,
    }
}

fn day_start_of(d: CalendarDate) -> (r: i64)
    ensures
        r == day_start(d),
        -10_000_000_000_000 <= r <= 10_000_000_000_000,
{
    match midnight_epoch(d.year, d.month, d.day) {
        Some(t) => t,
        None => 0,
    }
}

impl Filters {
    /// `since` keeps reports ending on/after the start of that day; `until`
    /// keeps reports beginning before the start of the next day (an
    /// inclusive end date).
    pub fn from_args(
        since: Option<CalendarDate>,
        until: Option<CalendarDate>,
        domain: Option<String>,
    ) -> (r: Self)
        ensures
            r.since == (match since {
                Some(d) => Some(day_start(d)),
                None => None,
            }),
            r.until == (match until {
                Some(d) => Some((day_start(d) + 86_400) as i64),
                None => None::<i64>,
            }),
            r.domain == domain,
    {
        let since = match since {
            Some(d) => Some(day_start_of(d)),
            None => None,
        };
        let until = match until {
            Some(d) => Some(day_start_of(d) + 86_400),
            None => None,
        };
        Filters { since, until, domain }
    }

    /// A report matches when its date range overlaps the filter window and
    /// its published domain matches (ASCII case-insensitively).
    pub open spec fn admits(&self, report: AggregateReport) -> bool {
        let range = report.metadata.date_range;
        &&& (self.since matches Some(since) ==> range.end >= since)
        &&& (self.until matches Some(until) ==> range.begin < until)
        &&& (self.domain matches Some(domain) ==> eq_ignore_case(
            report.policy_published.domain@,
            domain@,
        ))
    }

    pub fn matches(&self, report: &AggregateReport) -> (r: bool)
        ensures
            r == self.admits(*report),
    {
        let range = report.metadata.date_range;
        if let Some(since) = self.since {
            if range.end < since {
                return false;
            }
        }
        if let Some(until) = self.until {
            if range.begin >= until {
                return false;
            }
        }
        if let Some(domain) = &self.domain {
            if !equals_ignore_case(report.policy_published.domain.as_str(), domain.as_str()) {
                return false;
            }
        }
        true
    }
}

/// The reports that `filters` admits, in order.
pub open spec fn admitted(reports: Seq<AggregateReport>, filters: Filters) -> Seq<AggregateReport>
    decreases reports.len(),
{
    if reports.len() == 0 {
        Seq::empty()
    } else {
        let prev = admitted(reports.drop_last(), filters);
        if filters.admits(reports.last()) {
            prev.push(reports.last())
        } else {
            prev
        }
    }
}

/// Keeps the reports that `filters` admits, in order.
pub fn select_reports(reports: Vec<AggregateReport>, filters: &Filters) -> (r: Vec<
    AggregateReport,
>)
    ensures
        r@ == admitted(reports@, *filters),
{
    let ghost all = reports@;
    let mut rest = reports;
    // Walk from the back so that each report can be moved out.
    let mut n = rest.len();
    let mut back: Vec<AggregateReport> = Vec::new();
    while n > 0
        invariant
            n == rest@.len(),
            rest@ == all.subrange(0, n as int),
            back@.len() == all.len() - n,
            forall|k: int| 0 <= k < back@.len() ==> back@[k] == all[all.len() - 1 - k],
        decreases n,
    {
        let rep = rest.pop().unwrap();
        back.push(rep);
        n = n - 1;
    }
    let mut out: Vec<AggregateReport> = Vec::new();
    let total = back.len();
    let mut i: usize = 0;
    while i < total
        invariant
            total == all.len(),
            i <= total,
            back@.len() == total - i,
            forall|k: int| 0 <= k < back@.len() ==> back@[k] == all[all.len() - 1 - k],
            out@ == admitted(all.subrange(0, i as int), *filters),
        decreases total - i,
    {
        let rep = back.pop().unwrap();
        assert(rep == all[i as int]);
        assert(all.subrange(0, i + 1).drop_last() =~= all.subrange(0, i as int));
        if filters.matches(&rep) {
            out.push(rep);
        }
        i = i + 1;
    }
    assert(all.subrange(0, total as int) =~= all);
    out
}

// ---------------------------------------------------------------------------
// Dates

/// `YYYY-MM-DD` of the UTC day of `epoch`, or `epoch:<n>` when out of range.
pub open spec fn date_label(epoch: i64) -> Seq<char> {
    match utc_ymd(epoch) {
        Some(t) => t,
        None => "epoch:"@ + signed_decimal(epoch as int),
    }
}

pub fn format_date(epoch: i64) -> (r: String)
    ensures
        r@ == date_label(epoch),
{
    match utc_date_text(epoch) {
        Some(t) => t,
        None => {
            let mut out = String::from_str("epoch:");
            out.append(i64_text(epoch).as_str());
            out
        },
    }
}

// ---------------------------------------------------------------------------
// What is counted

/// The DKIM verdict of `policy_evaluated` is an aligned pass.
pub open spec fn dkim_passed(r: Record) -> bool {
    r.row.policy_evaluated@.dkim == Some(DmarcResultView::Pass)
}

/// The SPF verdict of `policy_evaluated` is an aligned pass.
pub open spec fn spf_passed(r: Record) -> bool {
    r.row.policy_evaluated@.spf == Some(DmarcResultView::Pass)
}

/// The disposition of a record as tallied: its text, or `unknown`.
pub open spec fn disposition_name(r: Record) -> Seq<char> {
    match r.row.policy_evaluated@.disposition {
        Some(d) => disposition_text(d),
        None => "unknown"@,
    }
}

/// A selection of records whose messages are summed.
pub ghost enum Tally {
    All,
    /// By the (DKIM, SPF) aligned-pass pair.
    Aligned(bool, bool),
    FromIp(IpAddress),
    IpDkim(IpAddress),
    IpSpf(IpAddress),
    IpDisposition(IpAddress, Seq<char>),
}

pub open spec fn tallies(t: Tally, r: Record) -> bool {
    match t {
        Tally::All => true,
        Tally::Aligned(d, s) => dkim_passed(r) == d && spf_passed(r) == s,
        Tally::FromIp(ip) => r.row.source_ip == ip,
        Tally::IpDkim(ip) => r.row.source_ip == ip && dkim_passed(r),
        Tally::IpSpf(ip) => r.row.source_ip == ip && spf_passed(r),
        Tally::IpDisposition(ip, name) => r.row.source_ip == ip && disposition_name(r) == name,
    }
}

/// The records of a report, each with the report's date range.
pub open spec fn report_entries(rep: AggregateReport) -> Seq<(DateRange, Record)> {
    rep.records@.map_values(|r: Record| (rep.metadata.date_range, r))
}

/// The records of all reports, in order, each with its report's date range.
pub open spec fn entries(reps: Seq<AggregateReport>) -> Seq<(DateRange, Record)>
    decreases reps.len(),
{
    if reps.len() == 0 {
        Seq::empty()
    } else {
        entries(reps.drop_last()) + report_entries(reps.last())
    }
}

/// Messages (sum of `count`) of the selected records.
pub open spec fn messages(e: Seq<(DateRange, Record)>, t: Tally) -> nat
    decreases e.len(),
{
    if e.len() == 0 {
        0
    } else {
        messages(e.drop_last(), t) + if tallies(t, e.last().1) {
            e.last().1.row.count as nat
        } else {
            0
        }
    }
}

/// Some record is selected.
pub open spec fn occurs(e: Seq<(DateRange, Record)>, t: Tally) -> bool {
    exists|k: int| 0 <= k < e.len() && tallies(t, (#[trigger] e[k]).1)
}

/// Earliest begin of the reports in which `ip` appears.
pub open spec fn first_seen(e: Seq<(DateRange, Record)>, ip: IpAddress) -> Option<i64>
    decreases e.len(),
{
    if e.len() == 0 {
        None
    } else {
        let prev = first_seen(e.drop_last(), ip);
        if e.last().1.row.source_ip == ip {
            let b = e.last().0.begin;
            match prev {
                Some(p) => Some(if p <= b {
                    p
                } else {
                    b
                }),
                None => Some(b),
            }
        } else {
            prev
        }
    }
}

/// Latest end of the reports in which `ip` appears.
pub open spec fn last_seen(e: Seq<(DateRange, Record)>, ip: IpAddress) -> Option<i64>
    decreases e.len(),
{
    if e.len() == 0 {
        None
    } else {
        let prev = last_seen(e.drop_last(), ip);
        if e.last().1.row.source_ip == ip {
            let b = e.last().0.end;
            match prev {
                Some(p) => Some(if p >= b {
                    p
                } else {
                    b
                }),
                None => Some(b),
            }
        } else {
            prev
        }
    }
}

/// The overall window: earliest begin and latest end of all reports.
pub open spec fn period(reps: Seq<AggregateReport>) -> Option<(i64, i64)>
    decreases reps.len(),
{
    if reps.len() == 0 {
        None
    } else {
        let r = reps.last().metadata.date_range;
        match period(reps.drop_last()) {
            Some((b, e)) => Some(
                (if b <= r.begin {
                    b
                } else {
                    r.begin
                }, if e >= r.end {
                    e
                } else {
                    r.end
                }),
            ),
            None => Some((r.begin, r.end)),
        }
    }
}

/// Records skipped inside the reports.
pub open spec fn skipped(reps: Seq<AggregateReport>) -> nat
    decreases reps.len(),
{
    if reps.len() == 0 {
        0
    } else {
        skipped(reps.drop_last()) + reps.last().warnings@.len()
    }
}

/// All messages of all reports.
pub open spec fn total_messages(reps: Seq<AggregateReport>) -> nat {
    messages(entries(reps), Tally::All)
}

pub proof fn lemma_messages_concat(a: Seq<(DateRange, Record)>, b: Seq<(DateRange, Record)>, t: Tally)
    ensures
        messages(a + b, t) == messages(a, t) + messages(b, t),
    decreases b.len(),
{
    if b.len() == 0 {
        assert(a + b =~= a);
    } else {
        lemma_messages_concat(a, b.drop_last(), t);
        assert((a + b).drop_last() =~= a + b.drop_last());
    }
}

pub proof fn lemma_messages_le_all(e: Seq<(DateRange, Record)>, t: Tally)
    ensures
        messages(e, t) <= messages(e, Tally::All),
    decreases e.len(),
{
    if e.len() > 0 {
        lemma_messages_le_all(e.drop_last(), t);
    }
}

pub proof fn lemma_entries_concat(a: Seq<AggregateReport>, b: Seq<AggregateReport>)
    ensures
        entries(a + b) == entries(a) + entries(b),
    decreases b.len(),
{
    if b.len() == 0 {
        assert(a + b =~= a);
        assert(entries(a) + entries(b) =~= entries(a));
    } else {
        lemma_entries_concat(a, b.drop_last());
        assert((a + b).drop_last() =~= a + b.drop_last());
        assert(entries(a + b) =~= entries(a) + entries(b));
    }
}

/// The entries processed after `j` records of report `i`.
pub open spec fn processed(reps: Seq<AggregateReport>, i: int, j: int) -> Seq<(DateRange, Record)> {
    entries(reps.take(i)) + report_entries(reps[i]).take(j)
}

proof fn lemma_processed_step(reps: Seq<AggregateReport>, i: int, j: int)
    requires
        0 <= i < reps.len(),
        0 <= j < reps[i].records@.len(),
    ensures
        processed(reps, i, j + 1) == processed(reps, i, j).push(
            (reps[i].metadata.date_range, reps[i].records@[j]),
        ),
        processed(reps, i, j + 1).len() == processed(reps, i, j).len() + 1,
{
    assert(report_entries(reps[i]).take(j + 1) =~= report_entries(reps[i]).take(j).push(
        (reps[i].metadata.date_range, reps[i].records@[j]),
    ));
    assert(processed(reps, i, j + 1) =~= processed(reps, i, j).push(
        (reps[i].metadata.date_range, reps[i].records@[j]),
    ));
}

proof fn lemma_processed_start(reps: Seq<AggregateReport>, i: int)
    requires
        0 <= i < reps.len(),
    ensures
        processed(reps, i, 0) == entries(reps.take(i)),
{
    assert(processed(reps, i, 0) =~= entries(reps.take(i)));
}

proof fn lemma_processed_end(reps: Seq<AggregateReport>, i: int)
    requires
        0 <= i < reps.len(),
    ensures
        processed(reps, i, reps[i].records@.len() as int) == entries(reps.take(i + 1)),
{
    assert(reps.take(i + 1).drop_last() =~= reps.take(i));
    assert(report_entries(reps[i]).take(reps[i].records@.len() as int) =~= report_entries(reps[i]));
}

proof fn lemma_processed_bound(reps: Seq<AggregateReport>, i: int, j: int, t: Tally)
    requires
        0 <= i < reps.len(),
        0 <= j <= reps[i].records@.len(),
    ensures
        messages(processed(reps, i, j), t) <= total_messages(reps),
{
    let re = report_entries(reps[i]);
    lemma_entries_concat(reps.take(i + 1), reps.skip(i + 1));
    assert(reps.take(i + 1) + reps.skip(i + 1) =~= reps);
    assert(reps.take(i + 1).drop_last() =~= reps.take(i));
    assert(re.take(j) + re.skip(j) =~= re);
    let rest = re.skip(j) + entries(reps.skip(i + 1));
    assert(entries(reps) =~= processed(reps, i, j) + rest);
    lemma_messages_concat(processed(reps, i, j), rest, Tally::All);
    lemma_messages_le_all(processed(reps, i, j), t);
}

// ---------------------------------------------------------------------------
// Summary

#[derive(Debug)]
pub struct ReportCounts {
    pub analyzed: usize,
    pub failed_files: usize,
    /// Records skipped inside otherwise-valid reports.
    pub skipped_records: usize,
}

#[derive(Debug)]
pub struct Period {
    pub begin: i64,
    pub end: i64,
    pub begin_date: String,
    pub end_date: String,
}

#[derive(Debug)]
pub struct MessageStats {
    pub total: u64,
    /// DMARC-aligned pass: DKIM aligned pass OR SPF aligned pass.
    pub dmarc_pass: u64,
    pub dmarc_fail: u64,
}

#[derive(Debug)]
pub struct AuthStats {
    pub dkim_pass: u64,
    pub dkim_fail: u64,
    pub spf_pass: u64,
    pub spf_fail: u64,
    pub both_pass: u64,
    pub dkim_only: u64,
    pub spf_only: u64,
    pub both_fail: u64,
}

/// Messages of the four (DKIM, SPF) aligned-pass classes.
fn count_alignment(reports: &Vec<AggregateReport>) -> (r: (u64, u64, u64, u64))
    requires
        total_messages(reports@) <= u64::MAX,
    ensures
        r.0 == messages(entries(reports@), Tally::Aligned(true, true)),
        r.1 == messages(entries(reports@), Tally::Aligned(true, false)),
        r.2 == messages(entries(reports@), Tally::Aligned(false, true)),
        r.3 == messages(entries(reports@), Tally::Aligned(false, false)),
{
    let ghost reps = reports@;
    let mut both: u64 = 0;
    let mut dkim_only: u64 = 0;
    let mut spf_only: u64 = 0;
    let mut neither: u64 = 0;
    let mut i: usize = 0;
    assert(reps.take(0) =~= Seq::<AggregateReport>::empty());
    while i < reports.len()
        invariant
            reps == reports@,
            i <= reps.len(),
            total_messages(reps) <= u64::MAX,
            both == messages(entries(reps.take(i as int)), Tally::Aligned(true, true)),
            dkim_only == messages(entries(reps.take(i as int)), Tally::Aligned(true, false)),
            spf_only == messages(entries(reps.take(i as int)), Tally::Aligned(false, true)),
            neither == messages(entries(reps.take(i as int)), Tally::Aligned(false, false)),
        decreases reps.len() - i,
    {
        let report = &reports[i];
        let mut j: usize = 0;
        proof {
            lemma_processed_start(reps, i as int);
        }
        while j < report.records.len()
            invariant
                reps == reports@,
                i < reps.len(),
                *report == reps[i as int],
                j <= report.records@.len(),
                total_messages(reps) <= u64::MAX,
                both == messages(processed(reps, i as int, j as int), Tally::Aligned(true, true)),
                dkim_only == messages(processed(reps, i as int, j as int), Tally::Aligned(true, false)),
                spf_only == messages(processed(reps, i as int, j as int), Tally::Aligned(false, true)),
                neither == messages(processed(reps, i as int, j as int), Tally::Aligned(false, false)),
            decreases report.records@.len() - j,
        {
            let record = &report.records[j];
            let count = record.row.count;
            proof {
                lemma_processed_step(reps, i as int, j as int);
                lemma_processed_bound(reps, i as int, j as int + 1, Tally::Aligned(true, true));
                lemma_processed_bound(reps, i as int, j as int + 1, Tally::Aligned(true, false));
                lemma_processed_bound(reps, i as int, j as int + 1, Tally::Aligned(false, true));
                lemma_processed_bound(reps, i as int, j as int + 1, Tally::Aligned(false, false));
                let p1 = processed(reps, i as int, j as int + 1);
                assert(p1.drop_last() =~= processed(reps, i as int, j as int));
            }
            let dkim = match &record.row.policy_evaluated.dkim {
                Some(d) => d.is_pass(),
                None => false,
            };
            let spf = match &record.row.policy_evaluated.spf {
                Some(d) => d.is_pass(),
                None => false,
            };
            if dkim && spf {
                both = both + count;
            } else if dkim {
                dkim_only = dkim_only + count;
            } else if spf {
                spf_only = spf_only + count;
            } else {
                neither = neither + count;
            }
            j = j + 1;
        }
        proof {
            lemma_processed_end(reps, i as int);
        }
        i = i + 1;
    }
    assert(reps.take(reps.len() as int) =~= reps);
    (both, dkim_only, spf_only, neither)
}

// ---------------------------------------------------------------------------
// Per-source statistics

#[derive(Debug)]
pub struct SourceStat {
    pub ip: IpAddress,
    pub messages: u64,
    pub dkim_pass: u64,
    pub spf_pass: u64,
    /// Message counts per disposition, ordered by name, e.g.
    /// `[("none", 120), ("reject", 3)]`.
    pub dispositions: Vec<(String, u64)>,
    pub first_seen: String,
    pub last_seen: String,
    pub first_seen_ts: i64,
    pub last_seen_ts: i64,
}

pub ghost struct SourceStatView {
    pub ip: IpAddress,
    pub messages: u64,
    pub dkim_pass: u64,
    pub spf_pass: u64,
    pub dispositions: Seq<(Seq<char>, u64)>,
    pub first_seen: Seq<char>,
    pub last_seen: Seq<char>,
    pub first_seen_ts: i64,
    pub last_seen_ts: i64,
}

pub open spec fn counts_view(d: Seq<(String, u64)>) -> Seq<(Seq<char>, u64)> {
    d.map_values(|p: (String, u64)| (p.0@, p.1))
}

impl View for SourceStat {
    type V = SourceStatView;

    open spec fn view(&self) -> SourceStatView {
        SourceStatView {
            ip: self.ip,
            messages: self.messages,
            dkim_pass: self.dkim_pass,
            spf_pass: self.spf_pass,
            dispositions: counts_view(self.dispositions@),
            first_seen: self.first_seen@,
            last_seen: self.last_seen@,
            first_seen_ts: self.first_seen_ts,
            last_seen_ts: self.last_seen_ts,
        }
    }
}

pub open spec fn stats_view(v: Seq<SourceStat>) -> Seq<SourceStatView> {
    v.map_values(|s: SourceStat| s@)
}

pub open spec fn names_sorted(d: Seq<(Seq<char>, u64)>) -> bool {
    forall|a: int, b: int| 0 <= a < b < d.len() ==> text_less(d[a].0, d[b].0)
}

pub open spec fn has_name(d: Seq<(Seq<char>, u64)>, name: Seq<char>) -> bool {
    exists|k: int| 0 <= k < d.len() && (#[trigger] d[k]).0 == name
}

/// Per-disposition message counts of the messages from `ip`, one entry per
/// disposition seen, ordered by name.
pub open spec fn dispositions_tallied(
    d: Seq<(Seq<char>, u64)>,
    e: Seq<(DateRange, Record)>,
    ip: IpAddress,
) -> bool {
    &&& names_sorted(d)
    &&& forall|k: int|
        0 <= k < d.len() ==> (#[trigger] d[k]).1 == messages(e, Tally::IpDisposition(ip, d[k].0))
    &&& forall|name: Seq<char>|
        #[trigger] occurs(e, Tally::IpDisposition(ip, name)) <==> has_name(d, name)
}

/// The statistics of one source address, apart from the date texts.
pub open spec fn source_tallied(s: SourceStatView, e: Seq<(DateRange, Record)>) -> bool {
    &&& s.messages == messages(e, Tally::FromIp(s.ip))
    &&& s.dkim_pass == messages(e, Tally::IpDkim(s.ip))
    &&& s.spf_pass == messages(e, Tally::IpSpf(s.ip))
    &&& first_seen(e, s.ip) == Some(s.first_seen_ts)
    &&& last_seen(e, s.ip) == Some(s.last_seen_ts)
    &&& dispositions_tallied(s.dispositions, e, s.ip)
}

/// One entry per source address that occurs, each with its statistics.
pub open spec fn sources_tallied(v: Seq<SourceStatView>, e: Seq<(DateRange, Record)>) -> bool {
    &&& forall|k: int| 0 <= k < v.len() ==> source_tallied(#[trigger] v[k], e)
    &&& forall|a: int, b: int| 0 <= a < b < v.len() ==> (#[trigger] v[a]).ip != (#[trigger] v[b]).ip
    &&& forall|ip: IpAddress|
        #[trigger] occurs(e, Tally::FromIp(ip)) <==> exists|k: int|
            0 <= k < v.len() && (#[trigger] v[k]).ip == ip
}

proof fn lemma_messages_push(e: Seq<(DateRange, Record)>, x: (DateRange, Record), t: Tally)
    ensures
        messages(e.push(x), t) == messages(e, t) + if tallies(t, x.1) {
            x.1.row.count as nat
        } else {
            0
        },
        occurs(e.push(x), t) == (occurs(e, t) || tallies(t, x.1)),
        first_seen(e.push(x), x.1.row.source_ip) == (match first_seen(e, x.1.row.source_ip) {
            Some(p) => Some(if p <= x.0.begin {
                p
            } else {
                x.0.begin
            }),
            None => Some(x.0.begin),
        }),
        last_seen(e.push(x), x.1.row.source_ip) == (match last_seen(e, x.1.row.source_ip) {
            Some(p) => Some(if p >= x.0.end {
                p
            } else {
                x.0.end
            }),
            None => Some(x.0.end),
        }),
        forall|ip: IpAddress|
            ip != x.1.row.source_ip ==> first_seen(e.push(x), ip) == #[trigger] first_seen(e, ip)
                && last_seen(e.push(x), ip) == last_seen(e, ip),
{
    assert(e.push(x).drop_last() =~= e);
    if occurs(e.push(x), t) {
        let k = choose|k: int| 0 <= k < e.push(x).len() && tallies(t, (#[trigger] e.push(x)[k]).1);
        if k < e.len() {
            assert(tallies(t, e[k].1));
        }
    }
    if occurs(e, t) {
        let k = choose|k: int| 0 <= k < e.len() && tallies(t, (#[trigger] e[k]).1);
        assert(e.push(x)[k] == e[k]);
    }
    if tallies(t, x.1) {
        assert(e.push(x)[e.len() as int] == x);
    }
}

proof fn lemma_messages_absent(e: Seq<(DateRange, Record)>, t: Tally)
    requires
        !occurs(e, t),
    ensures
        messages(e, t) == 0,
    decreases e.len(),
{
    if e.len() > 0 {
        assert(e.drop_last().len() < e.len());
        assert(!occurs(e.drop_last(), t)) by {
            if occurs(e.drop_last(), t) {
                let k = choose|k: int|
                    0 <= k < e.drop_last().len() && tallies(t, (#[trigger] e.drop_last()[k]).1);
                assert(e[k] == e.drop_last()[k]);
            }
        }
        assert(!tallies(t, e[e.len() - 1].1));
        lemma_messages_absent(e.drop_last(), t);
    }
}

/// Adds `count` messages to disposition `name`, keeping names ordered.
fn add_disposition(d: &mut Vec<(String, u64)>, name: &str, count: u64)
    requires
        names_sorted(counts_view(old(d)@)),
        forall|k: int|
            0 <= k < old(d)@.len() && old(d)@[k].0@ == name@ ==> old(d)@[k].1 + count <= u64::MAX,
    ensures
        names_sorted(counts_view(final(d)@)),
        forall|nm: Seq<char>|
            #[trigger] has_name(counts_view(final(d)@), nm) <==> (has_name(
                counts_view(old(d)@),
                nm,
            ) || nm == name@),
        forall|k: int|
            0 <= k < final(d)@.len() ==> {
                let p = #[trigger] counts_view(final(d)@)[k];
                if p.0 == name@ {
                    (!has_name(counts_view(old(d)@), name@) && p.1 == count) || exists|q: int|
                        0 <= q < old(d)@.len() && (#[trigger] counts_view(old(d)@)[q]).0 == name@
                            && p.1 == counts_view(old(d)@)[q].1 + count
                } else {
                    exists|q: int|
                        0 <= q < old(d)@.len() && #[trigger] counts_view(old(d)@)[q] == p
                }
            },
{
    let ghost before = counts_view(d@);
    let n = d.len();
    let mut p: usize = 0;
    while p < n && text_before(d[p].0.as_str(), name)
        invariant
            n == d@.len(),
            before == counts_view(d@),
            p <= n,
            forall|k: int| 0 <= k < p ==> text_less(before[k].0, name@),
        decreases n - p,
    {
        p = p + 1;
    }
    if p < n && same_text(d[p].0.as_str(), name) {
        let (nm, c) = d.remove(p);
        assert(before[p as int].0 == name@);
        d.insert(p, (nm, c + count));
        let ghost after = counts_view(d@);
        assert(after =~= before.update(p as int, (name@, (c + count) as u64)));
        assert forall|nm2: Seq<char>| #[trigger] has_name(after, nm2) <==> (has_name(before, nm2) || nm2 == name@) by {
            if has_name(before, nm2) {
                let k = choose|k: int| 0 <= k < before.len() && (#[trigger] before[k]).0 == nm2;
                assert(after[k].0 == nm2);
            }
            if nm2 == name@ {
                assert(after[p as int].0 == nm2);
            }
            if has_name(after, nm2) {
                let k = choose|k: int| 0 <= k < after.len() && (#[trigger] after[k]).0 == nm2;
                assert(before[k].0 == nm2);
            }
        }
        assert forall|k: int| 0 <= k < after.len() implies {
            let pp = #[trigger] after[k];
            if pp.0 == name@ {
                (!has_name(before, name@) && pp.1 == count) || exists|q: int|
                    0 <= q < before.len() && (#[trigger] before[q]).0 == name@ && pp.1 == before[q].1
                        + count
            } else {
                exists|q: int| 0 <= q < before.len() && #[trigger] before[q] == pp
            }
        } by {
            if k == p {
                assert(before[p as int].0 == name@);
            } else {
                assert(before[k] == after[k]);
                if after[k].0 == name@ {
                    assert(before[k].0 == before[p as int].0);
                    if k < p {
                        lemma_text_less_irreflexive(before[k].0);
                    } else {
                        lemma_text_less_irreflexive(before[k].0);
                    }
                }
            }
        }
    } else {
        let ghost absent = !has_name(before, name@);
        proof {
            assert forall|k: int| 0 <= k < before.len() implies (#[trigger] before[k]).0 != name@ by {
                if k < p {
                    lemma_text_less_irreflexive(name@);
                } else {
                    if before[p as int].0 != name@ {
                        lemma_text_less_total(before[p as int].0, name@);
                    }
                    if k > p {
                        lemma_text_less_transitive(name@, before[p as int].0, before[k].0);
                        lemma_text_less_irreflexive(name@);
                    }
                    lemma_text_less_irreflexive(name@);
                }
            }
        }
        d.insert(p, (String::from_str(name), count));
        let ghost after = counts_view(d@);
        assert(after =~= before.insert(p as int, (name@, count)));
        assert(!has_name(before, name@));
        assert forall|a: int, b: int| 0 <= a < b < after.len() implies text_less(after[a].0, after[b].0) by {
            if a < p && b == p {
            } else if a == p && b > p {
                assert(after[b] == before[b - 1]);
                if before[p as int].0 != name@ {
                    lemma_text_less_total(before[p as int].0, name@);
                }
                if b - 1 > p {
                    lemma_text_less_transitive(name@, before[p as int].0, before[b - 1].0);
                }
            } else if a < p && b > p {
                assert(after[b] == before[b - 1]);
            } else if a > p {
                assert(after[a] == before[a - 1]);
                assert(after[b] == before[b - 1]);
            }
        }
        assert forall|nm2: Seq<char>| #[trigger] has_name(after, nm2) <==> (has_name(before, nm2) || nm2 == name@) by {
            if has_name(before, nm2) {
                let k = choose|k: int| 0 <= k < before.len() && (#[trigger] before[k]).0 == nm2;
                if k < p {
                    assert(after[k].0 == nm2);
                } else {
                    assert(after[k + 1].0 == nm2);
                }
            }
            if nm2 == name@ {
                assert(after[p as int].0 == nm2);
            }
            if has_name(after, nm2) {
                let k = choose|k: int| 0 <= k < after.len() && (#[trigger] after[k]).0 == nm2;
                if k < p {
                    assert(before[k].0 == nm2);
                } else if k > p {
                    assert(before[k - 1].0 == nm2);
                }
            }
        }
        assert forall|k: int| 0 <= k < after.len() implies {
            let pp = #[trigger] after[k];
            if pp.0 == name@ {
                (!has_name(before, name@) && pp.1 == count) || exists|q: int|
                    0 <= q < before.len() && (#[trigger] before[q]).0 == name@ && pp.1 == before[q].1
                        + count
            } else {
                exists|q: int| 0 <= q < before.len() && #[trigger] before[q] == pp
            }
        } by {
            if k < p {
                assert(before[k] == after[k]);
            } else if k > p {
                assert(before[k - 1] == after[k]);
            }
        }
    }
}

proof fn lemma_first_seen_absent(e: Seq<(DateRange, Record)>, ip: IpAddress)
    requires
        !occurs(e, Tally::FromIp(ip)),
    ensures
        first_seen(e, ip) is None,
        last_seen(e, ip) is None,
    decreases e.len(),
{
    if e.len() > 0 {
        assert(!occurs(e.drop_last(), Tally::FromIp(ip))) by {
            if occurs(e.drop_last(), Tally::FromIp(ip)) {
                let k = choose|k: int|
                    0 <= k < e.drop_last().len() && tallies(
                        Tally::FromIp(ip),
                        (#[trigger] e.drop_last()[k]).1,
                    );
                assert(e[k] == e.drop_last()[k]);
            }
        }
        assert(!tallies(Tally::FromIp(ip), e[e.len() - 1].1));
        lemma_first_seen_absent(e.drop_last(), ip);
    }
}

/// A record from another address leaves a source's statistics as they are.
proof fn lemma_other_source(e: Seq<(DateRange, Record)>, x: (DateRange, Record), s: SourceStatView)
    requires
        source_tallied(s, e),
        s.ip != x.1.row.source_ip,
    ensures
        source_tallied(s, e.push(x)),
{
    lemma_messages_push(e, x, Tally::FromIp(s.ip));
    lemma_messages_push(e, x, Tally::IpDkim(s.ip));
    lemma_messages_push(e, x, Tally::IpSpf(s.ip));
    let d = s.dispositions;
    assert forall|k: int| 0 <= k < d.len() implies (#[trigger] d[k]).1 == messages(
        e.push(x),
        Tally::IpDisposition(s.ip, d[k].0),
    ) by {
        lemma_messages_push(e, x, Tally::IpDisposition(s.ip, d[k].0));
    }
    assert forall|name: Seq<char>| #[trigger]
        occurs(e.push(x), Tally::IpDisposition(s.ip, name)) <==> has_name(d, name) by {
        lemma_messages_push(e, x, Tally::IpDisposition(s.ip, name));
    }
}

/// A record from the source's address adds to its statistics.
proof fn lemma_same_source(
    e: Seq<(DateRange, Record)>,
    x: (DateRange, Record),
    s: SourceStatView,
    t: SourceStatView,
)
    requires
        source_tallied(s, e),
        s.ip == x.1.row.source_ip,
        t.ip == s.ip,
        t.messages == s.messages + x.1.row.count,
        t.dkim_pass == s.dkim_pass + if dkim_passed(x.1) {
            x.1.row.count as int
        } else {
            0
        },
        t.spf_pass == s.spf_pass + if spf_passed(x.1) {
            x.1.row.count as int
        } else {
            0
        },
        t.first_seen_ts == (if s.first_seen_ts <= x.0.begin {
            s.first_seen_ts
        } else {
            x.0.begin
        }),
        t.last_seen_ts == (if s.last_seen_ts >= x.0.end {
            s.last_seen_ts
        } else {
            x.0.end
        }),
        names_sorted(t.dispositions),
        forall|nm: Seq<char>|
            #[trigger] has_name(t.dispositions, nm) <==> (has_name(s.dispositions, nm) || nm
                == disposition_name(x.1)),
        forall|k: int|
            0 <= k < t.dispositions.len() ==> {
                let p = #[trigger] t.dispositions[k];
                if p.0 == disposition_name(x.1) {
                    (!has_name(s.dispositions, p.0) && p.1 == x.1.row.count) || exists|q: int|
                        0 <= q < s.dispositions.len() && (#[trigger] s.dispositions[q]).0 == p.0
                            && p.1 == s.dispositions[q].1 + x.1.row.count
                } else {
                    exists|q: int| 0 <= q < s.dispositions.len() && #[trigger] s.dispositions[q] == p
                }
            },
    ensures
        source_tallied(t, e.push(x)),
{
    lemma_messages_push(e, x, Tally::FromIp(s.ip));
    lemma_messages_push(e, x, Tally::IpDkim(s.ip));
    lemma_messages_push(e, x, Tally::IpSpf(s.ip));
    let d = t.dispositions;
    let name = disposition_name(x.1);
    assert forall|k: int| 0 <= k < d.len() implies (#[trigger] d[k]).1 == messages(
        e.push(x),
        Tally::IpDisposition(t.ip, d[k].0),
    ) by {
        lemma_messages_push(e, x, Tally::IpDisposition(t.ip, d[k].0));
        if d[k].0 == name {
            if !has_name(s.dispositions, name) {
                lemma_messages_absent(e, Tally::IpDisposition(t.ip, name));
            }
        } else {
            let q = choose|q: int| 0 <= q < s.dispositions.len() && #[trigger] s.dispositions[q] == d[k];
            assert(s.dispositions[q] == d[k]);
        }
    }
    assert forall|nm: Seq<char>| #[trigger]
        occurs(e.push(x), Tally::IpDisposition(t.ip, nm)) <==> has_name(d, nm) by {
        lemma_messages_push(e, x, Tally::IpDisposition(t.ip, nm));
    }
}

/// The first record from an address starts its statistics.
proof fn lemma_new_source(e: Seq<(DateRange, Record)>, x: (DateRange, Record), t: SourceStatView)
    requires
        !occurs(e, Tally::FromIp(x.1.row.source_ip)),
        t.ip == x.1.row.source_ip,
        t.messages == x.1.row.count,
        t.dkim_pass == if dkim_passed(x.1) {
            x.1.row.count
        } else {
            0
        },
        t.spf_pass == if spf_passed(x.1) {
            x.1.row.count
        } else {
            0
        },
        t.first_seen_ts == x.0.begin,
        t.last_seen_ts == x.0.end,
        t.dispositions == seq![(disposition_name(x.1), x.1.row.count)],
    ensures
        source_tallied(t, e.push(x)),
{
    let ip = t.ip;
    lemma_messages_absent(e, Tally::FromIp(ip));
    lemma_first_seen_absent(e, ip);
    assert(!occurs(e, Tally::IpDkim(ip))) by {
        if occurs(e, Tally::IpDkim(ip)) {
            let k = choose|k: int| 0 <= k < e.len() && tallies(Tally::IpDkim(ip), (#[trigger] e[k]).1);
            assert(tallies(Tally::FromIp(ip), e[k].1));
        }
    }
    assert(!occurs(e, Tally::IpSpf(ip))) by {
        if occurs(e, Tally::IpSpf(ip)) {
            let k = choose|k: int| 0 <= k < e.len() && tallies(Tally::IpSpf(ip), (#[trigger] e[k]).1);
            assert(tallies(Tally::FromIp(ip), e[k].1));
        }
    }
    lemma_messages_absent(e, Tally::IpDkim(ip));
    lemma_messages_absent(e, Tally::IpSpf(ip));
    lemma_messages_push(e, x, Tally::FromIp(ip));
    lemma_messages_push(e, x, Tally::IpDkim(ip));
    lemma_messages_push(e, x, Tally::IpSpf(ip));
    let name = disposition_name(x.1);
    let d = t.dispositions;
    assert forall|nm: Seq<char>| !occurs(e, Tally::IpDisposition(ip, nm)) by {
        if occurs(e, Tally::IpDisposition(ip, nm)) {
            let k = choose|k: int|
                0 <= k < e.len() && tallies(Tally::IpDisposition(ip, nm), (#[trigger] e[k]).1);
            assert(tallies(Tally::FromIp(ip), e[k].1));
        }
    }
    lemma_messages_absent(e, Tally::IpDisposition(ip, name));
    lemma_messages_push(e, x, Tally::IpDisposition(ip, name));
    assert forall|nm: Seq<char>| #[trigger]
        occurs(e.push(x), Tally::IpDisposition(ip, nm)) <==> has_name(d, nm) by {
        lemma_messages_push(e, x, Tally::IpDisposition(ip, nm));
        if nm == name {
            assert(d[0].0 == nm);
        }
    }
}

/// Statistics of every source address that occurs in the reports.
fn collect_sources(reports: &Vec<AggregateReport>) -> (r: Vec<SourceStat>)
    requires
        total_messages(reports@) <= u64::MAX,
    ensures
        sources_tallied(stats_view(r@), entries(reports@)),
{
    let ghost reps = reports@;
    let mut sources: Vec<SourceStat> = Vec::new();
    let mut i: usize = 0;
    assert(reps.take(0) =~= Seq::<AggregateReport>::empty());
    assert(sources_tallied(stats_view(sources@), entries(reps.take(0))));
    while i < reports.len()
        invariant
            reps == reports@,
            i <= reps.len(),
            total_messages(reps) <= u64::MAX,
            sources_tallied(stats_view(sources@), entries(reps.take(i as int))),
        decreases reps.len() - i,
    {
        let report = &reports[i];
        let range = report.metadata.date_range;
        let mut j: usize = 0;
        proof {
            lemma_processed_start(reps, i as int);
        }
        while j < report.records.len()
            invariant
                reps == reports@,
                i < reps.len(),
                *report == reps[i as int],
                range == reps[i as int].metadata.date_range,
                j <= report.records@.len(),
                total_messages(reps) <= u64::MAX,
                sources_tallied(stats_view(sources@), processed(reps, i as int, j as int)),
            decreases report.records@.len() - j,
        {
            let record = &report.records[j];
            let ghost e = processed(reps, i as int, j as int);
            let ghost x = (range, *record);
            let ghost before = stats_view(sources@);
            proof {
                lemma_processed_step(reps, i as int, j as int);
                lemma_processed_bound(reps, i as int, j as int + 1, Tally::FromIp(record.row.source_ip));
                lemma_processed_bound(reps, i as int, j as int + 1, Tally::IpDkim(record.row.source_ip));
                lemma_processed_bound(reps, i as int, j as int + 1, Tally::IpSpf(record.row.source_ip));
                lemma_processed_bound(
                    reps,
                    i as int,
                    j as int + 1,
                    Tally::IpDisposition(record.row.source_ip, disposition_name(*record)),
                );
                lemma_messages_push(e, x, Tally::FromIp(record.row.source_ip));
                lemma_messages_push(e, x, Tally::IpDkim(record.row.source_ip));
                lemma_messages_push(e, x, Tally::IpSpf(record.row.source_ip));
                lemma_messages_push(
                    e,
                    x,
                    Tally::IpDisposition(record.row.source_ip, disposition_name(*record)),
                );
            }
            let ip = record.row.source_ip;
            let count = record.row.count;
            let dkim = match &record.row.policy_evaluated.dkim {
                Some(d) => d.is_pass(),
                None => false,
            };
            let spf = match &record.row.policy_evaluated.spf {
                Some(d) => d.is_pass(),
                None => false,
            };
            let name: &str = match &record.row.policy_evaluated.disposition {
                Some(d) => d.as_str(),
                None => "unknown",
            };
            assert(name@ == disposition_name(*record));
            let mut k: usize = 0;
            while k < sources.len() && sources[k].ip != ip
                invariant
                    k <= sources@.len(),
                    forall|q: int| 0 <= q < k ==> sources@[q].ip != ip,
                decreases sources@.len() - k,
            {
                k = k + 1;
            }
            if k < sources.len() {
                let mut st = sources.remove(k);
                let ghost sv = st@;
                assert(before[k as int] == sv);
                assert(source_tallied(sv, e));
                st.messages = st.messages + count;
                if dkim {
                    st.dkim_pass = st.dkim_pass + count;
                }
                if spf {
                    st.spf_pass = st.spf_pass + count;
                }
                if range.begin < st.first_seen_ts {
                    st.first_seen_ts = range.begin;
                }
                if range.end > st.last_seen_ts {
                    st.last_seen_ts = range.end;
                }
                proof {
                    assert forall|q: int|
                        0 <= q < st.dispositions@.len() && st.dispositions@[q].0@ == name@ implies
                        st.dispositions@[q].1 + count <= u64::MAX by {
                        assert(counts_view(st.dispositions@)[q].0 == name@);
                        assert(sv.dispositions[q].1 == messages(e, Tally::IpDisposition(ip, name@)));
                    }
                }
                add_disposition(&mut st.dispositions, name, count);
                proof {
                    lemma_same_source(e, x, sv, st@);
                }
                sources.insert(k, st);
                proof {
                    let after = stats_view(sources@);
                    assert(after =~= before.update(k as int, st@));
                    assert forall|q: int| 0 <= q < after.len() implies source_tallied(
                        #[trigger] after[q],
                        e.push(x),
                    ) by {
                        if q != k {
                            assert(after[q] == before[q]);
                            assert(source_tallied(before[q], e));
                            lemma_other_source(e, x, before[q]);
                        }
                    }
                    assert forall|ip2: IpAddress| #[trigger] occurs(e.push(x), Tally::FromIp(ip2)) <==> exists|q: int|
                        0 <= q < after.len() && (#[trigger] after[q]).ip == ip2 by {
                        lemma_messages_push(e, x, Tally::FromIp(ip2));
                        if occurs(e, Tally::FromIp(ip2)) {
                            let q = choose|q: int| 0 <= q < before.len() && (#[trigger] before[q]).ip == ip2;
                            assert(after[q].ip == ip2);
                        }
                        if ip2 == ip {
                            assert(after[k as int].ip == ip2);
                        }
                        if exists|q: int| 0 <= q < after.len() && (#[trigger] after[q]).ip == ip2 {
                            let q = choose|q: int| 0 <= q < after.len() && (#[trigger] after[q]).ip == ip2;
                            assert(before[q].ip == ip2);
                        }
                    }
                }
            } else {
                let mut dispositions: Vec<(String, u64)> = Vec::new();
                dispositions.push((String::from_str(name), count));
                let st = SourceStat {
                    ip,
                    messages: count,
                    dkim_pass: if dkim {
                        count
                    } else {
                        0
                    },
                    spf_pass: if spf {
                        count
                    } else {
                        0
                    },
                    dispositions,
                    first_seen: String::new(),
                    last_seen: String::new(),
                    first_seen_ts: range.begin,
                    last_seen_ts: range.end,
                };
                proof {
                    assert(!occurs(e, Tally::FromIp(ip))) by {
                        if occurs(e, Tally::FromIp(ip)) {
                            let q = choose|q: int| 0 <= q < before.len() && (#[trigger] before[q]).ip == ip;
                            assert(sources@[q].ip == ip);
                        }
                    }
                    assert(st@.dispositions =~= seq![(disposition_name(*record), count)]);
                    lemma_new_source(e, x, st@);
                }
                sources.push(st);
                proof {
                    let after = stats_view(sources@);
                    assert(after =~= before.push(st@));
                    assert forall|q: int| 0 <= q < after.len() implies source_tallied(
                        #[trigger] after[q],
                        e.push(x),
                    ) by {
                        if q < before.len() {
                            assert(after[q] == before[q]);
                            assert(source_tallied(before[q], e));
                            assert(before[q].ip == sources@[q].ip);
                            lemma_other_source(e, x, before[q]);
                        }
                    }
                    assert forall|a: int, b: int| 0 <= a < b < after.len() implies (#[trigger] after[a]).ip
                        != (#[trigger] after[b]).ip by {
                        if b == before.len() {
                            assert(sources@[a].ip != ip);
                        }
                    }
                    assert forall|ip2: IpAddress| #[trigger] occurs(e.push(x), Tally::FromIp(ip2)) <==> exists|q: int|
                        0 <= q < after.len() && (#[trigger] after[q]).ip == ip2 by {
                        lemma_messages_push(e, x, Tally::FromIp(ip2));
                        if occurs(e, Tally::FromIp(ip2)) {
                            let q = choose|q: int| 0 <= q < before.len() && (#[trigger] before[q]).ip == ip2;
                            assert(after[q].ip == ip2);
                        }
                        if ip2 == ip {
                            assert(after[before.len() as int].ip == ip2);
                        }
                        if exists|q: int| 0 <= q < after.len() && (#[trigger] after[q]).ip == ip2 {
                            let q = choose|q: int| 0 <= q < after.len() && (#[trigger] after[q]).ip == ip2;
                            if q < before.len() {
                                assert(before[q].ip == ip2);
                            }
                        }
                    }
                }
            }
            j = j + 1;
        }
        proof {
            lemma_processed_end(reps, i as int);
        }
        i = i + 1;
    }
    assert(reps.take(reps.len() as int) =~= reps);
    sources
}

// ---------------------------------------------------------------------------
// Per-reporter statistics

#[derive(Debug)]
pub struct ReporterStat {
    pub org_name: String,
    pub reports: usize,
    pub messages: u64,
}

pub ghost struct ReporterStatView {
    pub org_name: Seq<char>,
    pub reports: usize,
    pub messages: u64,
}

impl View for ReporterStat {
    type V = ReporterStatView;

    open spec fn view(&self) -> ReporterStatView {
        ReporterStatView { org_name: self.org_name@, reports: self.reports, messages: self.messages }
    }
}

pub open spec fn reporters_view(v: Seq<ReporterStat>) -> Seq<ReporterStatView> {
    v.map_values(|r: ReporterStat| r@)
}

/// Number of reports from the organization `name`.
pub open spec fn org_reports(reps: Seq<AggregateReport>, name: Seq<char>) -> nat
    decreases reps.len(),
{
    if reps.len() == 0 {
        0
    } else {
        org_reports(reps.drop_last(), name) + if reps.last().metadata.org_name@ == name {
            1nat
        } else {
            0nat
        }
    }
}

/// Messages in the reports from the organization `name`.
pub open spec fn org_messages(reps: Seq<AggregateReport>, name: Seq<char>) -> nat
    decreases reps.len(),
{
    if reps.len() == 0 {
        0
    } else {
        org_messages(reps.drop_last(), name) + if reps.last().metadata.org_name@ == name {
            messages(report_entries(reps.last()), Tally::All)
        } else {
            0
        }
    }
}

pub open spec fn reports_from(reps: Seq<AggregateReport>, name: Seq<char>) -> bool {
    exists|i: int| 0 <= i < reps.len() && (#[trigger] reps[i]).metadata.org_name@ == name
}

/// One entry per reporting organization, with its report and message counts.
pub open spec fn reporters_tallied(v: Seq<ReporterStatView>, reps: Seq<AggregateReport>) -> bool {
    &&& forall|k: int|
        0 <= k < v.len() ==> (#[trigger] v[k]).reports == org_reports(reps, v[k].org_name)
            && v[k].messages == org_messages(reps, v[k].org_name)
    &&& forall|a: int, b: int|
        0 <= a < b < v.len() ==> (#[trigger] v[a]).org_name != (#[trigger] v[b]).org_name
    &&& forall|name: Seq<char>|
        #[trigger] reports_from(reps, name) <==> exists|k: int|
            0 <= k < v.len() && (#[trigger] v[k]).org_name == name
}

pub(crate) proof fn lemma_total_step(reps: Seq<AggregateReport>)
    requires
        reps.len() > 0,
    ensures
        total_messages(reps) == total_messages(reps.drop_last()) + messages(
            report_entries(reps.last()),
            Tally::All,
        ),
{
    lemma_messages_concat(entries(reps.drop_last()), report_entries(reps.last()), Tally::All);
}

proof fn lemma_org_messages_bound(reps: Seq<AggregateReport>, name: Seq<char>)
    ensures
        org_messages(reps, name) <= total_messages(reps),
        org_reports(reps, name) <= reps.len(),
    decreases reps.len(),
{
    if reps.len() > 0 {
        lemma_org_messages_bound(reps.drop_last(), name);
        lemma_total_step(reps);
    }
}

proof fn lemma_total_prefix(reps: Seq<AggregateReport>, i: int)
    requires
        0 <= i <= reps.len(),
    ensures
        total_messages(reps.take(i)) <= total_messages(reps),
{
    lemma_entries_concat(reps.take(i), reps.skip(i));
    assert(reps.take(i) + reps.skip(i) =~= reps);
    lemma_messages_concat(entries(reps.take(i)), entries(reps.skip(i)), Tally::All);
}

/// Report and message counts of every reporting organization.
fn collect_reporters(reports: &Vec<AggregateReport>) -> (r: Vec<ReporterStat>)
    requires
        total_messages(reports@) <= u64::MAX,
    ensures
        reporters_tallied(reporters_view(r@), reports@),
{
    let ghost reps = reports@;
    let mut reporters: Vec<ReporterStat> = Vec::new();
    let mut i: usize = 0;
    assert(reps.take(0) =~= Seq::<AggregateReport>::empty());
    while i < reports.len()
        invariant
            reps == reports@,
            i <= reps.len(),
            total_messages(reps) <= u64::MAX,
            reporters_tallied(reporters_view(reporters@), reps.take(i as int)),
        decreases reps.len() - i,
    {
        let report = &reports[i];
        let ghost done = reps.take(i as int);
        let ghost next = reps.take(i + 1);
        assert(next.drop_last() =~= done);
        assert(next.last() == *report);
        let mut m: u64 = 0;
        let mut j: usize = 0;
        assert(report_entries(*report).take(0) =~= Seq::<(DateRange, Record)>::empty());
        while j < report.records.len()
            invariant
                reps == reports@,
                i < reps.len(),
                *report == reps[i as int],
                j <= report.records@.len(),
                total_messages(reps) <= u64::MAX,
                m == messages(report_entries(*report).take(j as int), Tally::All),
            decreases report.records@.len() - j,
        {
            let ghost re = report_entries(*report);
            proof {
                assert(re.take(j + 1).drop_last() =~= re.take(j as int));
                lemma_processed_bound(reps, i as int, j as int + 1, Tally::All);
                lemma_messages_concat(entries(reps.take(i as int)), re.take(j + 1), Tally::All);
            }
            m = m + report.records[j].row.count;
            j = j + 1;
        }
        assert(report_entries(*report).take(report.records@.len() as int) =~= report_entries(
            *report,
        ));
        let ghost before = reporters_view(reporters@);
        let name = report.metadata.org_name.as_str();
        proof {
            lemma_org_messages_bound(next, name@);
            lemma_total_prefix(reps, i + 1);
        }
        let mut k: usize = 0;
        while k < reporters.len() && !same_text(reporters[k].org_name.as_str(), name)
            invariant
                k <= reporters@.len(),
                forall|q: int| 0 <= q < k ==> reporters@[q].org_name@ != name@,
            decreases reporters@.len() - k,
        {
            k = k + 1;
        }
        if k < reporters.len() {
            let mut st = reporters.remove(k);
            assert(before[k as int] == st@);
            st.reports = st.reports + 1;
            st.messages = st.messages + m;
            reporters.insert(k, st);
            proof {
                let after = reporters_view(reporters@);
                assert(after =~= before.update(k as int, st@));
                assert forall|q: int| 0 <= q < after.len() implies (#[trigger] after[q]).reports
                    == org_reports(next, after[q].org_name) && after[q].messages == org_messages(
                    next,
                    after[q].org_name,
                ) by {
                    if q != k {
                        assert(after[q] == before[q]);
                        assert(before[q].org_name != name@);
                    }
                }
                assert forall|nm: Seq<char>| #[trigger] reports_from(next, nm) <==> exists|q: int|
                    0 <= q < after.len() && (#[trigger] after[q]).org_name == nm by {
                    if reports_from(next, nm) {
                        let t = choose|t: int| 0 <= t < next.len() && (#[trigger] next[t]).metadata.org_name@ == nm;
                        if t < i {
                            assert(done[t] == next[t]);
                            assert(reports_from(done, nm));
                            let q = choose|q: int| 0 <= q < before.len() && (#[trigger] before[q]).org_name == nm;
                            assert(after[q].org_name == nm);
                        } else {
                            assert(after[k as int].org_name == nm);
                        }
                    }
                    if exists|q: int| 0 <= q < after.len() && (#[trigger] after[q]).org_name == nm {
                        let q = choose|q: int| 0 <= q < after.len() && (#[trigger] after[q]).org_name == nm;
                        assert(before[q].org_name == nm);
                        assert(reports_from(done, nm));
                        let t = choose|t: int| 0 <= t < done.len() && (#[trigger] done[t]).metadata.org_name@ == nm;
                        assert(next[t] == done[t]);
                    }
                }
            }
        } else {
            let st = ReporterStat { org_name: report.metadata.org_name.clone(), reports: 1, messages: m };
            proof {
                assert(!reports_from(done, name@)) by {
                    if reports_from(done, name@) {
                        let q = choose|q: int| 0 <= q < before.len() && (#[trigger] before[q]).org_name == name@;
                        assert(reporters@[q].org_name@ == name@);
                    }
                }
                assert(org_reports(done, name@) == 0 && org_messages(done, name@) == 0) by {
                    lemma_org_absent(done, name@);
                }
            }
            reporters.push(st);
            proof {
                let after = reporters_view(reporters@);
                assert(after =~= before.push(st@));
                assert forall|q: int| 0 <= q < after.len() implies (#[trigger] after[q]).reports
                    == org_reports(next, after[q].org_name) && after[q].messages == org_messages(
                    next,
                    after[q].org_name,
                ) by {
                    if q < before.len() {
                        assert(after[q] == before[q]);
                        assert(reporters@[q].org_name@ != name@);
                    }
                }
                assert forall|a: int, b: int| 0 <= a < b < after.len() implies (#[trigger] after[a]).org_name
                    != (#[trigger] after[b]).org_name by {
                    if b == before.len() {
                        assert(reporters@[a].org_name@ != name@);
                    }
                }
                assert forall|nm: Seq<char>| #[trigger] reports_from(next, nm) <==> exists|q: int|
                    0 <= q < after.len() && (#[trigger] after[q]).org_name == nm by {
                    if reports_from(next, nm) {
                        let t = choose|t: int| 0 <= t < next.len() && (#[trigger] next[t]).metadata.org_name@ == nm;
                        if t < i {
                            assert(done[t] == next[t]);
                            assert(reports_from(done, nm));
                            let q = choose|q: int| 0 <= q < before.len() && (#[trigger] before[q]).org_name == nm;
                            assert(after[q].org_name == nm);
                        } else {
                            assert(after[before.len() as int].org_name == nm);
                        }
                    }
                    if exists|q: int| 0 <= q < after.len() && (#[trigger] after[q]).org_name == nm {
                        let q = choose|q: int| 0 <= q < after.len() && (#[trigger] after[q]).org_name == nm;
                        if q < before.len() {
                            assert(before[q].org_name == nm);
                            assert(reports_from(done, nm));
                            let t = choose|t: int| 0 <= t < done.len() && (#[trigger] done[t]).metadata.org_name@ == nm;
                            assert(next[t] == done[t]);
                        } else {
                            assert(next[i as int].metadata.org_name@ == nm);
                        }
                    }
                }
            }
        }
        i = i + 1;
    }
    assert(reps.take(reps.len() as int) =~= reps);
    reporters
}

proof fn lemma_org_absent(reps: Seq<AggregateReport>, name: Seq<char>)
    requires
        !reports_from(reps, name),
    ensures
        org_reports(reps, name) == 0,
        org_messages(reps, name) == 0,
    decreases reps.len(),
{
    if reps.len() > 0 {
        assert(!reports_from(reps.drop_last(), name)) by {
            if reports_from(reps.drop_last(), name) {
                let t = choose|t: int|
                    0 <= t < reps.drop_last().len() && (#[trigger] reps.drop_last()[t]).metadata.org_name@
                        == name;
                assert(reps[t] == reps.drop_last()[t]);
            }
        }
        assert(reps[reps.len() - 1].metadata.org_name@ != name);
        lemma_org_absent(reps.drop_last(), name);
    }
}

// ---------------------------------------------------------------------------
// Ranking

/// Source order: more messages first, then by address.
pub open spec fn source_precedes(a: SourceStatView, b: SourceStatView) -> bool {
    a.messages > b.messages || (a.messages == b.messages && a.ip.precedes(b.ip))
}

/// Reporter order: more reports first, then by name.
pub open spec fn reporter_precedes(a: ReporterStatView, b: ReporterStatView) -> bool {
    a.reports > b.reports || (a.reports == b.reports && text_less(a.org_name, b.org_name))
}

/// Statistics of one source address, with its first and last dates as text.
pub open spec fn source_correct(s: SourceStatView, e: Seq<(DateRange, Record)>) -> bool {
    &&& source_tallied(s, e)
    &&& s.first_seen == date_label(s.first_seen_ts)
    &&& s.last_seen == date_label(s.last_seen_ts)
}

/// Every source address that occurs, once, with correct statistics, most
/// messages first (ties by address).
pub open spec fn is_source_ranking(v: Seq<SourceStatView>, e: Seq<(DateRange, Record)>) -> bool {
    &&& forall|k: int| 0 <= k < v.len() ==> source_correct(#[trigger] v[k], e)
    &&& forall|ip: IpAddress|
        #[trigger] occurs(e, Tally::FromIp(ip)) <==> exists|k: int|
            0 <= k < v.len() && (#[trigger] v[k]).ip == ip
    &&& forall|a: int, b: int|
        0 <= a < b < v.len() ==> source_precedes(#[trigger] v[a], #[trigger] v[b])
}

/// Every reporting organization, once, with correct counts, most reports
/// first (ties by name).
pub open spec fn is_reporter_ranking(v: Seq<ReporterStatView>, reps: Seq<AggregateReport>) -> bool {
    &&& reporters_tallied(v, reps)
    &&& forall|a: int, b: int|
        0 <= a < b < v.len() ==> reporter_precedes(#[trigger] v[a], #[trigger] v[b])
}

/// The sources where no message passed either DKIM or SPF, in order.
pub open spec fn failing_of(v: Seq<SourceStatView>) -> Seq<SourceStatView>
    decreases v.len(),
{
    if v.len() == 0 {
        Seq::empty()
    } else {
        let prev = failing_of(v.drop_last());
        if v.last().dkim_pass == 0 && v.last().spf_pass == 0 {
            prev.push(v.last())
        } else {
            prev
        }
    }
}

proof fn lemma_ip_order(a: IpAddress, b: IpAddress, c: IpAddress)
    ensures
        !a.precedes(a),
        a != b ==> a.precedes(b) || b.precedes(a),
        a.precedes(b) && b.precedes(c) ==> a.precedes(c),
        a.precedes(b) ==> a != b,
{
}

pub(crate) proof fn lemma_source_order(a: SourceStatView, b: SourceStatView, c: SourceStatView)
    ensures
        !source_precedes(a, a),
        a.ip != b.ip ==> source_precedes(a, b) || source_precedes(b, a),
        source_precedes(a, b) && source_precedes(b, c) ==> source_precedes(a, c),
        source_precedes(a, b) ==> !source_precedes(b, a),
{
    lemma_ip_order(a.ip, b.ip, c.ip);
    lemma_ip_order(b.ip, a.ip, c.ip);
}

pub(crate) proof fn lemma_reporter_order(a: ReporterStatView, b: ReporterStatView, c: ReporterStatView)
    ensures
        !reporter_precedes(a, a),
        a.org_name != b.org_name ==> reporter_precedes(a, b) || reporter_precedes(b, a),
        reporter_precedes(a, b) && reporter_precedes(b, c) ==> reporter_precedes(a, c),
        reporter_precedes(a, b) ==> !reporter_precedes(b, a),
{
    lemma_text_less_irreflexive(a.org_name);
    if a.org_name != b.org_name {
        lemma_text_less_total(a.org_name, b.org_name);
    }
    if text_less(a.org_name, b.org_name) && text_less(b.org_name, c.org_name) {
        lemma_text_less_transitive(a.org_name, b.org_name, c.org_name);
    }
    if text_less(a.org_name, b.org_name) {
        lemma_text_less_asymmetric(a.org_name, b.org_name);
    }
}

fn source_before(a: &SourceStat, b: &SourceStat) -> (r: bool)
    ensures
        r == source_precedes(a@, b@),
{
    a.messages > b.messages || (a.messages == b.messages && a.ip.is_before(&b.ip))
}

fn reporter_before(a: &ReporterStat, b: &ReporterStat) -> (r: bool)
    ensures
        r == reporter_precedes(a@, b@),
{
    a.reports > b.reports || (a.reports == b.reports && text_before(
        a.org_name.as_str(),
        b.org_name.as_str(),
    ))
}

/// Inserts an entry at its place in an ordered list.
fn insert_source(out: &mut Vec<SourceStat>, st: SourceStat) -> (p: usize)
    requires
        forall|a: int, b: int|
            0 <= a < b < old(out)@.len() ==> source_precedes((#[trigger] old(out)@[a])@, (#[trigger] old(out)@[b])@),
        forall|k: int| 0 <= k < old(out)@.len() ==> (#[trigger] old(out)@[k]).ip != st.ip,
    ensures
        p <= old(out)@.len(),
        final(out)@ == old(out)@.insert(p as int, st),
        forall|a: int, b: int|
            0 <= a < b < final(out)@.len() ==> source_precedes((#[trigger] final(out)@[a])@, (#[trigger] final(out)@[b])@),
{
    let ghost before = out@;
    let mut p: usize = 0;
    while p < out.len() && source_before(&out[p], &st)
        invariant
            p <= out@.len(),
            before == out@,
            forall|k: int| 0 <= k < p ==> source_precedes(before[k]@, st@),
        decreases out@.len() - p,
    {
        p = p + 1;
    }
    proof {
        if p < before.len() {
            lemma_source_order(st@, before[p as int]@, st@);
        }
    }
    let ghost x = st;
    out.insert(p, st);
    proof {
        let after = out@;
        assert forall|a: int, b: int| 0 <= a < b < after.len() implies source_precedes(
            (#[trigger] after[a])@,
            (#[trigger] after[b])@,
        ) by {
            if a < p && b == p {
            } else if a == p && b > p {
                assert(after[b] == before[b - 1]);
                if b - 1 > p {
                    lemma_source_order(x@, before[p as int]@, before[b - 1]@);
                }
            } else if a < p && b > p {
                assert(after[b] == before[b - 1]);
            } else if a > p {
                assert(after[a] == before[a - 1]);
                assert(after[b] == before[b - 1]);
            }
        }
    }
    p
}

/// Orders entries with distinct keys.
fn sort_sources(items: Vec<SourceStat>) -> (r: Vec<SourceStat>)
    requires
        forall|a: int, b: int|
            0 <= a < b < items@.len() ==> (#[trigger] items@[a]).ip != (#[trigger] items@[b]).ip,
    ensures
        r@.to_multiset() == items@.to_multiset(),
        forall|a: int, b: int| 0 <= a < b < r@.len() ==> source_precedes((#[trigger] r@[a])@, (#[trigger] r@[b])@),
{
    broadcast use vstd::seq_lib::group_to_multiset_ensures;

    let ghost orig = items@;
    let mut input = items;
    let mut out: Vec<SourceStat> = Vec::new();
    while input.len() > 0
        invariant
            orig.len() >= input@.len(),
            input@ == orig.take(input@.len() as int),
            forall|a: int, b: int| 0 <= a < b < orig.len() ==> (#[trigger] orig[a]).ip != (#[trigger] orig[b]).ip,
            out@.to_multiset().add(input@.to_multiset()) == orig.to_multiset(),
            forall|k: int| 0 <= k < out@.len() ==> orig.subrange(input@.len() as int, orig.len() as int).contains(#[trigger] out@[k]),
            forall|a: int, b: int| 0 <= a < b < out@.len() ==> source_precedes((#[trigger] out@[a])@, (#[trigger] out@[b])@),
        decreases input@.len(),
    {
        let ghost before = out@;
        let ghost n = input@.len();
        let ghost inp = input@;
        let st = input.pop().unwrap();
        assert(input@ =~= orig.take(n - 1));
        assert(inp =~= input@.push(st));
        let ghost x = st;
        assert(x == orig[n - 1]);
        proof {
            assert forall|k: int| 0 <= k < out@.len() implies (#[trigger] out@[k]).ip != st.ip by {
                let tail = orig.subrange(n as int, orig.len() as int);
                assert(tail.contains(out@[k]));
                let q = choose|q: int| 0 <= q < tail.len() && tail[q] == out@[k];
                assert(orig[n + q] == out@[k]);
                assert(orig[n - 1].ip != orig[n + q].ip);
            }
        }
        let p = insert_source(&mut out, st);
        proof {
            let after = out@;
            assert(after.remove(p as int) =~= before);
            assert(after[p as int] == x);
            assert(after.to_multiset() =~= before.to_multiset().insert(x)) by {
                vstd::seq_lib::to_multiset_remove(after, p as int);
                after.to_multiset_ensures();
                assert(after.contains(x));
                assert(after.to_multiset().count(x) > 0);
            }
            vstd::seq_lib::to_multiset_build(input@, x);
            assert(after.to_multiset().add(input@.to_multiset()) =~= orig.to_multiset());
            let tail = orig.subrange(n - 1, orig.len() as int);
            assert forall|k: int| 0 <= k < after.len() implies tail.contains(#[trigger] after[k]) by {
                if k == p {
                    assert(tail[0] == x);
                } else {
                    let kk = if k < p { k } else { k - 1 };
                    assert(after[k] == before[kk]);
                    let old_tail = orig.subrange(n as int, orig.len() as int);
                    assert(old_tail.contains(before[kk]));
                    let q = choose|q: int| 0 <= q < old_tail.len() && old_tail[q] == before[kk];
                    assert(tail[q + 1] == old_tail[q]);
                }
            }
        }
    }
    assert(input@.to_multiset() =~= Multiset::empty());
    assert(out@.to_multiset() =~= out@.to_multiset().add(input@.to_multiset()));
    out
}

/// Gives each source its first and last dates as text.
fn date_sources(sources: Vec<SourceStat>) -> (r: Vec<SourceStat>)
    ensures
        r@.len() == sources@.len(),
        forall|k: int|
            0 <= k < r@.len() ==> {
                let a = #[trigger] stats_view(r@)[k];
                let b = stats_view(sources@)[k];
                &&& a == SourceStatView {
                    first_seen: date_label(b.first_seen_ts),
                    last_seen: date_label(b.last_seen_ts),
                    ..b
                }
            },
{
    let ghost orig = stats_view(sources@);
    let mut input = sources;
    let mut back: Vec<SourceStat> = Vec::new();
    while input.len() > 0
        invariant
            orig.len() >= input@.len(),
            stats_view(input@) == orig.take(input@.len() as int),
            back@.len() == orig.len() - input@.len(),
            forall|k: int|
                0 <= k < back@.len() ==> {
                    let a = #[trigger] stats_view(back@)[k];
                    let b = orig[orig.len() - 1 - k];
                    a == SourceStatView {
                        first_seen: date_label(b.first_seen_ts),
                        last_seen: date_label(b.last_seen_ts),
                        ..b
                    }
                },
        decreases input@.len(),
    {
        let ghost n = input@.len();
        let ghost inp = stats_view(input@);
        let mut st = input.pop().unwrap();
        assert(inp[n - 1] == st@);
        assert(stats_view(input@) =~= orig.take(n - 1));
        st.first_seen = format_date(st.first_seen_ts);
        st.last_seen = format_date(st.last_seen_ts);
        let ghost bv = stats_view(back@);
        back.push(st);
        assert(stats_view(back@) =~= bv.push(st@));
    }
    let mut out: Vec<SourceStat> = Vec::new();
    let total = back.len();
    while back.len() > 0
        invariant
            total == orig.len(),
            back@.len() + out@.len() == total,
            forall|k: int|
                0 <= k < back@.len() ==> {
                    let a = #[trigger] stats_view(back@)[k];
                    let b = orig[orig.len() - 1 - k];
                    a == SourceStatView {
                        first_seen: date_label(b.first_seen_ts),
                        last_seen: date_label(b.last_seen_ts),
                        ..b
                    }
                },
            forall|k: int|
                0 <= k < out@.len() ==> {
                    let a = #[trigger] stats_view(out@)[k];
                    let b = orig[k];
                    a == SourceStatView {
                        first_seen: date_label(b.first_seen_ts),
                        last_seen: date_label(b.last_seen_ts),
                        ..b
                    }
                },
        decreases back@.len(),
    {
        let ghost m = back@.len();
        let ghost bv = stats_view(back@);
        let ghost ov = stats_view(out@);
        let st = back.pop().unwrap();
        assert(bv[m - 1] == st@);
        assert(stats_view(back@) =~= bv.take(m - 1));
        out.push(st);
        assert(stats_view(out@) =~= ov.push(st@));
    }
    out
}

/// Inserts an entry at its place in an ordered list.
fn insert_reporter(out: &mut Vec<ReporterStat>, st: ReporterStat) -> (p: usize)
    requires
        forall|a: int, b: int|
            0 <= a < b < old(out)@.len() ==> reporter_precedes((#[trigger] old(out)@[a])@, (#[trigger] old(out)@[b])@),
        forall|k: int| 0 <= k < old(out)@.len() ==> (#[trigger] old(out)@[k]).org_name@ != st.org_name@,
    ensures
        p <= old(out)@.len(),
        final(out)@ == old(out)@.insert(p as int, st),
        forall|a: int, b: int|
            0 <= a < b < final(out)@.len() ==> reporter_precedes((#[trigger] final(out)@[a])@, (#[trigger] final(out)@[b])@),
{
    let ghost before = out@;
    let mut p: usize = 0;
    while p < out.len() && reporter_before(&out[p], &st)
        invariant
            p <= out@.len(),
            before == out@,
            forall|k: int| 0 <= k < p ==> reporter_precedes(before[k]@, st@),
        decreases out@.len() - p,
    {
        p = p + 1;
    }
    proof {
        if p < before.len() {
            lemma_reporter_order(st@, before[p as int]@, st@);
        }
    }
    let ghost x = st;
    out.insert(p, st);
    proof {
        let after = out@;
        assert forall|a: int, b: int| 0 <= a < b < after.len() implies reporter_precedes(
            (#[trigger] after[a])@,
            (#[trigger] after[b])@,
        ) by {
            if a < p && b == p {
            } else if a == p && b > p {
                assert(after[b] == before[b - 1]);
                if b - 1 > p {
                    lemma_reporter_order(x@, before[p as int]@, before[b - 1]@);
                }
            } else if a < p && b > p {
                assert(after[b] == before[b - 1]);
            } else if a > p {
                assert(after[a] == before[a - 1]);
                assert(after[b] == before[b - 1]);
            }
        }
    }
    p
}

/// Orders entries with distinct keys.
fn sort_reporters(items: Vec<ReporterStat>) -> (r: Vec<ReporterStat>)
    requires
        forall|a: int, b: int|
            0 <= a < b < items@.len() ==> (#[trigger] items@[a]).org_name@ != (#[trigger] items@[b]).org_name@,
    ensures
        r@.to_multiset() == items@.to_multiset(),
        forall|a: int, b: int| 0 <= a < b < r@.len() ==> reporter_precedes((#[trigger] r@[a])@, (#[trigger] r@[b])@),
{
    broadcast use vstd::seq_lib::group_to_multiset_ensures;

    let ghost orig = items@;
    let mut input = items;
    let mut out: Vec<ReporterStat> = Vec::new();
    while input.len() > 0
        invariant
            orig.len() >= input@.len(),
            input@ == orig.take(input@.len() as int),
            forall|a: int, b: int| 0 <= a < b < orig.len() ==> (#[trigger] orig[a]).org_name@ != (#[trigger] orig[b]).org_name@,
            out@.to_multiset().add(input@.to_multiset()) == orig.to_multiset(),
            forall|k: int| 0 <= k < out@.len() ==> orig.subrange(input@.len() as int, orig.len() as int).contains(#[trigger] out@[k]),
            forall|a: int, b: int| 0 <= a < b < out@.len() ==> reporter_precedes((#[trigger] out@[a])@, (#[trigger] out@[b])@),
        decreases input@.len(),
    {
        let ghost before = out@;
        let ghost n = input@.len();
        let ghost inp = input@;
        let st = input.pop().unwrap();
        assert(input@ =~= orig.take(n - 1));
        assert(inp =~= input@.push(st));
        let ghost x = st;
        assert(x == orig[n - 1]);
        proof {
            assert forall|k: int| 0 <= k < out@.len() implies (#[trigger] out@[k]).org_name@ != st.org_name@ by {
                let tail = orig.subrange(n as int, orig.len() as int);
                assert(tail.contains(out@[k]));
                let q = choose|q: int| 0 <= q < tail.len() && tail[q] == out@[k];
                assert(orig[n + q] == out@[k]);
                assert(orig[n - 1].org_name@ != orig[n + q].org_name@);
            }
        }
        let p = insert_reporter(&mut out, st);
        proof {
            let after = out@;
            assert(after.remove(p as int) =~= before);
            assert(after[p as int] == x);
            assert(after.to_multiset() =~= before.to_multiset().insert(x)) by {
                vstd::seq_lib::to_multiset_remove(after, p as int);
                after.to_multiset_ensures();
                assert(after.contains(x));
                assert(after.to_multiset().count(x) > 0);
            }
            vstd::seq_lib::to_multiset_build(input@, x);
            assert(after.to_multiset().add(input@.to_multiset()) =~= orig.to_multiset());
            let tail = orig.subrange(n - 1, orig.len() as int);
            assert forall|k: int| 0 <= k < after.len() implies tail.contains(#[trigger] after[k]) by {
                if k == p {
                    assert(tail[0] == x);
                } else {
                    let kk = if k < p { k } else { k - 1 };
                    assert(after[k] == before[kk]);
                    let old_tail = orig.subrange(n as int, orig.len() as int);
                    assert(old_tail.contains(before[kk]));
                    let q = choose|q: int| 0 <= q < old_tail.len() && old_tail[q] == before[kk];
                    assert(tail[q + 1] == old_tail[q]);
                }
            }
        }
    }
    assert(input@.to_multiset() =~= Multiset::empty());
    assert(out@.to_multiset() =~= out@.to_multiset().add(input@.to_multiset()));
    out
}

impl SourceStat {
    /// A copy with the same statistics.
    pub fn duplicate(&self) -> (r: SourceStat)
        ensures
            r@ == self@,
    {
        let mut dispositions: Vec<(String, u64)> = Vec::new();
        let mut i: usize = 0;
        while i < self.dispositions.len()
            invariant
                i <= self.dispositions@.len(),
                counts_view(dispositions@) == counts_view(self.dispositions@).take(i as int),
            decreases self.dispositions@.len() - i,
        {
            let ghost before = counts_view(dispositions@);
            let name = self.dispositions[i].0.clone();
            dispositions.push((name, self.dispositions[i].1));
            assert(counts_view(dispositions@) =~= before.push(counts_view(self.dispositions@)[i as int]));
            assert(counts_view(self.dispositions@).take(i + 1) =~= counts_view(self.dispositions@).take(
                i as int,
            ).push(counts_view(self.dispositions@)[i as int]));
            i = i + 1;
        }
        assert(counts_view(self.dispositions@).take(self.dispositions@.len() as int) =~= counts_view(
            self.dispositions@,
        ));
        SourceStat {
            ip: self.ip,
            messages: self.messages,
            dkim_pass: self.dkim_pass,
            spf_pass: self.spf_pass,
            dispositions,
            first_seen: self.first_seen.clone(),
            last_seen: self.last_seen.clone(),
            first_seen_ts: self.first_seen_ts,
            last_seen_ts: self.last_seen_ts,
        }
    }
}

/// Copies of the sources where no message passed either DKIM or SPF.
fn failing_of_ranked(ranked: &Vec<SourceStat>) -> (r: Vec<SourceStat>)
    ensures
        stats_view(r@) == failing_of(stats_view(ranked@)),
{
    let mut out: Vec<SourceStat> = Vec::new();
    let mut i: usize = 0;
    while i < ranked.len()
        invariant
            i <= ranked@.len(),
            stats_view(out@) == failing_of(stats_view(ranked@).take(i as int)),
        decreases ranked@.len() - i,
    {
        let ghost before = stats_view(out@);
        let st = &ranked[i];
        assert(stats_view(ranked@).take(i + 1).drop_last() =~= stats_view(ranked@).take(i as int));
        if st.dkim_pass == 0 && st.spf_pass == 0 {
            out.push(st.duplicate());
            assert(stats_view(out@) =~= before.push(st@));
        }
        i = i + 1;
    }
    assert(stats_view(ranked@).take(ranked@.len() as int) =~= stats_view(ranked@));
    out
}

pub struct Summary {
    pub reports: ReportCounts,
    /// Overall observed window; `None` when no reports matched.
    pub date_range: Option<Period>,
    pub messages: MessageStats,
    pub auth: AuthStats,
    pub top_sources: Vec<SourceStat>,
    /// Sources where no message passed either DKIM or SPF (spoofing or
    /// misconfiguration candidates).
    pub failing_sources: Vec<SourceStat>,
    pub reporters: Vec<ReporterStat>,
}

pub proof fn lemma_alignment_partition(e: Seq<(DateRange, Record)>)
    ensures
        messages(e, Tally::All) == messages(e, Tally::Aligned(true, true)) + messages(
            e,
            Tally::Aligned(true, false),
        ) + messages(e, Tally::Aligned(false, true)) + messages(e, Tally::Aligned(false, false)),
    decreases e.len(),
{
    if e.len() > 0 {
        lemma_alignment_partition(e.drop_last());
    }
}

proof fn lemma_skipped_prefix(reps: Seq<AggregateReport>, i: int)
    requires
        0 <= i <= reps.len(),
    ensures
        skipped(reps.take(i)) <= skipped(reps),
    decreases reps.len() - i,
{
    if i < reps.len() {
        lemma_skipped_prefix(reps, i + 1);
        assert(reps.take(i + 1).drop_last() =~= reps.take(i));
    } else {
        assert(reps.take(i) =~= reps);
    }
}

/// The overall window and the number of skipped records.
fn window_and_skipped(reports: &Vec<AggregateReport>) -> (r: (Option<(i64, i64)>, usize))
    requires
        skipped(reports@) <= usize::MAX,
    ensures
        r.0 == period(reports@),
        r.1 == skipped(reports@),
{
    let ghost reps = reports@;
    let mut window: Option<(i64, i64)> = None;
    let mut count: usize = 0;
    let mut i: usize = 0;
    assert(reps.take(0) =~= Seq::<AggregateReport>::empty());
    while i < reports.len()
        invariant
            reps == reports@,
            i <= reps.len(),
            skipped(reps) <= usize::MAX,
            window == period(reps.take(i as int)),
            count == skipped(reps.take(i as int)),
        decreases reps.len() - i,
    {
        let range = reports[i].metadata.date_range;
        proof {
            assert(reps.take(i + 1).drop_last() =~= reps.take(i as int));
            lemma_skipped_prefix(reps, i + 1);
        }
        window = match window {
            Some((b, e)) => Some(
                (if b <= range.begin {
                    b
                } else {
                    range.begin
                }, if e >= range.end {
                    e
                } else {
                    range.end
                }),
            ),
            None => Some((range.begin, range.end)),
        };
        count = count + reports[i].warnings.len();
        i = i + 1;
    }
    assert(reps.take(reps.len() as int) =~= reps);
    (window, count)
}

/// What the summary of `reps` holds, given the number of unreadable files
/// and how many sources to list.
pub open spec fn describes(
    s: Summary,
    reps: Seq<AggregateReport>,
    failed_files: usize,
    top: usize,
) -> bool {
    let e = entries(reps);
    let both = messages(e, Tally::Aligned(true, true));
    let dkim_only = messages(e, Tally::Aligned(true, false));
    let spf_only = messages(e, Tally::Aligned(false, true));
    let neither = messages(e, Tally::Aligned(false, false));
    &&& s.reports.analyzed == reps.len()
    &&& s.reports.failed_files == failed_files
    &&& s.reports.skipped_records == skipped(reps)
    &&& match period(reps) {
        None => s.date_range is None,
        Some((b, end)) => s.date_range matches Some(p) && p.begin == b && p.end == end
            && p.begin_date@ == date_label(b) && p.end_date@ == date_label(end),
    }
    &&& s.messages.total == total_messages(reps)
    &&& s.messages.dmarc_pass == both + dkim_only + spf_only
    &&& s.messages.dmarc_fail == neither
    &&& s.auth.both_pass == both
    &&& s.auth.dkim_only == dkim_only
    &&& s.auth.spf_only == spf_only
    &&& s.auth.both_fail == neither
    &&& s.auth.dkim_pass == both + dkim_only
    &&& s.auth.dkim_fail == spf_only + neither
    &&& s.auth.spf_pass == both + spf_only
    &&& s.auth.spf_fail == dkim_only + neither
    &&& exists|ranked: Seq<SourceStatView>|
        {
            &&& is_source_ranking(ranked, e)
            &&& stats_view(s.top_sources@) == ranked.take(
                if top <= ranked.len() {
                    top as int
                } else {
                    ranked.len() as int
                },
            )
            &&& stats_view(s.failing_sources@) == failing_of(ranked)
        }
    &&& is_reporter_ranking(reporters_view(s.reporters@), reps)
}

/// Links the ordered, dated sources to the tallied ones.
proof fn lemma_ranked_sources(
    e: Seq<(DateRange, Record)>,
    tallied: Seq<SourceStat>,
    dated: Seq<SourceStat>,
    ranked: Seq<SourceStat>,
)
    requires
        sources_tallied(stats_view(tallied), e),
        dated.len() == tallied.len(),
        forall|k: int|
            0 <= k < dated.len() ==> {
                let a = #[trigger] stats_view(dated)[k];
                let b = stats_view(tallied)[k];
                a == SourceStatView {
                    first_seen: date_label(b.first_seen_ts),
                    last_seen: date_label(b.last_seen_ts),
                    ..b
                }
            },
        ranked.to_multiset() == dated.to_multiset(),
        forall|a: int, b: int|
            0 <= a < b < ranked.len() ==> source_precedes((#[trigger] ranked[a])@, (#[trigger] ranked[b])@),
    ensures
        is_source_ranking(stats_view(ranked), e),
{
    broadcast use vstd::seq_lib::group_to_multiset_ensures;

    let tv = stats_view(tallied);
    let rv = stats_view(ranked);
    assert forall|k: int| 0 <= k < rv.len() implies source_correct(#[trigger] rv[k], e) by {
        assert(ranked.contains(ranked[k]));
        assert(ranked.to_multiset().count(ranked[k]) > 0);
        assert(dated.contains(ranked[k]));
        let q = choose|q: int| 0 <= q < dated.len() && dated[q] == ranked[k];
        assert(stats_view(dated)[q] == dated[q]@);
        assert(source_tallied(tv[q], e));
    }
    assert forall|ip: IpAddress| #[trigger] occurs(e, Tally::FromIp(ip)) <==> exists|k: int|
        0 <= k < rv.len() && (#[trigger] rv[k]).ip == ip by {
        if occurs(e, Tally::FromIp(ip)) {
            let q = choose|q: int| 0 <= q < tv.len() && (#[trigger] tv[q]).ip == ip;
            assert(stats_view(dated)[q].ip == ip);
            assert(dated.contains(dated[q]));
            assert(dated.to_multiset().count(dated[q]) > 0);
            assert(ranked.contains(dated[q]));
            let k = choose|k: int| 0 <= k < ranked.len() && ranked[k] == dated[q];
            assert(rv[k].ip == ip);
        }
        if exists|k: int| 0 <= k < rv.len() && (#[trigger] rv[k]).ip == ip {
            let k = choose|k: int| 0 <= k < rv.len() && (#[trigger] rv[k]).ip == ip;
            assert(ranked.contains(ranked[k]));
            assert(ranked.to_multiset().count(ranked[k]) > 0);
            assert(dated.contains(ranked[k]));
            let q = choose|q: int| 0 <= q < dated.len() && dated[q] == ranked[k];
            assert(stats_view(dated)[q] == dated[q]@);
            assert(tv[q].ip == ip);
        }
    }
    assert forall|a: int, b: int| 0 <= a < b < rv.len() implies source_precedes(
        #[trigger] rv[a],
        #[trigger] rv[b],
    ) by {
        assert(rv[a] == ranked[a]@);
        assert(rv[b] == ranked[b]@);
    }
}

/// Aggregates the reports into the summary.
pub fn build_summary(reports: &Vec<AggregateReport>, failed_files: usize, top: usize) -> (s: Summary)
    requires
        total_messages(reports@) <= u64::MAX,
        skipped(reports@) <= usize::MAX,
    ensures
        describes(s, reports@, failed_files, top),
{
    let ghost e = entries(reports@);
    let (both, dkim_only, spf_only, neither) = count_alignment(reports);
    proof {
        lemma_alignment_partition(e);
    }
    let (window, skipped_records) = window_and_skipped(reports);
    let tallied = collect_sources(reports);
    let ghost tallied_v = tallied@;
    proof {
        let tv = stats_view(tallied_v);
        assert forall|a: int, b: int| 0 <= a < b < tallied_v.len() implies (#[trigger] tallied_v[a]).ip
            != (#[trigger] tallied_v[b]).ip by {
            assert(tv[a].ip != tv[b].ip);
        }
    }
    let dated = date_sources(tallied);
    let ghost dated_v = dated@;
    proof {
        let tv = stats_view(tallied_v);
        assert forall|a: int, b: int| 0 <= a < b < dated_v.len() implies (#[trigger] dated_v[a]).ip
            != (#[trigger] dated_v[b]).ip by {
            assert(stats_view(dated_v)[a].ip == tv[a].ip);
            assert(stats_view(dated_v)[b].ip == tv[b].ip);
            assert(tv[a].ip != tv[b].ip);
        }
    }
    let mut ranked = sort_sources(dated);
    proof {
        lemma_ranked_sources(e, tallied_v, dated_v, ranked@);
    }
    let ghost ranked_v = stats_view(ranked@);
    let failing_sources = failing_of_ranked(&ranked);
    ranked.truncate(top);
    assert(stats_view(ranked@) =~= ranked_v.take(
        if top <= ranked_v.len() {
            top as int
        } else {
            ranked_v.len() as int
        },
    ));
    let collected = collect_reporters(reports);
    proof {
        let rv = reporters_view(collected@);
        assert forall|a: int, b: int| 0 <= a < b < collected@.len() implies (#[trigger] collected@[a]).org_name@
            != (#[trigger] collected@[b]).org_name@ by {
            assert(rv[a].org_name != rv[b].org_name);
        }
    }
    let ghost collected_v = collected@;
    let reporters = sort_reporters(collected);
    proof {
        lemma_ranked_reporters(reports@, collected_v, reporters@);
    }
    let date_range = match window {
        Some((begin, end)) => Some(
            Period { begin, end, begin_date: format_date(begin), end_date: format_date(end) },
        ),
        None => None,
    };
    let s = Summary {
        reports: ReportCounts { analyzed: reports.len(), failed_files, skipped_records },
        date_range,
        messages: MessageStats {
            total: both + dkim_only + spf_only + neither,
            dmarc_pass: both + dkim_only + spf_only,
            dmarc_fail: neither,
        },
        auth: AuthStats {
            dkim_pass: both + dkim_only,
            dkim_fail: spf_only + neither,
            spf_pass: both + spf_only,
            spf_fail: dkim_only + neither,
            both_pass: both,
            dkim_only,
            spf_only,
            both_fail: neither,
        },
        top_sources: ranked,
        failing_sources,
        reporters,
    };
    s
}

/// Links the ordered reporters to the tallied ones.
proof fn lemma_ranked_reporters(
    reps: Seq<AggregateReport>,
    tallied: Seq<ReporterStat>,
    ranked: Seq<ReporterStat>,
)
    requires
        reporters_tallied(reporters_view(tallied), reps),
        ranked.to_multiset() == tallied.to_multiset(),
        forall|a: int, b: int|
            0 <= a < b < ranked.len() ==> reporter_precedes((#[trigger] ranked[a])@, (#[trigger] ranked[b])@),
    ensures
        is_reporter_ranking(reporters_view(ranked), reps),
{
    broadcast use vstd::seq_lib::group_to_multiset_ensures;

    let tv = reporters_view(tallied);
    let rv = reporters_view(ranked);
    assert forall|k: int| 0 <= k < rv.len() implies (#[trigger] rv[k]).reports == org_reports(
        reps,
        rv[k].org_name,
    ) && rv[k].messages == org_messages(reps, rv[k].org_name) by {
        assert(ranked.contains(ranked[k]));
        assert(ranked.to_multiset().count(ranked[k]) > 0);
        assert(tallied.contains(ranked[k]));
        let q = choose|q: int| 0 <= q < tallied.len() && tallied[q] == ranked[k];
        assert(tv[q] == rv[k]);
    }
    assert forall|a: int, b: int| 0 <= a < b < rv.len() implies (#[trigger] rv[a]).org_name
        != (#[trigger] rv[b]).org_name by {
        assert(rv[a] == ranked[a]@);
        assert(rv[b] == ranked[b]@);
        lemma_reporter_order(rv[a], rv[b], rv[a]);
    }
    assert forall|nm: Seq<char>| #[trigger] reports_from(reps, nm) <==> exists|k: int|
        0 <= k < rv.len() && (#[trigger] rv[k]).org_name == nm by {
        if reports_from(reps, nm) {
            let q = choose|q: int| 0 <= q < tv.len() && (#[trigger] tv[q]).org_name == nm;
            assert(tallied.contains(tallied[q]));
            assert(tallied.to_multiset().count(tallied[q]) > 0);
            assert(ranked.contains(tallied[q]));
            let k = choose|k: int| 0 <= k < ranked.len() && ranked[k] == tallied[q];
            assert(rv[k].org_name == nm);
        }
        if exists|k: int| 0 <= k < rv.len() && (#[trigger] rv[k]).org_name == nm {
            let k = choose|k: int| 0 <= k < rv.len() && (#[trigger] rv[k]).org_name == nm;
            assert(ranked.contains(ranked[k]));
            assert(ranked.to_multiset().count(ranked[k]) > 0);
            assert(tallied.contains(ranked[k]));
            let q = choose|q: int| 0 <= q < tallied.len() && tallied[q] == ranked[k];
            assert(tv[q].org_name == nm);
        }
    }
    assert forall|a: int, b: int| 0 <= a < b < rv.len() implies reporter_precedes(
        #[trigger] rv[a],
        #[trigger] rv[b],
    ) by {
        assert(rv[a] == ranked[a]@);
        assert(rv[b] == ranked[b]@);
    }
}

} // verus!
