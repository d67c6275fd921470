use dmarc_lens::ip::parse_ip;
use dmarc_lens::model::AggregateReport;
use dmarc_lens::raw::{
    RawDateRange, RawFeedback, RawIdentifiers, RawPolicyEvaluated, RawPolicyPublished, RawRecord,
    RawReportMetadata, RawRow,
};
use dmarc_lens::render::{
    render_attention, render_auth, render_human, render_overview, render_reporters,
    render_sources_table, Shares,
};
use dmarc_lens::summary::{build_summary, format_date, select_reports, CalendarDate, Filters};

fn text(s: &str) -> Option<String> {
    Some(s.to_string())
}

fn row(ip: &str, count: &str, disposition: Option<&str>, dkim: &str, spf: &str) -> RawRecord {
    RawRecord {
        row: Some(RawRow {
            source_ip: text(ip),
            count: text(count),
            policy_evaluated: Some(RawPolicyEvaluated {
                disposition: disposition.map(|d| d.to_string()),
                dkim: text(dkim),
                spf: text(spf),
            }),
        }),
        identifiers: Some(RawIdentifiers { header_from: text("example.com"), envelope_from: None }),
        auth_results: None,
    }
}

fn report(org: &str, domain: &str, begin: &str, end: &str, records: Vec<RawRecord>) -> AggregateReport {
    AggregateReport::from_raw(RawFeedback {
        report_metadata: Some(RawReportMetadata {
            org_name: text(org),
            email: None,
            report_id: text("1"),
            date_range: Some(RawDateRange { begin: text(begin), end: text(end) }),
        }),
        policy_published: Some(RawPolicyPublished {
            domain: text(domain),
            adkim: None,
            aspf: None,
            p: text("none"),
            sp: None,
            pct: None,
        }),
        record: records,
    })
    .unwrap()
}

/// Two hand-made reports: a day-one report from google.com and a day-two
/// report from Outlook.com.
fn two_reports() -> Vec<AggregateReport> {
    vec![
        report(
            "google.com",
            "example.com",
            "1782259200",
            "1782345599",
            vec![
                row("203.0.113.10", "40", Some("none"), "pass", "pass"),
                row("203.0.113.11", "10", Some("none"), "pass", "fail"),
                row("192.0.2.200", "3", Some("quarantine"), "fail", "fail"),
            ],
        ),
        report(
            "Outlook.com",
            "Example.COM",
            "1782345600",
            "1782431999",
            vec![
                row("2001:db8:4860::42", "2", Some("none"), "pass", "fail"),
                row("198.51.100.7", "2", None, "fail", "fail"),
            ],
        ),
    ]
}

fn date(year: i32, month: u32, day: u32) -> CalendarDate {
    CalendarDate { year, month, day }
}

fn no_shares(top: usize, failing: usize) -> Shares {
    Shares {
        pass_rate: "91.2".to_string(),
        top_sources: vec![("100%".to_string(), "50%".to_string()); top],
        failing_sources: vec![("0%".to_string(), "0%".to_string()); failing],
    }
}

#[test]
fn dates_are_utc_days() {
    assert_eq!(format_date(1782259200), "2026-06-24");
    assert_eq!(format_date(1782345599), "2026-06-24");
    assert_eq!(format_date(0), "1970-01-01");
    assert_eq!(format_date(-1), "1969-12-31");
    assert_eq!(format_date(i64::MAX), format!("epoch:{}", i64::MAX));
}

#[test]
fn summary_counts_messages_and_alignment() {
    let reports = two_reports();
    let s = build_summary(&reports, 1, 20);
    assert_eq!(s.reports.analyzed, 2);
    assert_eq!(s.reports.failed_files, 1);
    assert_eq!(s.reports.skipped_records, 0);
    let period = s.date_range.as_ref().unwrap();
    assert_eq!(period.begin, 1782259200);
    assert_eq!(period.end, 1782431999);
    assert_eq!(period.begin_date, "2026-06-24");
    assert_eq!(period.end_date, "2026-06-25");
    assert_eq!(s.messages.total, 57);
    assert_eq!(s.messages.dmarc_pass, 52);
    assert_eq!(s.messages.dmarc_fail, 5);
    assert_eq!(s.auth.both_pass, 40);
    assert_eq!(s.auth.dkim_only, 12);
    assert_eq!(s.auth.spf_only, 0);
    assert_eq!(s.auth.both_fail, 5);
    assert_eq!(s.auth.dkim_pass, 52);
    assert_eq!(s.auth.dkim_fail, 5);
    assert_eq!(s.auth.spf_pass, 40);
    assert_eq!(s.auth.spf_fail, 17);
}

#[test]
fn sources_rank_by_messages_then_address() {
    let reports = two_reports();
    let s = build_summary(&reports, 0, 20);
    let ips: Vec<_> = s.top_sources.iter().map(|x| x.ip).collect();
    assert_eq!(
        ips,
        vec![
            parse_ip("203.0.113.10").unwrap(),
            parse_ip("203.0.113.11").unwrap(),
            parse_ip("192.0.2.200").unwrap(),
            parse_ip("198.51.100.7").unwrap(),
            parse_ip("2001:db8:4860::42").unwrap(),
        ]
    );
    let first = &s.top_sources[0];
    assert_eq!(first.messages, 40);
    assert_eq!(first.dkim_pass, 40);
    assert_eq!(first.spf_pass, 40);
    assert_eq!(first.dispositions, vec![("none".to_string(), 40)]);
    assert_eq!(first.first_seen, "2026-06-24");
    assert_eq!(first.last_seen, "2026-06-24");
    assert_eq!(s.top_sources[3].dispositions, vec![("unknown".to_string(), 2)]);
    assert_eq!(s.top_sources[4].first_seen, "2026-06-25");

    let failing: Vec<_> = s.failing_sources.iter().map(|x| x.ip).collect();
    assert_eq!(failing, vec![parse_ip("192.0.2.200").unwrap(), parse_ip("198.51.100.7").unwrap()]);
}

#[test]
fn top_limits_source_rows() {
    let reports = two_reports();
    let s = build_summary(&reports, 0, 1);
    assert_eq!(s.top_sources.len(), 1);
    assert_eq!(s.failing_sources.len(), 2);
    let none = build_summary(&reports, 0, 0);
    assert!(none.top_sources.is_empty());
}

#[test]
fn reporters_rank_by_reports_then_name() {
    let mut reports = two_reports();
    reports.push(report("google.com", "example.com", "1782259200", "1782345599", vec![]));
    let s = build_summary(&reports, 0, 20);
    assert_eq!(s.reporters.len(), 2);
    assert_eq!(s.reporters[0].org_name, "google.com");
    assert_eq!(s.reporters[0].reports, 2);
    assert_eq!(s.reporters[0].messages, 53);
    assert_eq!(s.reporters[1].org_name, "Outlook.com");
    assert_eq!(s.reporters[1].reports, 1);
    let tie = build_summary(&two_reports(), 0, 20);
    assert_eq!(tie.reporters[0].org_name, "Outlook.com");
    assert_eq!(tie.reporters[1].org_name, "google.com");
}

#[test]
fn sources_merge_across_reports() {
    let reports = vec![
        report("a", "example.com", "100", "200", vec![row("192.0.2.1", "1", Some("none"), "pass", "fail")]),
        report("b", "example.com", "50", "300", vec![
            row("192.0.2.1", "2", Some("reject"), "fail", "pass"),
            row("192.0.2.1", "4", Some("none"), "fail", "fail"),
        ]),
    ];
    let s = build_summary(&reports, 0, 20);
    assert_eq!(s.top_sources.len(), 1);
    let st = &s.top_sources[0];
    assert_eq!(st.messages, 7);
    assert_eq!(st.dkim_pass, 1);
    assert_eq!(st.spf_pass, 2);
    assert_eq!(st.first_seen_ts, 50);
    assert_eq!(st.last_seen_ts, 300);
    assert_eq!(st.dispositions, vec![("none".to_string(), 5), ("reject".to_string(), 2)]);
    assert!(s.failing_sources.is_empty());
}

#[test]
fn empty_summary_has_no_period() {
    let s = build_summary(&Vec::new(), 3, 20);
    assert_eq!(s.reports.analyzed, 0);
    assert_eq!(s.reports.failed_files, 3);
    assert!(s.date_range.is_none());
    assert_eq!(s.messages.total, 0);
    assert!(s.top_sources.is_empty());
    assert!(s.reporters.is_empty());
}

#[test]
fn skipped_records_are_counted() {
    let broken = RawRecord { row: None, identifiers: None, auth_results: None };
    let reports = vec![report("a", "example.com", "1", "2", vec![broken.clone(), broken])];
    let s = build_summary(&reports, 0, 20);
    assert_eq!(s.reports.skipped_records, 2);
    let out = render_human(&s, &no_shares(0, 0));
    assert!(out.contains("Skipped records   : 2 (missing/invalid required fields)"));
}

#[test]
fn domain_filter() {
    let mut reports = two_reports();
    reports.push(report("other", "other.example", "1782259200", "1782345599", vec![]));
    let filters = Filters::from_args(None, None, Some("EXAMPLE.COM".to_string()));
    let kept = select_reports(reports, &filters);
    assert_eq!(kept.len(), 2);
    assert!(kept.iter().all(|r| r.policy_published.domain != "other.example"));
}

#[test]
fn date_filters_select_reports_by_range_overlap() {
    let until = Filters::from_args(None, Some(date(2026, 6, 24)), None);
    assert_eq!(until.until, Some(1782259200 + 86_400));
    let kept = select_reports(two_reports(), &until);
    assert_eq!(kept.len(), 1);
    assert_eq!(kept[0].metadata.org_name, "google.com");

    let since = Filters::from_args(Some(date(2026, 6, 25)), None, None);
    assert_eq!(since.since, Some(1782345600));
    let kept = select_reports(two_reports(), &since);
    assert_eq!(kept.len(), 1);
    assert_eq!(kept[0].metadata.org_name, "Outlook.com");

    let both = Filters::from_args(Some(date(2026, 6, 24)), Some(date(2026, 6, 25)), None);
    assert_eq!(select_reports(two_reports(), &both).len(), 2);
    let open = Filters::from_args(None, None, None);
    assert!(two_reports().iter().all(|r| open.matches(r)));
}

#[test]
fn impossible_date_starts_at_epoch() {
    let f = Filters::from_args(Some(date(2026, 2, 30)), None, None);
    assert_eq!(f.since, Some(0));
}

#[test]
fn human_summary_covers_all_sections() {
    let reports = two_reports();
    let s = build_summary(&reports, 0, 20);
    let out = render_human(&s, &no_shares(5, 2));
    for needle in [
        "== Overview ==",
        "Reports analyzed  : 2 (0 file(s) failed to parse)",
        "Period (UTC)      : 2026-06-24 .. 2026-06-25",
        "Total messages    : 57",
        "DMARC pass rate   : 91.2% (52 / 57)",
        "== Authentication (policy_evaluated) ==",
        "DKIM              : pass 52 / fail 5",
        "Alignment         : both pass 40 | DKIM only 12 | SPF only 0 | both fail 5",
        "== Top sources",
        "203.0.113.10",
        "== Attention: sources failing both DKIM and SPF ==",
        "192.0.2.200",
        "== Reporters ==",
        "google.com",
        "Outlook.com",
    ] {
        assert!(out.contains(needle), "missing {:?} in\n{}", needle, out);
    }
    assert!(!out.contains("Skipped records"));
}

#[test]
fn source_table_rows_are_aligned() {
    let reports = vec![report(
        "a",
        "example.com",
        "1782259200",
        "1782345599",
        vec![row("2001:db8:4860::42", "1234", Some("none"), "pass", "pass")],
    )];
    let s = build_summary(&reports, 0, 20);
    let shares = Shares {
        pass_rate: "100.0".to_string(),
        top_sources: vec![("100%".to_string(), "100%".to_string())],
        failing_sources: vec![],
    };
    let out = render_human(&s, &shares);
    let header = format!(
        "{:<17}  {:>10}  {:>6}  {:>6}  {:<24}  {:<10}  {:<10}\n",
        "SOURCE IP", "MESSAGES", "DKIM%", "SPF%", "DISPOSITION", "FIRST", "LAST"
    );
    let line = format!(
        "{:<17}  {:>10}  {:>6}  {:>6}  {:<24}  {:<10}  {:<10}\n",
        "2001:db8:4860::42", "1,234", "100%", "100%", "none:1234", "2026-06-24", "2026-06-24"
    );
    assert!(out.contains(&format!("== Top sources by messages ==\n{}{}\n", header, line)), "{}", out);
    assert!(out.contains("== Attention: sources failing both DKIM and SPF ==\n(none)\n\n"));
    assert!(out.ends_with(&format!("== Reporters ==\n{:<3}  {:>8}  {:>10}\n{:<3}  {:>8}  {:>10}\n", "ORG", "REPORTS", "MESSAGES", "a", 1, "1,234")));
}

#[test]
fn empty_summary_renders_placeholders() {
    let s = build_summary(&Vec::new(), 0, 20);
    let out = render_human(&s, &no_shares(0, 0));
    assert!(out.contains("Period (UTC)      : -\n"));
    assert!(out.contains("== Top sources by messages ==\n(none)\n\n"));
    assert!(out.ends_with("== Reporters ==\n(none)\n"));
}

#[test]
fn broken_file_warns_but_does_not_fail() {
    let reports = two_reports();
    let s = build_summary(&reports, 1, 20);
    let out = render_human(&s, &no_shares(5, 2));
    assert!(out.contains("Reports analyzed  : 2 (1 file(s) failed to parse)"));
}

#[test]
fn record_warnings_go_to_stderr() {
    let broken_ip = row("999.0.0.1", "1", None, "pass", "pass");
    let broken_count = row("192.0.2.9", "x", None, "pass", "pass");
    let mut broken_from = row("192.0.2.10", "1", None, "pass", "pass");
    broken_from.identifiers = None;
    let reports = vec![report(
        "dirty.example",
        "example.com",
        "1782259200",
        "1782345599",
        vec![broken_ip, broken_count, broken_from, row("203.0.113.97", "5", None, "pass", "fail")],
    )];
    let messages: Vec<String> = reports[0].warnings.iter().map(|w| w.describe()).collect();
    assert!(messages[0].contains("row.source_ip"));
    assert!(messages[1].contains("row.count"));
    let s = build_summary(&reports, 0, 20);
    let out = render_human(&s, &no_shares(1, 0));
    assert!(out.contains("Skipped records   : 3"));
    assert_eq!(s.messages.total, 5);
}

#[test]
fn sections_render_on_their_own() {
    let s = build_summary(&two_reports(), 0, 20);
    let overview = render_overview(&s, "91.2");
    assert!(overview.starts_with("== Overview ==\nReports analyzed  : 2 (0 file(s) failed to parse)\n"));
    assert!(overview.ends_with("DMARC pass rate   : 91.2% (52 / 57)\n\n"));
    assert!(render_auth(&s).contains("SPF               : pass 40 / fail 17\n"));
    let shares = vec![("0%".to_string(), "0%".to_string()); 2];
    let untitled = render_sources_table("", &s.failing_sources, &shares);
    assert!(untitled.starts_with("SOURCE IP"));
    assert!(untitled.ends_with("\n\n"));
    assert_eq!(render_sources_table("Empty", &Vec::new(), &Vec::new()), "== Empty ==\n(none)\n\n");
    assert!(render_attention(&s.failing_sources, &shares).starts_with("== Attention: sources failing both DKIM and SPF ==\nSOURCE IP"));
    assert!(render_reporters(&s.reporters).starts_with("== Reporters ==\nORG"));
}
