use dmarc_lens::decimal::{parse_u64, u64_text};
use dmarc_lens::input::{gather_reports, SourceOutcome};
use dmarc_lens::ip::{ip_text, parse_ip};
use dmarc_lens::model::{AggregateReport, Disposition, IpAddress};
use dmarc_lens::raw::{
    RawDateRange, RawFeedback, RawIdentifiers, RawPolicyEvaluated, RawPolicyPublished, RawRecord,
    RawReportMetadata, RawRow,
};
use dmarc_lens::render::group_digits;
use dmarc_lens::summary::{build_summary, Summary};

fn text(s: &str) -> Option<String> {
    Some(s.to_string())
}

fn row(ip: &str, count: &str, dkim: &str, spf: &str) -> RawRecord {
    RawRecord {
        row: Some(RawRow {
            source_ip: text(ip),
            count: text(count),
            policy_evaluated: Some(RawPolicyEvaluated {
                disposition: text("none"),
                dkim: text(dkim),
                spf: text(spf),
            }),
        }),
        identifiers: Some(RawIdentifiers { header_from: text("example.com"), envelope_from: None }),
        auth_results: None,
    }
}

fn report(org: &str, begin: &str, end: &str, records: Vec<RawRecord>) -> AggregateReport {
    AggregateReport::from_raw(RawFeedback {
        report_metadata: Some(RawReportMetadata {
            org_name: text(org),
            email: None,
            report_id: text("r"),
            date_range: Some(RawDateRange { begin: text(begin), end: text(end) }),
        }),
        policy_published: Some(RawPolicyPublished {
            domain: text("example.com"),
            adkim: None,
            aspf: None,
            p: None,
            sp: None,
            pct: None,
        }),
        record: records,
    })
    .unwrap()
}

fn sample() -> Vec<AggregateReport> {
    vec![
        report("b.example", "100", "200", vec![
            row("192.0.2.1", "7", "pass", "fail"),
            row("2001:db8::1", "3", "fail", "fail"),
        ]),
        report("a.example", "50", "150", vec![row("192.0.2.1", "2", "fail", "pass")]),
        report("b.example", "300", "400", vec![row("198.51.100.2", "11", "pass", "pass")]),
    ]
}

fn shape(s: &Summary) -> String {
    format!(
        "{:?} {:?} {:?} {:?} {:?} {:?} {:?}",
        s.reports, s.date_range, s.messages, s.auth, s.top_sources, s.failing_sources, s.reporters
    )
}

#[test]
fn disposition_text_reads_back() {
    for value in ["none", "Quarantine", " REJECT ", "discard", ""] {
        let d = Disposition::parse(value);
        assert_eq!(Disposition::parse(d.as_str()), d);
    }
}

#[test]
fn summary_is_determined_by_reports() {
    let a = build_summary(&sample(), 1, 2);
    let b = build_summary(&sample(), 1, 2);
    assert_eq!(shape(&a), shape(&b));
}

#[test]
fn breakdowns_add_up() {
    let s = build_summary(&sample(), 0, 20);
    assert_eq!(s.messages.total, 23);
    let reporter_reports: usize = s.reporters.iter().map(|r| r.reports).sum();
    let reporter_messages: u64 = s.reporters.iter().map(|r| r.messages).sum();
    assert_eq!(reporter_reports, s.reports.analyzed);
    assert_eq!(reporter_messages, s.messages.total);
    let source_messages: u64 = s.top_sources.iter().map(|x| x.messages).sum();
    assert_eq!(source_messages, s.messages.total);
    assert_eq!(s.auth.both_pass + s.auth.dkim_only + s.auth.spf_only + s.auth.both_fail, 23);
    let period = s.date_range.unwrap();
    assert_eq!((period.begin, period.end), (50, 400));
}

#[test]
fn grouping_only_inserts_commas() {
    for n in [0u64, 7, 999, 1000, 65536, 1234567, 100000000, u64::MAX] {
        assert_eq!(group_digits(n).replace(',', ""), n.to_string());
    }
}

#[test]
fn commas_stand_every_fourth_place_from_the_end() {
    for n in [0u64, 12, 123, 1234, 12345, 123456, 1234567, u64::MAX] {
        let t: Vec<char> = group_digits(n).chars().collect();
        let digits = n.to_string().len();
        assert_eq!(t.len(), digits + (digits - 1) / 3);
        for (p, c) in t.iter().enumerate() {
            assert_eq!(*c == ',', p > 0 && (t.len() - p) % 4 == 0);
        }
    }
}

#[test]
fn decimal_text_reads_back() {
    for n in [0u64, 9, 10, 4096, 1782259200, u64::MAX] {
        assert_eq!(parse_u64(&u64_text(n)), Some(n));
    }
}

#[test]
fn ip_text_reads_back() {
    let samples = [
        IpAddress::V4(0),
        IpAddress::V4(0xC000_02C8),
        IpAddress::V4(u32::MAX),
        IpAddress::V6(0),
        IpAddress::V6(1),
        IpAddress::V6(0x2001_0db8_4860_0000_0000_0000_0000_0042),
        IpAddress::V6(0x0000_0000_0000_0000_0000_ffff_c000_0201),
        IpAddress::V6(0x0001_0000_0001_0000_0001_0000_0001_0000),
        IpAddress::V6(u128::MAX),
    ];
    for ip in samples {
        assert_eq!(parse_ip(&ip_text(ip)), Some(ip));
    }
}

#[test]
fn report_order_does_not_matter() {
    let forward = build_summary(&sample(), 0, 2);
    let mut reversed_input = sample();
    reversed_input.reverse();
    let reversed = build_summary(&reversed_input, 0, 2);
    assert_eq!(shape(&forward), shape(&reversed));
    let mut rotated_input = sample();
    rotated_input.rotate_left(1);
    assert_eq!(shape(&build_summary(&rotated_input, 0, 2)), shape(&forward));
}

#[test]
fn gathering_keeps_reports_in_order_and_counts_failures() {
    let mut outcomes = vec![SourceOutcome::Failed];
    for r in sample() {
        outcomes.push(SourceOutcome::Parsed(r));
        outcomes.push(SourceOutcome::Failed);
    }
    let (reports, failed) = gather_reports(outcomes);
    assert_eq!(failed, 4);
    let orgs: Vec<&str> = reports.iter().map(|r| r.metadata.org_name.as_str()).collect();
    assert_eq!(orgs, ["b.example", "a.example", "b.example"]);
    assert_eq!(reports[2].metadata.date_range.begin, 300);
    let (none, zero) = gather_reports(Vec::new());
    assert!(none.is_empty());
    assert_eq!(zero, 0);
}

#[test]
fn source_figures_agree() {
    let s = build_summary(&sample(), 0, 20);
    for x in s.top_sources.iter().chain(s.failing_sources.iter()) {
        let total: u64 = x.dispositions.iter().map(|d| d.1).sum();
        assert_eq!(total, x.messages);
        assert!(x.dkim_pass <= x.messages && x.spf_pass <= x.messages);
    }
}
