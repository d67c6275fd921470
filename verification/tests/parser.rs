use dmarc_lens::ip::parse_ip;
use dmarc_lens::model::{AggregateReport, Alignment, Disposition, DmarcResult, IpAddress};
use dmarc_lens::raw::{
    non_empty, parse_epoch, required, ParseError, RawAuthResults, RawDateRange, RawDkimResult,
    RawFeedback, RawIdentifiers, RawPolicyEvaluated, RawPolicyPublished, RawRecord,
    RawReportMetadata, RawRow, RawSpfResult,
};

fn text(s: &str) -> Option<String> {
    Some(s.to_string())
}

fn ip(s: &str) -> IpAddress {
    parse_ip(s).unwrap()
}

fn metadata(org: &str, email: Option<&str>, id: &str, begin: &str, end: &str) -> RawReportMetadata {
    RawReportMetadata {
        org_name: text(org),
        email: email.map(|e| e.to_string()),
        report_id: text(id),
        date_range: Some(RawDateRange { begin: text(begin), end: text(end) }),
    }
}

fn policy(domain: &str) -> RawPolicyPublished {
    RawPolicyPublished { domain: text(domain), adkim: None, aspf: None, p: None, sp: None, pct: None }
}

fn evaluated(disposition: &str, dkim: &str, spf: &str) -> Option<RawPolicyEvaluated> {
    Some(RawPolicyEvaluated { disposition: text(disposition), dkim: text(dkim), spf: text(spf) })
}

fn record(
    source_ip: Option<&str>,
    count: Option<&str>,
    pe: Option<RawPolicyEvaluated>,
    header_from: Option<&str>,
) -> RawRecord {
    RawRecord {
        row: Some(RawRow {
            source_ip: source_ip.map(|s| s.to_string()),
            count: count.map(|s| s.to_string()),
            policy_evaluated: pe,
        }),
        identifiers: Some(RawIdentifiers {
            header_from: header_from.map(|s| s.to_string()),
            envelope_from: None,
        }),
        auth_results: None,
    }
}

fn auth(dkim: Vec<(&str, &str, Option<&str>)>, spf: Vec<(&str, &str)>) -> Option<RawAuthResults> {
    Some(RawAuthResults {
        dkim: dkim
            .into_iter()
            .map(|(d, r, s)| RawDkimResult { domain: text(d), result: text(r), selector: s.map(|x| x.to_string()) })
            .collect(),
        spf: spf
            .into_iter()
            .map(|(d, r)| RawSpfResult { domain: text(d), result: text(r) })
            .collect(),
    })
}

/// A deserialized report tree with hand-made data in the manner of Google's
/// reports: clean values, three records.
fn google_tree() -> RawFeedback {
    let mut first = record(Some("203.0.113.10"), Some("40"), evaluated("none", "pass", "pass"), Some("example.com"));
    first.auth_results = auth(vec![("example.com", "pass", Some("google"))], vec![("example.com", "pass")]);
    let mut second = record(Some("203.0.113.11"), Some("10"), evaluated("none", "pass", "fail"), Some("example.com"));
    second.auth_results = auth(vec![("example.com", "pass", Some("google"))], vec![("example.com", "fail")]);
    let mut spoof = record(Some("192.0.2.200"), Some("3"), evaluated("quarantine", "fail", "fail"), Some("example.com"));
    spoof.auth_results = auth(vec![], vec![("example.com", "softfail")]);
    RawFeedback {
        report_metadata: Some(metadata(
            "google.com",
            Some("noreply-dmarc-support@google.com"),
            "8267707791559466617",
            "1782259200",
            "1782345599",
        )),
        policy_published: Some(RawPolicyPublished {
            domain: text("example.com"),
            adkim: text("r"),
            aspf: text("r"),
            p: text("quarantine"),
            sp: text("none"),
            pct: text("100"),
        }),
        record: vec![first, second, spoof],
    }
}

/// A deserialized report tree with hand-made data in the manner of
/// Microsoft's reports: mixed case, padding, empty elements.
fn microsoft_tree() -> RawFeedback {
    let mut first = record(Some(" 2001:db8:4860::42 "), Some("2"), evaluated("None", "Pass", "FAIL"), Some("example.com"));
    first.identifiers = Some(RawIdentifiers {
        header_from: text("example.com"),
        envelope_from: text("bounce.example.com"),
    });
    first.auth_results = auth(vec![("example.com", "Pass", Some(""))], vec![("bounce.example.com", "SoftFail")]);
    let mut second = record(Some("198.51.100.7"), Some("2"), evaluated("none", "fail", "fail"), Some("example.com"));
    second.auth_results = auth(vec![], vec![("example.com", "fail")]);
    RawFeedback {
        report_metadata: Some(metadata("Outlook.com", None, "ms-1", "1782345600", "1782431999")),
        policy_published: Some(RawPolicyPublished {
            domain: text("example.com"),
            adkim: text(" Relaxed "),
            aspf: text("S"),
            p: text("Quarantine"),
            sp: text(""),
            pct: text("   "),
        }),
        record: vec![first, second],
    }
}

/// Three broken records and one good one without `policy_evaluated`.
fn dirty_tree() -> RawFeedback {
    RawFeedback {
        report_metadata: Some(metadata("dirty.example", None, "d-1", "1782259200", "1782345599")),
        policy_published: Some(policy("example.com")),
        record: vec![
            record(Some("not-an-ip"), Some("1"), None, Some("example.com")),
            record(Some("203.0.113.96"), Some("many"), None, Some("example.com")),
            record(Some("203.0.113.98"), Some("1"), None, Some("  ")),
            record(Some("203.0.113.97"), Some("5"), None, Some("example.com")),
        ],
    }
}

#[test]
fn parses_google_style_report() {
    let report = AggregateReport::from_raw(google_tree()).unwrap();

    assert_eq!(report.metadata.org_name, "google.com");
    assert_eq!(report.metadata.email.as_deref(), Some("noreply-dmarc-support@google.com"));
    assert_eq!(report.metadata.report_id, "8267707791559466617");
    assert_eq!(report.metadata.date_range.begin, 1782259200);
    assert_eq!(report.metadata.date_range.end, 1782345599);

    let policy = &report.policy_published;
    assert_eq!(policy.domain, "example.com");
    assert_eq!(policy.adkim, Some(Alignment::Relaxed));
    assert_eq!(policy.aspf, Some(Alignment::Relaxed));
    assert_eq!(policy.p, Some(Disposition::Quarantine));
    assert_eq!(policy.sp, Some(Disposition::NoAction));
    assert_eq!(policy.pct, Some(100));

    assert_eq!(report.records.len(), 3);
    assert!(report.warnings.is_empty());

    let first = &report.records[0];
    assert_eq!(first.row.source_ip, ip("203.0.113.10"));
    assert_eq!(first.row.count, 40);
    assert_eq!(first.row.policy_evaluated.disposition, Some(Disposition::NoAction));
    assert_eq!(first.row.policy_evaluated.dkim, Some(DmarcResult::Pass));
    assert_eq!(first.row.policy_evaluated.spf, Some(DmarcResult::Pass));
    assert_eq!(first.identifiers.header_from, "example.com");
    assert_eq!(first.auth_results.dkim.len(), 1);
    assert_eq!(first.auth_results.dkim[0].selector.as_deref(), Some("google"));
    assert_eq!(first.auth_results.spf[0].result, "pass");

    let spoof = &report.records[2];
    assert_eq!(spoof.row.policy_evaluated.disposition, Some(Disposition::Quarantine));
    assert_eq!(spoof.auth_results.spf[0].result, "softfail");
}

#[test]
fn tolerates_microsoft_style_dialect() {
    let report = AggregateReport::from_raw(microsoft_tree()).unwrap();

    assert_eq!(report.metadata.org_name, "Outlook.com");
    assert_eq!(report.records.len(), 2);
    assert!(report.warnings.is_empty());

    // Mixed-case values are normalized.
    let policy = &report.policy_published;
    assert_eq!(policy.adkim, Some(Alignment::Relaxed));
    assert_eq!(policy.aspf, Some(Alignment::Strict));
    assert_eq!(policy.p, Some(Disposition::Quarantine));
    // Empty elements count as missing.
    assert_eq!(policy.sp, None);
    assert_eq!(policy.pct, None);

    let first = &report.records[0];
    assert_eq!(first.row.source_ip, ip("2001:db8:4860::42"));
    assert_eq!(first.row.policy_evaluated.dkim, Some(DmarcResult::Pass));
    assert_eq!(first.row.policy_evaluated.spf, Some(DmarcResult::Fail));
    assert_eq!(first.identifiers.envelope_from.as_deref(), Some("bounce.example.com"));
    // Empty selector becomes None; result is lowercased.
    assert_eq!(first.auth_results.dkim[0].selector, None);
    assert_eq!(first.auth_results.spf[0].result, "softfail");

    // Second record has no dkim auth_results at all.
    assert!(report.records[1].auth_results.dkim.is_empty());
}

#[test]
fn skips_bad_records_with_field_names() {
    let report = AggregateReport::from_raw(dirty_tree()).unwrap();

    assert_eq!(report.records.len(), 1);
    assert_eq!(report.warnings.len(), 3);

    let fields: Vec<&str> = report.warnings.iter().map(|w| w.field.as_str()).collect();
    assert_eq!(fields, ["row.source_ip", "row.count", "identifiers.header_from"]);
    assert_eq!(report.warnings[0].record_index, 0);
    assert_eq!(report.warnings[2].record_index, 2);

    // The surviving record has an omitted policy_evaluated -> all None.
    let record = &report.records[0];
    assert_eq!(record.row.source_ip, ip("203.0.113.97"));
    assert_eq!(record.row.policy_evaluated.dkim, None);
    assert_eq!(record.row.policy_evaluated.spf, None);

    // Optional metadata email is absent.
    assert_eq!(report.metadata.email, None);
}

#[test]
fn rejects_missing_report_metadata() {
    let raw = RawFeedback { report_metadata: None, policy_published: Some(policy("example.com")), record: vec![] };
    let err = AggregateReport::from_raw(raw).unwrap_err();
    assert!(matches!(err, ParseError::MissingField("report_metadata")));
}

#[test]
fn rejects_invalid_date_range() {
    let raw = RawFeedback {
        report_metadata: Some(metadata("x", None, "1", "soon", "1")),
        policy_published: Some(policy("example.com")),
        record: vec![],
    };
    let err = AggregateReport::from_raw(raw).unwrap_err();
    assert!(matches!(
        err,
        ParseError::InvalidValue { field: "report_metadata.date_range.begin", .. }
    ));
}

#[test]
fn missing_policy_is_reported_after_metadata() {
    let raw = RawFeedback {
        report_metadata: Some(metadata("x", None, "1", "1", "2")),
        policy_published: None,
        record: vec![],
    };
    assert!(matches!(
        AggregateReport::from_raw(raw).unwrap_err(),
        ParseError::MissingField("policy_published")
    ));
    let both_missing = RawFeedback { report_metadata: None, policy_published: None, record: vec![] };
    assert!(matches!(
        AggregateReport::from_raw(both_missing).unwrap_err(),
        ParseError::MissingField("report_metadata")
    ));
}

#[test]
fn metadata_fields_are_checked_in_order() {
    let mut m = metadata("  ", None, "1", "1", "2");
    assert!(matches!(m.convert().unwrap_err(), ParseError::MissingField("report_metadata.org_name")));
    m = metadata("org", None, "", "1", "2");
    assert!(matches!(m.convert().unwrap_err(), ParseError::MissingField("report_metadata.report_id")));
    m.report_id = text("id");
    m.date_range = None;
    assert!(matches!(m.convert().unwrap_err(), ParseError::MissingField("report_metadata.date_range")));
    m = metadata("org", Some("  "), "id", "1", "x2");
    match m.convert().unwrap_err() {
        ParseError::InvalidValue { field, value } => {
            assert_eq!(field, "report_metadata.date_range.end");
            assert_eq!(value, "x2");
        }
        other => panic!("unexpected error {:?}", other),
    }
    m = metadata("  org ", Some("  "), " id ", " -5 ", "+7");
    let ok = m.convert().unwrap();
    assert_eq!(ok.org_name, "org");
    assert_eq!(ok.report_id, "id");
    assert_eq!(ok.email, None);
    assert_eq!(ok.date_range.begin, -5);
    assert_eq!(ok.date_range.end, 7);
}

#[test]
fn policy_requires_domain_and_tolerates_bad_pct() {
    let mut p = policy(" ");
    assert!(matches!(p.convert().unwrap_err(), ParseError::MissingField("policy_published.domain")));
    p = policy("example.com");
    p.pct = text("300");
    p.adkim = text("x");
    p.p = text("REJECT");
    let ok = p.convert().unwrap();
    assert_eq!(ok.pct, None);
    assert_eq!(ok.adkim, Some(Alignment::Other("x".to_string())));
    assert_eq!(ok.p, Some(Disposition::Reject));
    p.pct = text(" 50 ");
    assert_eq!(p.convert().unwrap().pct, Some(50));
}

#[test]
fn record_errors_name_the_field() {
    let no_row = RawRecord { row: None, identifiers: None, auth_results: None };
    assert_eq!(no_row.convert().unwrap_err(), ("row", "element missing".to_string()));
    let empty_ip = record(Some(" "), Some("1"), None, Some("a"));
    assert_eq!(empty_ip.convert().unwrap_err(), ("row.source_ip", "element missing or empty".to_string()));
    let bad_ip = record(Some("1.2.3"), Some("1"), None, Some("a"));
    assert_eq!(bad_ip.convert().unwrap_err(), ("row.source_ip", "not an IP address: \"1.2.3\"".to_string()));
    let bad_count = record(Some("1.2.3.4"), Some("-1"), None, Some("a"));
    assert_eq!(bad_count.convert().unwrap_err(), ("row.count", "not a number: \"-1\"".to_string()));
    let no_count = record(Some("1.2.3.4"), None, None, Some("a"));
    assert_eq!(no_count.convert().unwrap_err(), ("row.count", "element missing or empty".to_string()));
    let mut no_ids = record(Some("1.2.3.4"), Some("1"), None, Some("a"));
    no_ids.identifiers = None;
    assert_eq!(no_ids.convert().unwrap_err(), ("identifiers", "element missing".to_string()));
    let no_from = record(Some("1.2.3.4"), Some("1"), None, None);
    assert_eq!(
        no_from.convert().unwrap_err(),
        ("identifiers.header_from", "element missing or empty".to_string())
    );
}

#[test]
fn auth_results_drop_entries_without_domain_or_result() {
    let raw = RawAuthResults {
        dkim: vec![
            RawDkimResult { domain: None, result: text("pass"), selector: None },
            RawDkimResult { domain: text("a.example"), result: text(" "), selector: None },
            RawDkimResult { domain: text(" b.example "), result: text("NEUTRAL"), selector: text(" s1 ") },
        ],
        spf: vec![
            RawSpfResult { domain: text("c.example"), result: None },
            RawSpfResult { domain: text("d.example"), result: text("Pass") },
        ],
    };
    let converted = raw.convert();
    assert_eq!(converted.dkim.len(), 1);
    assert_eq!(converted.dkim[0].domain, "b.example");
    assert_eq!(converted.dkim[0].result, "neutral");
    assert_eq!(converted.dkim[0].selector.as_deref(), Some("s1"));
    assert_eq!(converted.spf.len(), 1);
    assert_eq!(converted.spf[0].domain, "d.example");
    assert_eq!(converted.spf[0].result, "pass");
}

#[test]
fn non_empty_trims_and_rejects_blank() {
    assert_eq!(non_empty(&None), None);
    assert_eq!(non_empty(&text(" \t\n")), None);
    assert_eq!(non_empty(&text("  a b  ")), Some("a b".to_string()));
    assert!(matches!(required(&text(""), "f"), Err(ParseError::MissingField("f"))));
    assert_eq!(required(&text(" v "), "f").unwrap(), "v");
    assert_eq!(parse_epoch(&text("-9223372036854775808"), "f").unwrap(), i64::MIN);
    assert!(matches!(
        parse_epoch(&text("9223372036854775808"), "f"),
        Err(ParseError::InvalidValue { field: "f", .. })
    ));
}

#[test]
fn record_warning_describes_itself() {
    let report = AggregateReport::from_raw(dirty_tree()).unwrap();
    assert_eq!(
        report.warnings[1].describe(),
        "record 1 skipped: row.count (not a number: \"many\")"
    );
    assert_eq!(
        report.warnings[0].describe(),
        "record 0 skipped: row.source_ip (not an IP address: \"not-an-ip\")"
    );
}

#[test]
fn enumerated_values_parse_case_insensitively() {
    assert_eq!(Disposition::parse(" NONE "), Disposition::NoAction);
    assert_eq!(Disposition::parse("Reject"), Disposition::Reject);
    assert_eq!(Disposition::parse(" Discard "), Disposition::Other("discard".to_string()));
    assert_eq!(Disposition::parse("none").as_str(), "none");
    assert_eq!(Disposition::parse("quarantine").as_str(), "quarantine");
    assert_eq!(Disposition::Other("x".to_string()).as_str(), "x");
    assert_eq!(DmarcResult::parse("PASS"), DmarcResult::Pass);
    assert_eq!(DmarcResult::parse("fail\n"), DmarcResult::Fail);
    assert_eq!(DmarcResult::parse("TempError"), DmarcResult::Other("temperror".to_string()));
    assert!(DmarcResult::parse("Pass").is_pass());
    assert!(!DmarcResult::parse("fail").is_pass());
    assert!(!DmarcResult::Other("pass ".to_string()).is_pass());
    assert_eq!(Alignment::parse("s"), Alignment::Strict);
    assert_eq!(Alignment::parse("Strict"), Alignment::Strict);
    assert_eq!(Alignment::parse("R"), Alignment::Relaxed);
    assert_eq!(Alignment::parse("loose"), Alignment::Other("loose".to_string()));
}

#[test]
fn report_errors_describe_themselves() {
    assert_eq!(
        ParseError::MissingField("report_metadata").describe(),
        "missing required field: report_metadata"
    );
    assert_eq!(
        ParseError::InvalidValue { field: "report_metadata.date_range.begin", value: "soon".to_string() }
            .describe(),
        "invalid value in report_metadata.date_range.begin: \"soon\""
    );
    assert_eq!(
        ParseError::Read("unexpected end of file".to_string()).describe(),
        "failed to read report data: unexpected end of file"
    );
}
