//! Data model of a DMARC aggregate report (RFC 7489 Appendix C), with the
//! views that contracts speak of.

use vstd::prelude::*;
use crate::decimal::{decimal, u64_text};
use crate::text::{lower, lowercased, same_text, trim, trimmed};

verus! {

/// A source address: IPv4 as its 32-bit value, IPv6 as its 128-bit value.
#[derive(Debug, Clone, Copy, PartialEq, Eq, Structural)]
pub enum IpAddress {
    V4(u32),
    V6(u128),
}

impl IpAddress {
    /// Address order: every IPv4 address before every IPv6 address, then by
    /// numeric value.
    pub open spec fn precedes(self, other: IpAddress) -> bool {
        match (self, other) {
            (IpAddress::V4(a), IpAddress::V4(b)) => a < b,
            (IpAddress::V4(_), IpAddress::V6(_)) => true,
            (IpAddress::V6(_), IpAddress::V4(_)) => false,
            (IpAddress::V6(a), IpAddress::V6(b)) => a < b,
        }
    }

    /// Whether `self` comes strictly before `other` in address order.
    pub fn is_before(&self, other: &IpAddress) -> (r: bool)
        ensures
            r == self.precedes(*other),
    {
        match (self, other) {
            (IpAddress::V4(a), IpAddress::V4(b)) => *a < *b,
            (IpAddress::V4(_), IpAddress::V6(_)) => true,
            (IpAddress::V6(_), IpAddress::V4(_)) => false,
            (IpAddress::V6(a), IpAddress::V6(b)) => *a < *b,
        }
    }
}

/// A parsed DMARC aggregate report.
#[derive(Debug, Clone)]
pub struct AggregateReport {
    pub metadata: ReportMetadata,
    pub policy_published: PolicyPublished,
    pub records: Vec<Record>,
    /// Records that were skipped because a required field was missing or invalid.
    pub warnings: Vec<RecordWarning>,
}

#[derive(Debug, Clone)]
pub struct ReportMetadata {
    pub org_name: String,
    pub email: Option<String>,
    pub report_id: String,
    pub date_range: DateRange,
}

/// Report window as epoch seconds (UTC).
#[derive(Debug, Clone, Copy)]
pub struct DateRange {
    pub begin: i64,
    pub end: i64,
}

#[derive(Debug, Clone)]
pub struct PolicyPublished {
    pub domain: String,
    pub adkim: Option<Alignment>,
    pub aspf: Option<Alignment>,
    pub p: Option<Disposition>,
    pub sp: Option<Disposition>,
    pub pct: Option<u8>,
}

#[derive(Debug, Clone)]
pub struct Record {
    pub row: Row,
    pub identifiers: Identifiers,
    pub auth_results: AuthResults,
}

#[derive(Debug, Clone)]
pub struct Row {
    pub source_ip: IpAddress,
    pub count: u64,
    pub policy_evaluated: PolicyEvaluated,
}

/// Aggregate verdicts. Fields are `None` when the reporter omitted them.
#[derive(Debug, Clone)]
pub struct PolicyEvaluated {
    pub disposition: Option<Disposition>,
    pub dkim: Option<DmarcResult>,
    pub spf: Option<DmarcResult>,
}

#[derive(Debug, Clone)]
pub struct Identifiers {
    pub header_from: String,
    pub envelope_from: Option<String>,
}

#[derive(Debug, Clone)]
pub struct AuthResults {
    pub dkim: Vec<DkimAuthResult>,
    pub spf: Vec<SpfAuthResult>,
}

/// Raw DKIM verification result. `result` is kept as a lowercased string
/// (`pass`, `fail`, `neutral`, `temperror`, ...) to stay tolerant of dialects.
#[derive(Debug, Clone)]
pub struct DkimAuthResult {
    pub domain: String,
    pub result: String,
    pub selector: Option<String>,
}

#[derive(Debug, Clone)]
pub struct SpfAuthResult {
    pub domain: String,
    pub result: String,
}

/// Policy disposition (`p`, `sp`, and `policy_evaluated.disposition`).
#[derive(Debug, Clone, PartialEq, Eq)]
pub enum Disposition {
    /// `none`: the policy asks for no action.
    NoAction,
    Quarantine,
    Reject,
    Other(String),
}

/// DMARC-aligned result from `policy_evaluated`.
#[derive(Debug, Clone, PartialEq, Eq)]
pub enum DmarcResult {
    Pass,
    Fail,
    Other(String),
}

/// Alignment mode (`adkim` / `aspf`).
#[derive(Debug, Clone, PartialEq, Eq)]
pub enum Alignment {
    Relaxed,
    Strict,
    Other(String),
}

/// A record that was skipped during conversion, with the offending field.
#[derive(Debug, Clone)]
pub struct RecordWarning {
    /// Zero-based index of the `<record>` element in the report.
    pub record_index: usize,
    /// Dotted path of the field that was missing or invalid.
    pub field: String,
    pub message: String,
}

// ---------------------------------------------------------------------------
// Views

pub ghost enum DispositionView {
    NoAction,
    Quarantine,
    Reject,
    Other(Seq<char>),
}

pub ghost enum DmarcResultView {
    Pass,
    Fail,
    Other(Seq<char>),
}

pub ghost enum AlignmentView {
    Relaxed,
    Strict,
    Other(Seq<char>),
}

pub ghost struct ReportMetadataView {
    pub org_name: Seq<char>,
    pub email: Option<Seq<char>>,
    pub report_id: Seq<char>,
    pub begin: i64,
    pub end: i64,
}

pub ghost struct PolicyPublishedView {
    pub domain: Seq<char>,
    pub adkim: Option<AlignmentView>,
    pub aspf: Option<AlignmentView>,
    pub p: Option<DispositionView>,
    pub sp: Option<DispositionView>,
    pub pct: Option<u8>,
}

pub ghost struct PolicyEvaluatedView {
    pub disposition: Option<DispositionView>,
    pub dkim: Option<DmarcResultView>,
    pub spf: Option<DmarcResultView>,
}

pub ghost struct DkimAuthResultView {
    pub domain: Seq<char>,
    pub result: Seq<char>,
    pub selector: Option<Seq<char>>,
}

pub ghost struct SpfAuthResultView {
    pub domain: Seq<char>,
    pub result: Seq<char>,
}

pub ghost struct AuthResultsView {
    pub dkim: Seq<DkimAuthResultView>,
    pub spf: Seq<SpfAuthResultView>,
}

pub ghost struct RecordView {
    pub source_ip: IpAddress,
    pub count: u64,
    pub policy_evaluated: PolicyEvaluatedView,
    pub header_from: Seq<char>,
    pub envelope_from: Option<Seq<char>>,
    pub auth_results: AuthResultsView,
}

pub ghost struct RecordWarningView {
    pub record_index: usize,
    pub field: Seq<char>,
    pub message: Seq<char>,
}

pub ghost struct AggregateReportView {
    pub metadata: ReportMetadataView,
    pub policy_published: PolicyPublishedView,
    pub records: Seq<RecordView>,
    pub warnings: Seq<RecordWarningView>,
}

/// View of an optional string.
pub open spec fn opt_text(o: Option<String>) -> Option<Seq<char>> {
    match o {
        Some(s) => Some(s@),
        None => None,
    }
}

impl View for Disposition {
    type V = DispositionView;

    open spec fn view(&self) -> DispositionView {
        match self {
            Disposition::NoAction => DispositionView::NoAction,
            Disposition::Quarantine => DispositionView::Quarantine,
            Disposition::Reject => DispositionView::Reject,
            Disposition::Other(s) => DispositionView::Other(s@),
        }
    }
}

impl View for DmarcResult {
    type V = DmarcResultView;

    open spec fn view(&self) -> DmarcResultView {
        match self {
            DmarcResult::Pass => DmarcResultView::Pass,
            DmarcResult::Fail => DmarcResultView::Fail,
            DmarcResult::Other(s) => DmarcResultView::Other(s@),
        }
    }
}

impl View for Alignment {
    type V = AlignmentView;

    open spec fn view(&self) -> AlignmentView {
        match self {
            Alignment::Relaxed => AlignmentView::Relaxed,
            Alignment::Strict => AlignmentView::Strict,
            Alignment::Other(s) => AlignmentView::Other(s@),
        }
    }
}

pub open spec fn opt_disposition(o: Option<Disposition>) -> Option<DispositionView> {
    match o {
        Some(d) => Some(d@),
        None => None,
    }
}

pub open spec fn opt_result(o: Option<DmarcResult>) -> Option<DmarcResultView> {
    match o {
        Some(d) => Some(d@),
        None => None,
    }
}

pub open spec fn opt_alignment(o: Option<Alignment>) -> Option<AlignmentView> {
    match o {
        Some(d) => Some(d@),
        None => None,
    }
}

impl View for ReportMetadata {
    type V = ReportMetadataView;

    open spec fn view(&self) -> ReportMetadataView {
        ReportMetadataView {
            org_name: self.org_name@,
            email: opt_text(self.email),
            report_id: self.report_id@,
            begin: self.date_range.begin,
            end: self.date_range.end,
        }
    }
}

impl View for PolicyPublished {
    type V = PolicyPublishedView;

    open spec fn view(&self) -> PolicyPublishedView {
        PolicyPublishedView {
            domain: self.domain@,
            adkim: opt_alignment(self.adkim),
            aspf: opt_alignment(self.aspf),
            p: opt_disposition(self.p),
            sp: opt_disposition(self.sp),
            pct: self.pct,
        }
    }
}

impl View for PolicyEvaluated {
    type V = PolicyEvaluatedView;

    open spec fn view(&self) -> PolicyEvaluatedView {
        PolicyEvaluatedView {
            disposition: opt_disposition(self.disposition),
            dkim: opt_result(self.dkim),
            spf: opt_result(self.spf),
        }
    }
}

impl View for DkimAuthResult {
    type V = DkimAuthResultView;

    open spec fn view(&self) -> DkimAuthResultView {
        DkimAuthResultView {
            domain: self.domain@,
            result: self.result@,
            selector: opt_text(self.selector),
        }
    }
}

impl View for SpfAuthResult {
    type V = SpfAuthResultView;

    open spec fn view(&self) -> SpfAuthResultView {
        SpfAuthResultView { domain: self.domain@, result: self.result@ }
    }
}

impl View for AuthResults {
    type V = AuthResultsView;

    open spec fn view(&self) -> AuthResultsView {
        AuthResultsView {
            dkim: self.dkim@.map_values(|d: DkimAuthResult| d@),
            spf: self.spf@.map_values(|s: SpfAuthResult| s@),
        }
    }
}

impl View for Record {
    type V = RecordView;

    open spec fn view(&self) -> RecordView {
        RecordView {
            source_ip: self.row.source_ip,
            count: self.row.count,
            policy_evaluated: self.row.policy_evaluated@,
            header_from: self.identifiers.header_from@,
            envelope_from: opt_text(self.identifiers.envelope_from),
            auth_results: self.auth_results@,
        }
    }
}

impl View for RecordWarning {
    type V = RecordWarningView;

    open spec fn view(&self) -> RecordWarningView {
        RecordWarningView {
            record_index: self.record_index,
            field: self.field@,
            message: self.message@,
        }
    }
}

impl View for AggregateReport {
    type V = AggregateReportView;

    open spec fn view(&self) -> AggregateReportView {
        AggregateReportView {
            metadata: self.metadata@,
            policy_published: self.policy_published@,
            records: self.records@.map_values(|r: Record| r@),
            warnings: self.warnings@.map_values(|w: RecordWarning| w@),
        }
    }
}

// ---------------------------------------------------------------------------
// Normalizing parsers for the enumerated values

/// A value as the parsers compare it: trimmed, then ASCII-lowercased.
pub open spec fn normalized(s: Seq<char>) -> Seq<char> {
    lower(trim(s))
}

pub open spec fn disposition_of(s: Seq<char>) -> DispositionView {
    let t = normalized(s);
    if t == "none"@ {
        DispositionView::NoAction
    } else if t == "quarantine"@ {
        DispositionView::Quarantine
    } else if t == "reject"@ {
        DispositionView::Reject
    } else {
        DispositionView::Other(t)
    }
}

pub open spec fn disposition_text(d: DispositionView) -> Seq<char> {
    match d {
        DispositionView::NoAction => "none"@,
        DispositionView::Quarantine => "quarantine"@,
        DispositionView::Reject => "reject"@,
        DispositionView::Other(s) => s,
    }
}

pub open spec fn dmarc_result_of(s: Seq<char>) -> DmarcResultView {
    let t = normalized(s);
    if t == "pass"@ {
        DmarcResultView::Pass
    } else if t == "fail"@ {
        DmarcResultView::Fail
    } else {
        DmarcResultView::Other(t)
    }
}

pub open spec fn alignment_of(s: Seq<char>) -> AlignmentView {
    let t = normalized(s);
    if t == "r"@ || t == "relaxed"@ {
        AlignmentView::Relaxed
    } else if t == "s"@ || t == "strict"@ {
        AlignmentView::Strict
    } else {
        AlignmentView::Other(t)
    }
}

/// Trimmed, lowercased copy of `value`.
fn normalize(value: &str) -> (r: String)
    ensures
        r@ == normalized(value@),
{
    let t = trimmed(value);
    lowercased(t.as_str())
}

impl Disposition {
    /// Case- and whitespace-insensitive; unknown values are kept as `Other`.
    pub fn parse(value: &str) -> (r: Self)
        ensures
            r@ == disposition_of(value@),
    {
        let t = normalize(value);
        if same_text(t.as_str(), "none") {
            Disposition::NoAction
        } else if same_text(t.as_str(), "quarantine") {
            Disposition::Quarantine
        } else if same_text(t.as_str(), "reject") {
            Disposition::Reject
        } else {
            Disposition::Other(t)
        }
    }

    pub fn as_str(&self) -> (r: &str)
        ensures
            r@ == disposition_text(self@),
    {
        match self {
            Disposition::NoAction => "none",
            Disposition::Quarantine => "quarantine",
            Disposition::Reject => "reject",
            Disposition::Other(s) => s.as_str(),
        }
    }
}

impl DmarcResult {
    /// Case- and whitespace-insensitive; unknown values are kept as `Other`.
    pub fn parse(value: &str) -> (r: Self)
        ensures
            r@ == dmarc_result_of(value@),
    {
        let t = normalize(value);
        if same_text(t.as_str(), "pass") {
            DmarcResult::Pass
        } else if same_text(t.as_str(), "fail") {
            DmarcResult::Fail
        } else {
            DmarcResult::Other(t)
        }
    }

    pub fn is_pass(&self) -> (r: bool)
        ensures
            r == (self@ == DmarcResultView::Pass),
    {
        match self {
            DmarcResult::Pass => true,
            _ => false,
        }
    }
}

impl Alignment {
    /// `r`/`relaxed` and `s`/`strict`, case- and whitespace-insensitive;
    /// unknown values are kept as `Other`.
    pub fn parse(value: &str) -> (r: Self)
        ensures
            r@ == alignment_of(value@),
    {
        let t = normalize(value);
        if same_text(t.as_str(), "r") || same_text(t.as_str(), "relaxed") {
            Alignment::Relaxed
        } else if same_text(t.as_str(), "s") || same_text(t.as_str(), "strict") {
            Alignment::Strict
        } else {
            Alignment::Other(t)
        }
    }
}

pub open spec fn warning_text(w: RecordWarningView) -> Seq<char> {
    "record "@ + decimal(w.record_index as nat) + " skipped: "@ + w.field + " ("@ + w.message
        + ")"@
}

impl RecordWarning {
    /// `record <index> skipped: <field> (<message>)`.
    pub fn describe(&self) -> (r: String)
        ensures
            r@ == warning_text(self@),
    {
        let mut out = String::from_str("record ");
        let index = u64_text(self.record_index as u64);
        out.append(index.as_str());
        out.append(" skipped: ");
        out.append(self.field.as_str());
        out.append(" (");
        out.append(self.message.as_str());
        out.append(")");
        out
    }
}

} // verus!
