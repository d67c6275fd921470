//! The report tree as deserialized from XML, with every element optional,
//! and its conversion into the report model. Requiredness is enforced here,
//! where a broken record can be skipped (with a warning naming the field)
//! instead of failing the whole report.

use vstd::prelude::*;
use crate::decimal::{parse_i64, parse_i64_text, parse_u64, parse_u64_text, parse_u8, parse_u8_text};
use crate::ip::{parse_ip, parsed_ip};
use crate::model::{
    alignment_of, disposition_of, dmarc_result_of, opt_alignment, opt_disposition, opt_result,
    AlignmentView, DispositionView, DmarcResultView, ReportMetadataView, PolicyPublishedView,
    PolicyEvaluatedView, DkimAuthResultView, SpfAuthResultView, AuthResultsView, RecordView,
    RecordWarningView, AggregateReportView,
    opt_text, AggregateReport, Alignment, AuthResults, DateRange, Disposition, DkimAuthResult,
    DmarcResult, Identifiers, PolicyEvaluated, PolicyPublished, Record, RecordWarning,
    ReportMetadata, Row, SpfAuthResult,
};
use crate::text::{lower, lowercased, trim, trimmed};

verus! {

#[verifier::external_type_specification]
#[verifier::external_body]
pub struct ExDeError(quick_xml::DeError);

/// Errors that make an entire report unusable.
#[derive(Debug)]
pub enum ParseError {
    /// The bytes are not a well-formed report document.
    Xml(quick_xml::DeError),
    MissingField(&'static str),
    InvalidValue { field: &'static str, value: String },
    /// The report data could not be read (decompression, archive entry).
    Read(String),
}

pub ghost enum ParseFailure {
    Xml,
    MissingField(Seq<char>),
    InvalidValue(Seq<char>, Seq<char>),
    Read(Seq<char>),
}

impl View for ParseError {
    type V = ParseFailure;

    open spec fn view(&self) -> ParseFailure {
        match self {
            ParseError::Xml(_) => ParseFailure::Xml,
            ParseError::MissingField(f) => ParseFailure::MissingField(f@),
            ParseError::InvalidValue { field, value } => ParseFailure::InvalidValue(field@, value@),
            ParseError::Read(m) => ParseFailure::Read(m@),
        }
    }
}

#[derive(Debug, Clone)]
pub struct RawFeedback {
    pub report_metadata: Option<RawReportMetadata>,
    pub policy_published: Option<RawPolicyPublished>,
    pub record: Vec<RawRecord>,
}

#[derive(Debug, Clone)]
pub struct RawReportMetadata {
    pub org_name: Option<String>,
    pub email: Option<String>,
    pub report_id: Option<String>,
    pub date_range: Option<RawDateRange>,
}

#[derive(Debug, Clone)]
pub struct RawDateRange {
    pub begin: Option<String>,
    pub end: Option<String>,
}

#[derive(Debug, Clone)]
pub struct RawPolicyPublished {
    pub domain: Option<String>,
    pub adkim: Option<String>,
    pub aspf: Option<String>,
    pub p: Option<String>,
    pub sp: Option<String>,
    pub pct: Option<String>,
}

#[derive(Debug, Clone)]
pub struct RawRecord {
    pub row: Option<RawRow>,
    pub identifiers: Option<RawIdentifiers>,
    pub auth_results: Option<RawAuthResults>,
}

#[derive(Debug, Clone)]
pub struct RawRow {
    pub source_ip: Option<String>,
    pub count: Option<String>,
    pub policy_evaluated: Option<RawPolicyEvaluated>,
}

#[derive(Debug, Clone)]
pub struct RawPolicyEvaluated {
    pub disposition: Option<String>,
    pub dkim: Option<String>,
    pub spf: Option<String>,
}

#[derive(Debug, Clone)]
pub struct RawIdentifiers {
    pub header_from: Option<String>,
    pub envelope_from: Option<String>,
}

#[derive(Debug, Clone)]
pub struct RawAuthResults {
    pub dkim: Vec<RawDkimResult>,
    pub spf: Vec<RawSpfResult>,
}

#[derive(Debug, Clone)]
pub struct RawDkimResult {
    pub domain: Option<String>,
    pub result: Option<String>,
    pub selector: Option<String>,
}

#[derive(Debug, Clone)]
pub struct RawSpfResult {
    pub domain: Option<String>,
    pub result: Option<String>,
}

// ---------------------------------------------------------------------------
// Field-level rules

/// A present value: trimmed, and absent when nothing is left, so `<foo/>`
/// and `<foo>  </foo>` count as missing.
pub open spec fn present(o: Option<Seq<char>>) -> Option<Seq<char>> {
    match o {
        Some(s) => if trim(s).len() > 0 {
            Some(trim(s))
        } else {
            None
        },
        None => None,
    }
}

/// Trims and rejects empty strings.
pub fn non_empty(value: &Option<String>) -> (r: Option<String>)
    ensures
        opt_text(r) == present(opt_text(*value)),
{
    match value {
        Some(s) => {
            let t = trimmed(s.as_str());
            if t.unicode_len() == 0 {
                None
            } else {
                Some(t)
            }
        },
        None => None,
    }
}

/// A present value, or `MissingField(field)`.
pub fn required(value: &Option<String>, field: &'static str) -> (r: Result<String, ParseError>)
    ensures
        match r {
            Ok(s) => present(opt_text(*value)) == Some(s@),
            Err(e) => present(opt_text(*value)) is None && e@ == ParseFailure::MissingField(field@),
        },
{
    match non_empty(value) {
        Some(s) => Ok(s),
        None => Err(ParseError::MissingField(field)),
    }
}

/// Epoch seconds of a required field.
pub open spec fn epoch_outcome(v: Option<Seq<char>>, field: Seq<char>) -> Result<i64, ParseFailure> {
    match present(v) {
        None => Err(ParseFailure::MissingField(field)),
        Some(t) => match parse_i64_text(t) {
            Some(n) => Ok(n),
            None => Err(ParseFailure::InvalidValue(field, t)),
        },
    }
}

/// A required field holding epoch seconds.
pub fn parse_epoch(value: &Option<String>, field: &'static str) -> (r: Result<i64, ParseError>)
    ensures
        match r {
            Ok(n) => epoch_outcome(opt_text(*value), field@) == Ok::<i64, ParseFailure>(n),
            Err(e) => epoch_outcome(opt_text(*value), field@) == Err::<i64, ParseFailure>(e@),
        },
{
    let text = match required(value, field) {
        Ok(t) => t,
        Err(e) => {
            return Err(e);
        },
    };
    match parse_i64(text.as_str()) {
        Some(n) => Ok(n),
        None => Err(ParseError::InvalidValue { field, value: text }),
    }
}

/// `Debug` text of a string: quoted, with escapes.
pub uninterp spec fn debug_quoted(text: Seq<char>) -> Seq<char>;

/// Calls std's `Debug` for `str` (through `format!("{:?}")`). The contract
/// claims only that the text is a function of the input, named
/// `debug_quoted`.
#[verifier::external_body]
fn quoted(text: &str) -> (r: String)
    ensures
        r@ == debug_quoted(text@),
{
    format!("{:?}", text)
}

/// Calls `Display` of `quick_xml::DeError` (through `to_string()`). Nothing
/// is claimed of the text: the error is opaque here.
#[verifier::external_body]
fn xml_error_text(e: &quick_xml::DeError) -> (r: String) {
    e.to_string()
}

/// The message of a report-level error, apart from the XML parser's own
/// text.
pub open spec fn failure_text(f: ParseFailure, xml: Seq<char>) -> Seq<char> {
    match f {
        ParseFailure::Xml => "invalid XML: "@ + xml,
        ParseFailure::MissingField(field) => "missing required field: "@ + field,
        ParseFailure::InvalidValue(field, value) => "invalid value in "@ + field + ": "@
            + debug_quoted(value),
        ParseFailure::Read(m) => "failed to read report data: "@ + m,
    }
}

impl ParseError {
    /// The error's message: `invalid XML: ..`, `missing required field: ..`,
    /// `invalid value in <field>: "<value>"`, or `failed to read report
    /// data: ..`.
    pub fn describe(&self) -> (r: String)
        ensures
            exists|xml: Seq<char>| r@ == failure_text(self@, xml),
            !(self@ is Xml) ==> r@ == failure_text(self@, Seq::empty()),
    {
        let mut out;
        match self {
            ParseError::Xml(e) => {
                out = String::from_str("invalid XML: ");
                let text = xml_error_text(e);
                out.append(text.as_str());
                assert(out@ == failure_text(self@, text@));
            },
            ParseError::MissingField(field) => {
                out = String::from_str("missing required field: ");
                out.append(field);
                assert(out@ == failure_text(self@, Seq::empty()));
            },
            ParseError::InvalidValue { field, value } => {
                out = String::from_str("invalid value in ");
                out.append(field);
                out.append(": ");
                out.append(quoted(value.as_str()).as_str());
                assert(out@ == failure_text(self@, Seq::empty()));
            },
            ParseError::Read(message) => {
                out = String::from_str("failed to read report data: ");
                out.append(message.as_str());
                assert(out@ == failure_text(self@, Seq::empty()));
            },
        }
        out
    }
}

// ---------------------------------------------------------------------------
// Section-level rules

pub open spec fn alignment_field(v: Option<String>) -> Option<AlignmentView> {
    match present(opt_text(v)) {
        Some(t) => Some(alignment_of(t)),
        None => None,
    }
}

pub open spec fn disposition_field(v: Option<String>) -> Option<DispositionView> {
    match present(opt_text(v)) {
        Some(t) => Some(disposition_of(t)),
        None => None,
    }
}

pub open spec fn result_field(v: Option<String>) -> Option<DmarcResultView> {
    match present(opt_text(v)) {
        Some(t) => Some(dmarc_result_of(t)),
        None => None,
    }
}

/// `pct` is kept only when it is a number from 0 to 255.
pub open spec fn pct_field(v: Option<String>) -> Option<u8> {
    match present(opt_text(v)) {
        Some(t) => parse_u8_text(t),
        None => None,
    }
}

pub open spec fn metadata_outcome(raw: RawReportMetadata) -> Result<
    ReportMetadataView,
    ParseFailure,
> {
    match raw.date_range {
        None => Err(ParseFailure::MissingField("report_metadata.date_range"@)),
        Some(range) => match present(opt_text(raw.org_name)) {
            None => Err(ParseFailure::MissingField("report_metadata.org_name"@)),
            Some(org) => match present(opt_text(raw.report_id)) {
                None => Err(ParseFailure::MissingField("report_metadata.report_id"@)),
                Some(id) => match epoch_outcome(
                    opt_text(range.begin),
                    "report_metadata.date_range.begin"@,
                ) {
                    Err(e) => Err(e),
                    Ok(begin) => match epoch_outcome(
                        opt_text(range.end),
                        "report_metadata.date_range.end"@,
                    ) {
                        Err(e) => Err(e),
                        Ok(end) => Ok(
                            ReportMetadataView {
                                org_name: org,
                                email: present(opt_text(raw.email)),
                                report_id: id,
                                begin,
                                end,
                            },
                        ),
                    },
                },
            },
        },
    }
}

pub open spec fn policy_outcome(raw: RawPolicyPublished) -> Result<
    PolicyPublishedView,
    ParseFailure,
> {
    match present(opt_text(raw.domain)) {
        None => Err(ParseFailure::MissingField("policy_published.domain"@)),
        Some(domain) => Ok(
            PolicyPublishedView {
                domain,
                adkim: alignment_field(raw.adkim),
                aspf: alignment_field(raw.aspf),
                p: disposition_field(raw.p),
                sp: disposition_field(raw.sp),
                pct: pct_field(raw.pct),
            },
        ),
    }
}

impl RawReportMetadata {
    pub fn convert(&self) -> (r: Result<ReportMetadata, ParseError>)
        ensures
            match r {
                Ok(m) => metadata_outcome(*self) == Ok::<ReportMetadataView, ParseFailure>(m@),
                Err(e) => metadata_outcome(*self) == Err::<ReportMetadataView, ParseFailure>(e@),
            },
    {
        let range = match &self.date_range {
            Some(range) => range,
            None => {
                return Err(ParseError::MissingField("report_metadata.date_range"));
            },
        };
        let org_name = match required(&self.org_name, "report_metadata.org_name") {
            Ok(v) => v,
            Err(e) => {
                return Err(e);
            },
        };
        let email = non_empty(&self.email);
        let report_id = match required(&self.report_id, "report_metadata.report_id") {
            Ok(v) => v,
            Err(e) => {
                return Err(e);
            },
        };
        let begin = match parse_epoch(&range.begin, "report_metadata.date_range.begin") {
            Ok(v) => v,
            Err(e) => {
                return Err(e);
            },
        };
        let end = match parse_epoch(&range.end, "report_metadata.date_range.end") {
            Ok(v) => v,
            Err(e) => {
                return Err(e);
            },
        };
        Ok(
            ReportMetadata {
                org_name,
                email,
                report_id,
                date_range: DateRange { begin, end },
            },
        )
    }
}

/// `Some` of the parsed value when the field is present.
fn alignment_from(v: &Option<String>) -> (r: Option<Alignment>)
    ensures
        opt_alignment(r) == alignment_field(*v),
{
    match non_empty(v) {
        Some(s) => Some(Alignment::parse(s.as_str())),
        None => None,
    }
}

fn disposition_from(v: &Option<String>) -> (r: Option<Disposition>)
    ensures
        opt_disposition(r) == disposition_field(*v),
{
    match non_empty(v) {
        Some(s) => Some(Disposition::parse(s.as_str())),
        None => None,
    }
}

fn result_from(v: &Option<String>) -> (r: Option<DmarcResult>)
    ensures
        opt_result(r) == result_field(*v),
{
    match non_empty(v) {
        Some(s) => Some(DmarcResult::parse(s.as_str())),
        None => None,
    }
}

impl RawPolicyPublished {
    pub fn convert(&self) -> (r: Result<PolicyPublished, ParseError>)
        ensures
            match r {
                Ok(p) => policy_outcome(*self) == Ok::<PolicyPublishedView, ParseFailure>(p@),
                Err(e) => policy_outcome(*self) == Err::<PolicyPublishedView, ParseFailure>(e@),
            },
    {
        let domain = match required(&self.domain, "policy_published.domain") {
            Ok(v) => v,
            Err(e) => {
                return Err(e);
            },
        };
        let pct = match non_empty(&self.pct) {
            Some(s) => parse_u8(s.as_str()),
            None => None,
        };
        Ok(
            PolicyPublished {
                domain,
                adkim: alignment_from(&self.adkim),
                aspf: alignment_from(&self.aspf),
                p: disposition_from(&self.p),
                sp: disposition_from(&self.sp),
                pct,
            },
        )
    }
}

pub open spec fn evaluated_view(pe: Option<RawPolicyEvaluated>) -> PolicyEvaluatedView {
    match pe {
        Some(pe) => PolicyEvaluatedView {
            disposition: disposition_field(pe.disposition),
            dkim: result_field(pe.dkim),
            spf: result_field(pe.spf),
        },
        None => PolicyEvaluatedView { disposition: None, dkim: None, spf: None },
    }
}

/// A DKIM result carries a signal only with both a domain and a result.
pub open spec fn dkim_entry(d: RawDkimResult) -> Option<DkimAuthResultView> {
    match (present(opt_text(d.domain)), present(opt_text(d.result))) {
        (Some(domain), Some(result)) => Some(
            DkimAuthResultView { domain, result: lower(result), selector: present(opt_text(d.selector)) },
        ),
        _ => None,
    }
}

pub open spec fn dkim_entries(s: Seq<RawDkimResult>) -> Seq<DkimAuthResultView>
    decreases s.len(),
{
    if s.len() == 0 {
        Seq::empty()
    } else {
        let prev = dkim_entries(s.drop_last());
        match dkim_entry(s.last()) {
            Some(v) => prev.push(v),
            None => prev,
        }
    }
}

/// An SPF result carries a signal only with both a domain and a result.
pub open spec fn spf_entry(d: RawSpfResult) -> Option<SpfAuthResultView> {
    match (present(opt_text(d.domain)), present(opt_text(d.result))) {
        (Some(domain), Some(result)) => Some(SpfAuthResultView { domain, result: lower(result) }),
        _ => None,
    }
}

pub open spec fn spf_entries(s: Seq<RawSpfResult>) -> Seq<SpfAuthResultView>
    decreases s.len(),
{
    if s.len() == 0 {
        Seq::empty()
    } else {
        let prev = spf_entries(s.drop_last());
        match spf_entry(s.last()) {
            Some(v) => prev.push(v),
            None => prev,
        }
    }
}

pub open spec fn auth_view(a: Option<RawAuthResults>) -> AuthResultsView {
    match a {
        Some(a) => AuthResultsView { dkim: dkim_entries(a.dkim@), spf: spf_entries(a.spf@) },
        None => AuthResultsView { dkim: Seq::empty(), spf: Seq::empty() },
    }
}

/// A record, or the field path and message that cause it to be skipped.
pub open spec fn record_outcome(raw: RawRecord) -> Result<RecordView, (Seq<char>, Seq<char>)> {
    match raw.row {
        None => Err(("row"@, "element missing"@)),
        Some(row) => match present(opt_text(row.source_ip)) {
            None => Err(("row.source_ip"@, "element missing or empty"@)),
            Some(ip_text) => match parsed_ip(ip_text) {
                None => Err(("row.source_ip"@, "not an IP address: "@ + debug_quoted(ip_text))),
                Some(ip) => match present(opt_text(row.count)) {
                    None => Err(("row.count"@, "element missing or empty"@)),
                    Some(count_text) => match parse_u64_text(count_text) {
                        None => Err(("row.count"@, "not a number: "@ + debug_quoted(count_text))),
                        Some(count) => match raw.identifiers {
                            None => Err(("identifiers"@, "element missing"@)),
                            Some(ids) => match present(opt_text(ids.header_from)) {
                                None => Err(("identifiers.header_from"@, "element missing or empty"@)),
                                Some(header_from) => Ok(
                                    RecordView {
                                        source_ip: ip,
                                        count,
                                        policy_evaluated: evaluated_view(row.policy_evaluated),
                                        header_from,
                                        envelope_from: present(opt_text(ids.envelope_from)),
                                        auth_results: auth_view(raw.auth_results),
                                    },
                                ),
                            },
                        },
                    },
                },
            },
        },
    }
}

impl RawPolicyEvaluated {
    fn convert(&self) -> (r: PolicyEvaluated)
        ensures
            r@ == evaluated_view(Some(*self)),
    {
        PolicyEvaluated {
            disposition: disposition_from(&self.disposition),
            dkim: result_from(&self.dkim),
            spf: result_from(&self.spf),
        }
    }
}

impl RawAuthResults {
    /// Entries without a domain or result carry no signal and are dropped.
    pub fn convert(&self) -> (r: AuthResults)
        ensures
            r@ == auth_view(Some(*self)),
    {
        let mut dkim: Vec<DkimAuthResult> = Vec::new();
        let mut i: usize = 0;
        while i < self.dkim.len()
            invariant
                i <= self.dkim@.len(),
                dkim@.map_values(|d: DkimAuthResult| d@) == dkim_entries(
                    self.dkim@.subrange(0, i as int),
                ),
            decreases self.dkim@.len() - i,
        {
            let d = &self.dkim[i];
            assert(self.dkim@.subrange(0, i + 1).drop_last() =~= self.dkim@.subrange(0, i as int));
            let ghost before = dkim@.map_values(|d: DkimAuthResult| d@);
            match (non_empty(&d.domain), non_empty(&d.result)) {
                (Some(domain), Some(result)) => {
                    let entry = DkimAuthResult {
                        domain,
                        result: lowercased(result.as_str()),
                        selector: non_empty(&d.selector),
                    };
                    dkim.push(entry);
                    assert(dkim@.map_values(|d: DkimAuthResult| d@) =~= before.push(entry@));
                },
                _ => {},
            }
            i = i + 1;
        }
        let mut spf: Vec<SpfAuthResult> = Vec::new();
        let mut j: usize = 0;
        while j < self.spf.len()
            invariant
                j <= self.spf@.len(),
                spf@.map_values(|d: SpfAuthResult| d@) == spf_entries(
                    self.spf@.subrange(0, j as int),
                ),
            decreases self.spf@.len() - j,
        {
            let d = &self.spf[j];
            assert(self.spf@.subrange(0, j + 1).drop_last() =~= self.spf@.subrange(0, j as int));
            let ghost before = spf@.map_values(|d: SpfAuthResult| d@);
            match (non_empty(&d.domain), non_empty(&d.result)) {
                (Some(domain), Some(result)) => {
                    let entry = SpfAuthResult { domain, result: lowercased(result.as_str()) };
                    spf.push(entry);
                    assert(spf@.map_values(|d: SpfAuthResult| d@) =~= before.push(entry@));
                },
                _ => {},
            }
            j = j + 1;
        }
        assert(self.dkim@.subrange(0, self.dkim@.len() as int) =~= self.dkim@);
        assert(self.spf@.subrange(0, self.spf@.len() as int) =~= self.spf@);
        AuthResults { dkim, spf }
    }
}

pub open spec fn failure_view(f: (&'static str, String)) -> (Seq<char>, Seq<char>) {
    (f.0@, f.1@)
}

impl RawRecord {
    /// Converts one `<record>`; an `Err` carries the field path and a
    /// message and causes only this record to be skipped.
    pub fn convert(&self) -> (r: Result<Record, (&'static str, String)>)
        ensures
            match r {
                Ok(rec) => record_outcome(*self) == Ok::<RecordView, (Seq<char>, Seq<char>)>(rec@),
                Err(f) => record_outcome(*self) == Err::<RecordView, (Seq<char>, Seq<char>)>(
                    failure_view(f),
                ),
            },
    {
        let row = match &self.row {
            Some(row) => row,
            None => {
                return Err(("row", String::from_str("element missing")));
            },
        };
        let ip_text = match non_empty(&row.source_ip) {
            Some(t) => t,
            None => {
                return Err(("row.source_ip", String::from_str("element missing or empty")));
            },
        };
        let source_ip = match parse_ip(ip_text.as_str()) {
            Some(ip) => ip,
            None => {
                let mut message = String::from_str("not an IP address: ");
                message.append(quoted(ip_text.as_str()).as_str());
                return Err(("row.source_ip", message));
            },
        };
        let count_text = match non_empty(&row.count) {
            Some(t) => t,
            None => {
                return Err(("row.count", String::from_str("element missing or empty")));
            },
        };
        let count = match parse_u64(count_text.as_str()) {
            Some(c) => c,
            None => {
                let mut message = String::from_str("not a number: ");
                message.append(quoted(count_text.as_str()).as_str());
                return Err(("row.count", message));
            },
        };
        let policy_evaluated = match &row.policy_evaluated {
            Some(pe) => pe.convert(),
            None => PolicyEvaluated { disposition: None, dkim: None, spf: None },
        };
        let identifiers = match &self.identifiers {
            Some(ids) => ids,
            None => {
                return Err(("identifiers", String::from_str("element missing")));
            },
        };
        let header_from = match non_empty(&identifiers.header_from) {
            Some(h) => h,
            None => {
                return Err(
                    ("identifiers.header_from", String::from_str("element missing or empty")),
                );
            },
        };
        let auth_results = match &self.auth_results {
            Some(a) => a.convert(),
            None => AuthResults { dkim: Vec::new(), spf: Vec::new() },
        };
        let rec = Record {
            row: Row { source_ip, count, policy_evaluated },
            identifiers: Identifiers { header_from, envelope_from: non_empty(&identifiers.envelope_from) },
            auth_results,
        };
        assert(rec@.auth_results == auth_view(self.auth_results)) by {
            if self.auth_results is None {
                assert(rec@.auth_results.dkim =~= Seq::<DkimAuthResultView>::empty());
                assert(rec@.auth_results.spf =~= Seq::<SpfAuthResultView>::empty());
            }
        }
        Ok(rec)
    }
}

/// The records that convert, in document order.
pub open spec fn kept_records(s: Seq<RawRecord>) -> Seq<RecordView>
    decreases s.len(),
{
    if s.len() == 0 {
        Seq::empty()
    } else {
        let prev = kept_records(s.drop_last());
        match record_outcome(s.last()) {
            Ok(v) => prev.push(v),
            Err(_) => prev,
        }
    }
}

/// A warning for every record that does not convert, with its index.
pub open spec fn skipped_records(s: Seq<RawRecord>) -> Seq<RecordWarningView>
    decreases s.len(),
{
    if s.len() == 0 {
        Seq::empty()
    } else {
        let prev = skipped_records(s.drop_last());
        match record_outcome(s.last()) {
            Ok(_) => prev,
            Err((field, message)) => prev.push(
                RecordWarningView { record_index: (s.len() - 1) as usize, field, message },
            ),
        }
    }
}

/// The whole report: fails only when the metadata or the published policy
/// is unusable; broken records are skipped with a warning each.
pub open spec fn report_outcome(raw: RawFeedback) -> Result<AggregateReportView, ParseFailure> {
    match raw.report_metadata {
        None => Err(ParseFailure::MissingField("report_metadata"@)),
        Some(m) => match metadata_outcome(m) {
            Err(e) => Err(e),
            Ok(metadata) => match raw.policy_published {
                None => Err(ParseFailure::MissingField("policy_published"@)),
                Some(p) => match policy_outcome(p) {
                    Err(e) => Err(e),
                    Ok(policy_published) => Ok(
                        AggregateReportView {
                            metadata,
                            policy_published,
                            records: kept_records(raw.record@),
                            warnings: skipped_records(raw.record@),
                        },
                    ),
                },
            },
        },
    }
}

impl AggregateReport {
    /// Converts a deserialized report tree into a report.
    pub fn from_raw(raw: RawFeedback) -> (r: Result<AggregateReport, ParseError>)
        ensures
            match r {
                Ok(rep) => report_outcome(raw) == Ok::<AggregateReportView, ParseFailure>(rep@),
                Err(e) => report_outcome(raw) == Err::<AggregateReportView, ParseFailure>(e@),
            },
    {
        let metadata = match &raw.report_metadata {
            Some(m) => match m.convert() {
                Ok(v) => v,
                Err(e) => {
                    return Err(e);
                },
            },
            None => {
                return Err(ParseError::MissingField("report_metadata"));
            },
        };
        let policy_published = match &raw.policy_published {
            Some(p) => match p.convert() {
                Ok(v) => v,
                Err(e) => {
                    return Err(e);
                },
            },
            None => {
                return Err(ParseError::MissingField("policy_published"));
            },
        };
        let mut records: Vec<Record> = Vec::new();
        let mut warnings: Vec<RecordWarning> = Vec::new();
        let n = raw.record.len();
        let mut index: usize = 0;
        while index < n
            invariant
                n == raw.record@.len(),
                index <= n,
                records@.map_values(|r: Record| r@) == kept_records(
                    raw.record@.subrange(0, index as int),
                ),
                warnings@.map_values(|w: RecordWarning| w@) == skipped_records(
                    raw.record@.subrange(0, index as int),
                ),
            decreases n - index,
        {
            let ghost prefix = raw.record@.subrange(0, index + 1);
            assert(prefix.drop_last() =~= raw.record@.subrange(0, index as int));
            let ghost rv = records@.map_values(|r: Record| r@);
            let ghost wv = warnings@.map_values(|w: RecordWarning| w@);
            match raw.record[index].convert() {
                Ok(record) => {
                    records.push(record);
                    assert(records@.map_values(|r: Record| r@) =~= rv.push(record@));
                },
                Err((field, message)) => {
                    let w = RecordWarning { record_index: index, field: String::from_str(field), message };
                    warnings.push(w);
                    assert(warnings@.map_values(|w: RecordWarning| w@) =~= wv.push(w@));
                },
            }
            index = index + 1;
        }
        assert(raw.record@.subrange(0, n as int) =~= raw.record@);
        Ok(AggregateReport { metadata, policy_published, records, warnings })
    }
}

} // verus!
