//! Report sources inside a file's bytes: a plain XML report, a gzip stream
//! (`flate2`), or a zip archive (`zip`) holding any number of reports. A
//! broken entry or stream is kept as a failure of its own, so it does not
//! take the other reports with it.

use std::io::Read;
use vstd::prelude::*;
use crate::decimal::{decimal, u64_text};
use crate::input::{is_report_entry, SourceFormat};
use crate::text::ends_with_ignore_case;

verus! {

/// The bytes of one report source, or why they could not be had.
pub enum SourceBytes {
    /// The named source (a file, or `archive:entry`) and its report bytes.
    Report(String, Vec<u8>),
    /// The named source and the message of what failed.
    Broken(String, String),
}

pub ghost enum SourceBytesView {
    Report(Seq<char>, Seq<u8>),
    Broken(Seq<char>, Seq<char>),
}

impl View for SourceBytes {
    type V = SourceBytesView;

    open spec fn view(&self) -> SourceBytesView {
        match self {
            SourceBytes::Report(s, b) => SourceBytesView::Report(s@, b@),
            SourceBytes::Broken(s, m) => SourceBytesView::Broken(s@, m@),
        }
    }
}

pub open spec fn sources_view(v: Seq<SourceBytes>) -> Seq<SourceBytesView> {
    v.map_values(|s: SourceBytes| s@)
}

// ---------------------------------------------------------------------------
// Outside calls

/// What gunzipping `data` gives: the bytes of all its members, or the
/// message of the error that stopped it.
pub uninterp spec fn gunzip_of(data: Seq<u8>) -> Result<Seq<u8>, Seq<char>>;

/// The number of entries of the zip archive `data`, or the message of the
/// error that stops it from being opened.
pub uninterp spec fn zip_count_of(data: Seq<u8>) -> Result<nat, Seq<char>>;

/// The name of entry `i` of the zip archive `data` and whether it is a
/// directory, or the message of the error that stops it from being found.
pub uninterp spec fn zip_entry_of(data: Seq<u8>, i: nat) -> Result<(Seq<char>, bool), Seq<char>>;

/// The decompressed bytes of entry `i` of the zip archive `data`, or the
/// message of the error that stops them from being read.
pub uninterp spec fn zip_bytes_of(data: Seq<u8>, i: nat) -> Result<Seq<u8>, Seq<char>>;

/// Calls `flate2::read::MultiGzDecoder::new(data).read_to_end(..)`; on
/// failure, the error's `to_string()`. The contract claims only that the
/// outcome is a function of `data`, named `gunzip_of`.
#[verifier::external_body]
fn gunzip(data: &[u8]) -> (r: Result<Vec<u8>, String>)
    ensures
        match r {
            Ok(v) => gunzip_of(data@) == Ok::<Seq<u8>, Seq<char>>(v@),
            Err(e) => gunzip_of(data@) == Err::<Seq<u8>, Seq<char>>(e@),
        },
{
    let mut out = Vec::new();
    match flate2::read::MultiGzDecoder::new(data).read_to_end(&mut out) {
        Ok(_) => Ok(out),
        Err(e) => Err(e.to_string()),
    }
}

/// Calls `zip::ZipArchive::new` on `data` and `len()`; on failure, the
/// error's `to_string()`. The contract claims only that the outcome is a
/// function of `data`, named `zip_count_of`.
#[verifier::external_body]
fn zip_count(data: &[u8]) -> (r: Result<usize, String>)
    ensures
        match r {
            Ok(n) => zip_count_of(data@) == Ok::<nat, Seq<char>>(n as nat),
            Err(e) => zip_count_of(data@) == Err::<nat, Seq<char>>(e@),
        },
{
    match zip::ZipArchive::new(std::io::Cursor::new(data)) {
        Ok(archive) => Ok(archive.len()),
        Err(e) => Err(e.to_string()),
    }
}

/// Calls `zip::ZipArchive::new` on `data`, `by_index(i)`, and the entry's
/// `name()` and `is_dir()`; on failure, the error's `to_string()`. The
/// contract claims only that the outcome is a function of `data` and `i`,
/// named `zip_entry_of`.
#[verifier::external_body]
fn zip_entry(data: &[u8], i: usize) -> (r: Result<(String, bool), String>)
    ensures
        match r {
            Ok((name, dir)) => zip_entry_of(data@, i as nat) == Ok::<(Seq<char>, bool), Seq<char>>(
                (name@, dir),
            ),
            Err(e) => zip_entry_of(data@, i as nat) == Err::<(Seq<char>, bool), Seq<char>>(e@),
        },
{
    let mut archive = zip::ZipArchive::new(std::io::Cursor::new(data)).map_err(|e| e.to_string())?;
    let entry = archive.by_index(i).map_err(|e| e.to_string())?;
    let name = entry.name().map_err(|e| e.to_string())?.into_owned();
    Ok((name, entry.is_dir()))
}

/// Calls `zip::ZipArchive::new` on `data`, `by_index(i)` and the entry's
/// `read_to_end(..)`; on failure, the error's `to_string()`. The contract
/// claims only that the outcome is a function of `data` and `i`, named
/// `zip_bytes_of`.
#[verifier::external_body]
fn zip_bytes(data: &[u8], i: usize) -> (r: Result<Vec<u8>, String>)
    ensures
        match r {
            Ok(v) => zip_bytes_of(data@, i as nat) == Ok::<Seq<u8>, Seq<char>>(v@),
            Err(e) => zip_bytes_of(data@, i as nat) == Err::<Seq<u8>, Seq<char>>(e@),
        },
{
    let mut archive = zip::ZipArchive::new(std::io::Cursor::new(data)).map_err(|e| e.to_string())?;
    let mut entry = archive.by_index(i).map_err(|e| e.to_string())?;
    let mut out = Vec::new();
    entry.read_to_end(&mut out).map_err(|e| e.to_string())?;
    Ok(out)
}

// ---------------------------------------------------------------------------
// Sources

/// What entry `i` of the archive gives: a broken entry is a failure named
/// `archive:#i`; a report entry (a file whose name ends in `.xml`) is its
/// bytes, or a failure, named `archive:name`; any other entry gives nothing.
pub open spec fn entry_sources(archive: Seq<char>, data: Seq<u8>, i: nat) -> Seq<SourceBytesView> {
    match zip_entry_of(data, i) {
        Err(m) => seq![SourceBytesView::Broken(archive + ":#"@ + decimal(i), m)],
        Ok((name, dir)) => if !dir && ends_with_ignore_case(name, ".xml"@) {
            match zip_bytes_of(data, i) {
                Ok(b) => seq![SourceBytesView::Report(archive + ":"@ + name, b)],
                Err(m) => seq![SourceBytesView::Broken(archive + ":"@ + name, m)],
            }
        } else {
            Seq::empty()
        },
    }
}

/// What the first `n` entries of the archive give, in entry order.
pub open spec fn zip_listing(archive: Seq<char>, data: Seq<u8>, n: nat) -> Seq<SourceBytesView>
    decreases n,
{
    if n == 0 {
        Seq::empty()
    } else {
        zip_listing(archive, data, (n - 1) as nat) + entry_sources(archive, data, (n - 1) as nat)
    }
}

fn joined(a: &str, sep: &str, b: &str) -> (r: String)
    ensures
        r@ == a@ + sep@ + b@,
{
    let mut out = String::from_str(a);
    out.append(sep);
    out.append(b);
    out
}

/// The report sources of the zip archive `data`, named after `archive`:
/// `Err` exactly when the archive cannot be opened, else what each entry
/// gives, in entry order.
pub fn zip_sources(archive: &str, data: &[u8]) -> (r: Result<Vec<SourceBytes>, String>)
    ensures
        match r {
            Ok(v) => zip_count_of(data@) matches Ok(n) && sources_view(v@) == zip_listing(
                archive@,
                data@,
                n,
            ),
            Err(e) => zip_count_of(data@) == Err::<nat, Seq<char>>(e@),
        },
{
    let n = match zip_count(data) {
        Ok(n) => n,
        Err(e) => {
            return Err(e);
        },
    };
    proof {
        reveal_strlit(":#");
        reveal_strlit(":");
        reveal_strlit(".xml");
    }
    let mut out: Vec<SourceBytes> = Vec::new();
    let mut i: usize = 0;
    while i < n
        invariant
            i <= n,
            zip_count_of(data@) == Ok::<nat, Seq<char>>(n as nat),
            sources_view(out@) == zip_listing(archive@, data@, i as nat),
        decreases n - i,
    {
        let ghost before = sources_view(out@);
        match zip_entry(data, i) {
            Err(m) => {
                let index = u64_text(i as u64);
                let source = joined(archive, ":#", index.as_str());
                out.push(SourceBytes::Broken(source, m));
            },
            Ok((name, dir)) => {
                if is_report_entry(name.as_str(), dir) {
                    let source = joined(archive, ":", name.as_str());
                    match zip_bytes(data, i) {
                        Ok(b) => out.push(SourceBytes::Report(source, b)),
                        Err(m) => out.push(SourceBytes::Broken(source, m)),
                    }
                }
            },
        }
        assert(sources_view(out@) =~= before + entry_sources(archive@, data@, i as nat));
        i = i + 1;
    }
    Ok(out)
}

/// The report source of a gzip file: its decompressed bytes, or a failure,
/// named `path`.
pub fn gzip_source(path: &str, data: &[u8]) -> (r: SourceBytes)
    ensures
        r@ == match gunzip_of(data@) {
            Ok(b) => SourceBytesView::Report(path@, b),
            Err(m) => SourceBytesView::Broken(path@, m),
        },
{
    let name = String::from_str(path);
    match gunzip(data) {
        Ok(b) => SourceBytes::Report(name, b),
        Err(m) => SourceBytes::Broken(name, m),
    }
}

/// The report sources in the bytes of the file `path`, read as its format
/// says: a raw report, a gzip stream, or a zip archive (`Err` when the
/// archive cannot be opened). Files of no known format are not read.
pub fn file_sources(path: &str, format: SourceFormat, data: Vec<u8>) -> (r: Result<
    Vec<SourceBytes>,
    String,
>)
    requires
        format != SourceFormat::Unsupported,
    ensures
        match format {
            SourceFormat::Xml => r matches Ok(v) && sources_view(v@) == seq![
                SourceBytesView::Report(path@, data@),
            ],
            SourceFormat::Gzip => r matches Ok(v) && sources_view(v@) == seq![
                match gunzip_of(data@) {
                    Ok(b) => SourceBytesView::Report(path@, b),
                    Err(m) => SourceBytesView::Broken(path@, m),
                },
            ],
            _ => match r {
                Ok(v) => zip_count_of(data@) matches Ok(n) && sources_view(v@) == zip_listing(
                    path@,
                    data@,
                    n,
                ),
                Err(e) => zip_count_of(data@) == Err::<nat, Seq<char>>(e@),
            },
        },
{
    match format {
        SourceFormat::Xml => {
            let mut v: Vec<SourceBytes> = Vec::new();
            v.push(SourceBytes::Report(String::from_str(path), data));
            assert(sources_view(v@) =~= seq![SourceBytesView::Report(path@, data@)]);
            Ok(v)
        },
        SourceFormat::Gzip => {
            let mut v: Vec<SourceBytes> = Vec::new();
            let s = gzip_source(path, data.as_slice());
            let ghost sv = s@;
            v.push(s);
            assert(sources_view(v@) =~= seq![sv]);
            Ok(v)
        },
        _ => zip_sources(path, data.as_slice()),
    }
}

} // verus!
