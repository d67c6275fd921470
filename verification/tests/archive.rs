use std::io::{Cursor, Write};

use dmarc_lens::archive::{file_sources, gzip_source, zip_sources, SourceBytes};
use dmarc_lens::input::SourceFormat;

fn gz(bytes: &[u8]) -> Vec<u8> {
    let mut encoder = flate2::write::GzEncoder::new(Vec::new(), flate2::Compression::default());
    encoder.write_all(bytes).unwrap();
    encoder.finish().unwrap()
}

fn zip_of(entries: &[(&str, &[u8])], dirs: &[&str]) -> Vec<u8> {
    let mut writer = zip::ZipWriter::new(Cursor::new(Vec::new()));
    let options =
        zip::write::SimpleFileOptions::default().compression_method(zip::CompressionMethod::Stored);
    for dir in dirs {
        writer.add_directory(*dir, options).unwrap();
    }
    for (name, bytes) in entries {
        writer.start_file(*name, options).unwrap();
        writer.write_all(bytes).unwrap();
    }
    writer.finish().unwrap().into_inner()
}

fn describe(s: &SourceBytes) -> (String, Result<Vec<u8>, String>) {
    match s {
        SourceBytes::Report(name, bytes) => (name.clone(), Ok(bytes.clone())),
        SourceBytes::Broken(name, message) => (name.clone(), Err(message.clone())),
    }
}

#[test]
fn reads_gzipped_xml() {
    let data = gz(b"<feedback>google.com</feedback>");
    let (name, bytes) = describe(&gzip_source("google.xml.gz", &data));
    assert_eq!(name, "google.xml.gz");
    assert_eq!(bytes.unwrap(), b"<feedback>google.com</feedback>".to_vec());
}

#[test]
fn corrupt_gzip_is_a_per_file_error() {
    let (name, bytes) = describe(&gzip_source("bad.xml.gz", b"definitely not gzip"));
    assert_eq!(name, "bad.xml.gz");
    assert!(bytes.is_err());
}

#[test]
fn reads_zip_with_multiple_reports() {
    let data = zip_of(
        &[("google.xml", b"<a/>"), ("readme.txt", b"ignore me"), ("microsoft.XML", b"<b/>")],
        &["nested.xml/"],
    );
    let sources = zip_sources("reports.zip", &data).unwrap();
    let seen: Vec<_> = sources.iter().map(describe).collect();
    assert_eq!(
        seen,
        vec![
            ("reports.zip:google.xml".to_string(), Ok(b"<a/>".to_vec())),
            ("reports.zip:microsoft.XML".to_string(), Ok(b"<b/>".to_vec())),
        ]
    );
}

#[test]
fn zip_with_one_broken_entry_keeps_the_rest() {
    let data = zip_of(&[("broken.xml", b"<feedback>"), ("google.xml", b"<feedback/>")], &[]);
    let sources = zip_sources("mixed.zip", &data).unwrap();
    let names: Vec<String> = sources.iter().map(|s| describe(s).0).collect();
    assert_eq!(names, ["mixed.zip:broken.xml", "mixed.zip:google.xml"]);
}

#[test]
fn empty_zip_yields_no_reports() {
    let data = zip_of(&[], &[]);
    assert!(zip_sources("empty.zip", &data).unwrap().is_empty());
}

#[test]
fn unreadable_zip_is_an_error() {
    assert!(zip_sources("bad.zip", b"PK not really").is_err());
}

#[test]
fn file_sources_follow_the_format() {
    let xml = file_sources("a.xml", SourceFormat::Xml, b"<x/>".to_vec()).unwrap();
    assert_eq!(xml.iter().map(describe).collect::<Vec<_>>(), vec![("a.xml".to_string(), Ok(b"<x/>".to_vec()))]);
    let gzip = file_sources("a.gz", SourceFormat::Gzip, gz(b"<y/>")).unwrap();
    assert_eq!(gzip.iter().map(describe).collect::<Vec<_>>(), vec![("a.gz".to_string(), Ok(b"<y/>".to_vec()))]);
    let zipped = file_sources("a.zip", SourceFormat::Zip, zip_of(&[("r.xml", b"<z/>")], &[])).unwrap();
    assert_eq!(zipped.iter().map(describe).collect::<Vec<_>>(), vec![("a.zip:r.xml".to_string(), Ok(b"<z/>".to_vec()))]);
}
