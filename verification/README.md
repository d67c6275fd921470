# dmarc-lens

A forgiving analyzer for DMARC aggregate reports (RUA, RFC 7489 Appendix C):
point it at report files (`.xml`, `.xml.gz`, `.zip`) or directories and get a
delivery-health summary — DMARC pass rate, DKIM/SPF alignment breakdown, top
sending sources, sources failing both DKIM and SPF, and reporters.

The report rules, reading report sources out of gzip streams and zip
archives, the aggregation and the human-readable rendering are a library
verified with Verus; the command line, the file system, XML
deserialization and JSON output are a thin program around it.

## Layout

- `src/` — the verified library (`dmarc_lens`):
  - `model.rs` — the report model and the normalization of enumerated values
  - `raw.rs` — the deserialized report tree and its conversion into the model:
    report-level errors, per-record warnings
  - `ip.rs`, `decimal.rs`, `text.rs` — address, number and text handling
  - `archive.rs` — the report sources in a file's bytes: plain, gzip (`flate2`)
    or zip (`zip`), each broken entry kept apart
  - `paths.rs` — the order of file paths, component by component
  - `clock.rs` — UTC calendar dates from `chrono`
  - `summary.rs` — filters and the aggregation into a summary
  - `render.rs` — the human-readable summary
  - `input.rs` — recognizing report files by name, gathering what the
    sources gave, exit status
  - `laws/` — properties of the library as a whole: what conversion keeps of
    a report, what the summary keeps of the reports (in any order), and how
    numbers and addresses are written
- `app/` — the `dmarc-lens` program: arguments, directory walk, reading
  files, XML deserialization, JSON output, floating-point ratios
- `tests/` — tests of the library

## Usage

```
dmarc-lens summary <PATH>... [--format human|json] [--since YYYY-MM-DD]
                             [--until YYYY-MM-DD] [--domain DOMAIN] [--top N]
```

Exit codes: `0` success (even with some unparseable files), `1` no valid
reports found, `2` usage error.
