use std::sync::Arc;
use std::time::Duration;

use ciallogcat::filter::{
    answer, compile_matcher, entry_matches, evaluate, evaluate_with, matcher_from, FilterRequest,
    FilterResult, FilterSender, FilterSpec, FilterTask,
};
use ciallogcat::log_store::LogStore;
use ciallogcat::model::{Level, LogEntry};
use ciallogcat::pattern::PatternFault;
use ciallogcat::view::{
    compile_highlight_regex, detail_header, detail_ranges, highlight_from, highlighted_parts,
    id_label, package_matches_search, parts_with_spans, preview_message, shows_segments, trim_line_end,
    RowPart,
};

fn entry(message: &str) -> LogEntry {
    let mut entry = LogEntry::new("", 1, 1, "Tag", Level::Info, message);
    entry.process = Some(Arc::from("com.example.app:worker"));
    entry
}

fn spec(query: &str, regex: bool, case_sensitive: bool) -> FilterSpec {
    FilterSpec {
        package: String::new(),
        min_level: Level::Verbose,
        query: query.to_owned(),
        regex,
        case_sensitive,
    }
}

#[test]
fn plain_text_is_not_treated_as_regex() {
    let spec = FilterSpec {
        package: String::new(),
        min_level: Level::Verbose,
        query: ".*".to_owned(),
        regex: false,
        case_sensitive: false,
    };
    let matcher = compile_matcher(&spec).unwrap().unwrap();
    assert!(matcher.is_match("literal .* value"));
    assert!(!matcher.is_match("anything"));
}

#[test]
fn package_and_regex_are_combined() {
    let spec = FilterSpec {
        package: "com.example.app".to_owned(),
        min_level: Level::Debug,
        query: "timeout|failed".to_owned(),
        regex: true,
        case_sensitive: false,
    };
    let matcher = compile_matcher(&spec).unwrap().unwrap();
    assert!(entry_matches(
        &entry("Request FAILED"),
        &spec,
        Some(&matcher)
    ));
    assert!(!entry_matches(
        &entry("Request complete"),
        &spec,
        Some(&matcher)
    ));
}

#[test]
fn every_character_of_plain_text_stands_for_itself() {
    let text = r"a\.+*?()|[]{}^$#&-~ é日";
    let matcher = compile_matcher(&spec(text, false, true)).unwrap().unwrap();
    assert!(matcher.is_match(&format!("<{text}>")));
    assert!(!matcher.is_match(&text.replace('a', "A")));
    let either = compile_matcher(&spec(text, false, false)).unwrap().unwrap();
    assert!(either.is_match(&text.replace('a', "A")));
    assert!(either.is_match(text));
}

#[test]
fn queries_are_compiled_or_explained() {
    assert!(compile_matcher(&spec("", true, false)).unwrap().is_none());
    let error = compile_matcher(&spec("(", true, false)).err().unwrap();
    assert!(error.starts_with("Invalid regex: "));
    assert!(error.contains("unclosed group"));
    let large = compile_matcher(&spec(r"\w{500}{500}", true, false))
        .err()
        .unwrap();
    assert!(large.starts_with("Invalid regex: "));
    assert_eq!(
        matcher_from(Err(PatternFault {
            syntax: true,
            text: "why".to_owned(),
        }))
        .err()
        .unwrap(),
        "Invalid regex: why"
    );
}

#[test]
fn package_level_and_query_all_count() {
    let mut wanted = spec("x", false, true);
    wanted.package = " com.example.app ".to_owned();
    wanted.min_level = Level::Info;
    let matcher = compile_matcher(&wanted).unwrap();
    assert!(entry_matches(&entry("x"), &wanted, matcher.as_ref()));
    assert!(!entry_matches(&entry("y"), &wanted, matcher.as_ref()));
    assert!(entry_matches(&entry("y"), &wanted, None));
    wanted.min_level = Level::Warn;
    assert!(!entry_matches(&entry("x"), &wanted, matcher.as_ref()));
    wanted.min_level = Level::Info;
    wanted.package = "com.example".to_owned();
    assert!(!entry_matches(&entry("x"), &wanted, matcher.as_ref()));
}

fn request(query: &str) -> FilterRequest {
    let mut store = LogStore::default();
    for message in ["alpha", "beta", "alphabet"] {
        store.push(entry(message));
    }
    FilterRequest {
        generation: 5,
        entries: Arc::new(store),
        spec: spec(query, true, false),
    }
}

#[test]
fn snapshots_are_filtered_in_order() {
    let request = request("alpha");
    let result = answer(&request, evaluate(&request), Duration::from_millis(3));
    assert_eq!(result.generation, 5);
    assert_eq!(result.processed_len, 3);
    assert_eq!(result.matches, [0, 2]);
    assert_eq!(result.elapsed, Duration::from_millis(3));
    assert_eq!(result.error, None);
    assert!(result.fits(3) && result.fits(4) && !result.fits(2));
    let all = evaluate_with(&request, Ok(None));
    assert_eq!(all.matches, [0, 1, 2]);
    let failed = evaluate_with(&request, Err("no".to_owned()));
    assert!(failed.matches.is_empty());
    assert_eq!(failed.error.as_deref(), Some("no"));
}

#[test]
fn results_out_of_order_do_not_fit() {
    let result = |matches: Vec<usize>| FilterResult {
        generation: 0,
        processed_len: 3,
        matches,
        elapsed: Duration::ZERO,
        error: None,
    };
    assert!(result(vec![0, 1, 2]).fits(3));
    assert!(!result(vec![1, 1]).fits(3));
    assert!(!result(vec![3]).fits(9));
}

#[test]
fn only_the_latest_request_waits() {
    let mut mailbox = FilterSender::default();
    assert!(matches!(mailbox.next(), FilterTask::Wait));
    mailbox.send(request("old"));
    mailbox.send(request("new"));
    assert!(matches!(mailbox.next(), FilterTask::Run(request) if request.spec.query == "new"));
    assert!(matches!(mailbox.next(), FilterTask::Wait));
    mailbox.send(request("late"));
    mailbox.close();
    assert!(matches!(mailbox.next(), FilterTask::Stop));
    assert!(mailbox.request.is_none());
}

#[test]
fn package_search_is_case_insensitive_substring_matching() {
    assert!(package_matches_search("com.Example.Ciallogcat", "example"));
    assert!(package_matches_search(
        "com.example.ciallogcat",
        " CIALLOG "
    ));
    assert!(package_matches_search("com.example.ciallogcat", ""));
    assert!(!package_matches_search("com.example.ciallogcat", "other"));
}

#[test]
fn package_search_ends_with_the_name() {
    assert!(package_matches_search("abc", "ABC"));
    assert!(!package_matches_search("abc", "abcd"));
    assert!(package_matches_search("xabc", "bc"));
    assert!(!package_matches_search("É", "é"));
}

fn sample(text: &str) -> LogEntry {
    LogEntry::new(
        "09-06 12:34:56.789",
        1234,
        1235,
        "NetworkClient",
        Level::ALL[0],
        format!("0: {text}"),
    )
}

#[test]
fn long_unicode_messages_keep_complete_copy_and_valid_segments() {
    let text = "请求🦀完成\n".repeat(10_000);
    let entry = sample(&text);
    assert!(preview_message(&text).len() <= 2048);
    let reconstructed: String = detail_ranges(&text)
        .iter()
        .map(|range| &text[range.clone()])
        .collect();
    assert_eq!(reconstructed, text);
    assert!(entry.copy_text().ends_with(&text));
}

#[test]
fn segments_are_short_and_end_at_lines() {
    let text = format!("{}\nab\r\n{}", "é".repeat(300), "x".repeat(513));
    let parts: Vec<&str> = detail_ranges(&text)
        .into_iter()
        .map(|range| &text[range])
        .collect();
    let lengths: Vec<usize> = parts.iter().map(|part| part.len()).collect();
    assert_eq!(lengths, [512, 89, 4, 512, 1]);
    assert_eq!(trim_line_end(parts[2]), "ab");
    assert_eq!(trim_line_end("a\n\r\n"), "a");
    assert!(detail_ranges("").is_empty());
}

#[test]
fn previews_end_between_characters() {
    let text = format!("x{}", "🦀".repeat(600));
    let preview = preview_message(&text);
    assert_eq!(preview.len(), 2045);
    assert!(text.starts_with(preview));
    assert_eq!(preview_message("short"), "short");
}

fn part(start: usize, end: usize, highlighted: bool) -> RowPart {
    RowPart {
        start,
        end,
        highlighted,
    }
}

#[test]
fn matches_are_highlighted_where_they_are() {
    let matcher = compile_highlight_regex("LO", false, false).unwrap();
    assert_eq!(
        highlighted_parts("hello lo!", Some(&matcher)),
        [
            part(0, 3, false),
            part(3, 5, true),
            part(5, 6, false),
            part(6, 8, true),
            part(8, 9, false)
        ]
    );
    assert_eq!(highlighted_parts("日志", None), [part(0, 6, false)]);
    let empty = compile_highlight_regex("x*", true, true).unwrap();
    assert_eq!(
        highlighted_parts("abc", Some(&empty)),
        [part(0, 0, true), part(0, 3, false)]
    );
    assert!(compile_highlight_regex("", true, true).is_none());
    assert!(compile_highlight_regex("(", true, true).is_none());
    let fault = PatternFault {
        syntax: false,
        text: "too large".to_owned(),
    };
    assert!(highlight_from(Err(fault)).is_none());
    let dot = compile_highlight_regex(".", false, true).unwrap();
    assert_eq!(
        highlighted_parts("a.", Some(&dot)),
        [part(0, 1, false), part(1, 2, true)]
    );
}

#[test]
fn only_so_many_matches_are_highlighted() {
    let spans: Vec<(usize, usize)> = (0..30).map(|i| (i, i + 1)).collect();
    let parts = parts_with_spans(30, &spans);
    assert_eq!(parts.len(), 25);
    assert_eq!(parts[23], part(23, 24, true));
    assert_eq!(parts[24], part(24, 30, false));
    assert_eq!(
        parts_with_spans(4, &vec![(1, 1), (2, 3)]),
        [part(0, 1, false), part(1, 1, true), part(1, 4, false)]
    );
}

#[test]
fn details_are_headed_by_where_they_come_from() {
    let mut entry = sample("x");
    assert_eq!(
        detail_header(&entry),
        "09-06 12:34:56.789  ·  1234/1235  ·  —  ·  NetworkClient"
    );
    entry.process = Some(Arc::from("app"));
    assert_eq!(
        detail_header(&entry),
        "09-06 12:34:56.789  ·  1234/1235  ·  app  ·  NetworkClient"
    );
    assert_eq!(id_label(&entry), "1234 / 1235");
    assert!(!shows_segments(&LogEntry::marker("x".repeat(16_384))));
    assert!(shows_segments(&LogEntry::marker("x".repeat(16_385))));
}

#[test]
fn plain_text_keeps_its_signs_with_the_case_ignored() {
    let matcher = compile_matcher(&spec("a.1", false, false)).unwrap().unwrap();
    assert!(matcher.is_match("xA.1y"));
    assert!(!matcher.is_match("ab1"));
    assert!(!matcher.is_match("a."));
    let kelvin = compile_matcher(&spec("k-", false, false)).unwrap().unwrap();
    assert!(kelvin.is_match("\u{212A}-"));
    assert!(!kelvin.is_match("\u{212A}+"));
}
