use std::sync::Arc;

use ciallogcat::config::{
    clamp_limit, config_location, legacy_directory, reads_legacy, AppConfig, ConfigEnvironment,
    ConfigVariable,
};
use ciallogcat::history::{record, HISTORY_LIMIT};
use ciallogcat::model::{Level, LogBuffer, LogEntry, SavedFilter};
use ciallogcat::render::{format_count, parse_number, signed_decimal};
use ciallogcat::saved::save_filter;
use ciallogcat::text::{
    comes_before, first_line, is_blank, is_white_space, split_lines, split_words, strip_prefix,
    trim,
};

#[test]
fn package_filter_includes_secondary_processes() {
    let mut entry = LogEntry::new("", 1, 1, "Tag", Level::Info, "message");
    entry.process = Some(Arc::from("com.example.app:sync"));

    assert!(entry.matches_package("com.example.app"));
    assert!(entry.matches_package("com.example.app:sync"));
    assert!(!entry.matches_package("com.example.other"));
}

#[test]
fn a_longer_name_is_another_package() {
    let mut entry = LogEntry::marker("message");
    assert!(entry.matches_package(""));
    assert!(!entry.matches_package("com.example"));
    entry.process = Some(Arc::from("com.example.app"));
    assert!(!entry.matches_package("com.example"));
    assert!(entry.matches_package("com.example.app"));
    assert!(!entry.matches_package("com.example.app:"));
}

#[test]
fn level_letters_are_parsed() {
    assert_eq!(Level::from_letter('V'), Some(Level::Verbose));
    assert_eq!(Level::from_letter('A'), Some(Level::Fatal));
    assert_eq!(Level::from_letter('S'), None);
}

#[test]
fn levels_are_read_back_from_their_letters() {
    for (rank, level) in Level::ALL.into_iter().enumerate() {
        let letter = level.short().chars().next().unwrap();
        assert_eq!(Level::from_letter(letter), Some(level));
        for (other, minimum) in Level::ALL.into_iter().enumerate() {
            assert_eq!(level.at_least(minimum), rank >= other);
        }
    }
    assert_eq!(Level::default(), Level::Verbose);
    let color = Level::Warn.color(true);
    assert_eq!((color.red, color.green, color.blue), (239, 190, 82));
    assert_eq!(Level::Error.color(false), Level::Fatal.color(false));
}

#[test]
fn buffers_are_normalized_once_and_for_all() {
    let mut buffers = vec![
        LogBuffer::Radio,
        LogBuffer::Main,
        LogBuffer::Radio,
        LogBuffer::Events,
    ];
    LogBuffer::normalize(&mut buffers);
    assert_eq!(
        buffers,
        [LogBuffer::Main, LogBuffer::Events, LogBuffer::Radio]
    );
    LogBuffer::normalize(&mut buffers);
    assert_eq!(
        buffers,
        [LogBuffer::Main, LogBuffer::Events, LogBuffer::Radio]
    );
    let mut all = vec![LogBuffer::Main, LogBuffer::All];
    LogBuffer::normalize(&mut all);
    assert_eq!(all, [LogBuffer::All]);
    let mut none = Vec::new();
    LogBuffer::normalize(&mut none);
    assert_eq!(none, LogBuffer::defaults());
    let names: Vec<_> = LogBuffer::CHOICES.iter().map(|b| b.name()).collect();
    assert_eq!(names, ["main", "system", "crash", "events", "radio", "all"]);
}

#[test]
fn entries_account_for_their_texts() {
    let mut entry = LogEntry::new("12", 1, 2, "tag", Level::Debug, "日志");
    assert_eq!(entry.payload_bytes(), 2 + 3 + 6 + 192);
    entry.process = Some(Arc::from("app"));
    assert_eq!(entry.payload_bytes(), 2 + 3 + 6 + 3 + 192);
}

#[test]
fn copied_entries_are_aligned() {
    let mut entry = LogEntry::new("08-29 15:42:10.123", 42, 123456, "Tag", Level::Error, "a\nb");
    assert_eq!(
        entry.copy_text(),
        format!("08-29 15:42:10.123    42 123456 E {:<24} Tag: a\nb", "—")
    );
    entry.process = Some(Arc::from("com.example.application:worker"));
    assert_eq!(
        entry.copy_text(),
        "08-29 15:42:10.123    42 123456 E com.example.application:worker Tag: a\nb"
    );
    assert_eq!(entry.first_line(), "a");
    assert_eq!(entry.process_name(), "com.example.application:worker");
    let copy = entry.clone();
    assert_eq!(copy.copy_text(), entry.copy_text());
}

#[test]
fn records_exact_text_and_moves_reused_queries_to_front() {
    let mut entries = Vec::new();
    for query in ["", "  ", " timeout|失败 ", "second", " timeout|失败 "] {
        record(&mut entries, query);
    }
    assert_eq!(entries, [" timeout|失败 ", "second"]);
}

#[test]
fn discards_oldest_entries_at_limit() {
    let mut entries = Vec::new();
    for index in 0..600 {
        record(&mut entries, &index.to_string());
    }
    assert_eq!(entries.len(), HISTORY_LIMIT);
    assert_eq!(entries[0], "599");
    assert_eq!(entries[HISTORY_LIMIT - 1], "100");
}

#[test]
fn recording_a_query_again_changes_nothing() {
    let mut entries = vec!["a".to_owned(), "b".to_owned()];
    record(&mut entries, "c");
    let once = entries.clone();
    record(&mut entries, "c");
    assert_eq!(entries, once);
}

fn saved(name: &str) -> SavedFilter {
    SavedFilter {
        name: name.to_owned(),
        package: String::new(),
        min_level: Level::Verbose,
        query: name.to_owned(),
        regex: false,
        case_sensitive: false,
    }
}

#[test]
fn saved_filters_are_in_order_whatever_their_case() {
    let mut list = Vec::new();
    for name in ["beta", "Alpha", "ÄGAIN", "ALPHA", "Gamma"] {
        save_filter(&mut list, saved(name));
    }
    let names: Vec<_> = list.iter().map(|filter| filter.name.as_str()).collect();
    assert_eq!(names, ["Alpha", "ALPHA", "beta", "Gamma", "ÄGAIN"]);
    let mut other = saved("beta");
    other.query = "changed".to_owned();
    save_filter(&mut list, other);
    assert_eq!(list.len(), 5);
    assert_eq!(list[2].query, "changed");
}

#[test]
fn lower_case_of_a_name_decides_its_place() {
    let mut list = vec![saved("ß")];
    save_filter(&mut list, saved("Zeta"));
    save_filter(&mut list, saved("İx"));
    save_filter(&mut list, saved("alpha"));
    let mut expected = vec!["ß", "Zeta", "İx", "alpha"];
    expected.sort_by_key(|name| name.to_lowercase());
    let names: Vec<_> = list.iter().map(|filter| filter.name.as_str()).collect();
    assert_eq!(names, expected);
}

#[test]
fn default_settings_are_complete() {
    let config = AppConfig::default();
    assert_eq!(config.memory_limit_mib, 300);
    assert_eq!(config.buffers, LogBuffer::defaults());
    assert_eq!(config.min_level, Level::Verbose);
    assert!(config.dark && config.show_details);
    assert!(!config.use_regex && !config.case_sensitive);
    assert!(config.package.is_empty() && config.query.is_empty());
    assert!(config.saved_filters.is_empty());
}

#[test]
fn settings_are_sanitized_after_reading() {
    let config = AppConfig {
        memory_limit_mib: 1,
        buffers: vec![LogBuffer::All, LogBuffer::Main],
        query: "kept".to_owned(),
        ..Default::default()
    }
    .sanitized();
    assert_eq!(config.memory_limit_mib, 16);
    assert_eq!(config.buffers, [LogBuffer::All]);
    assert_eq!(config.query, "kept");
    assert_eq!(clamp_limit(9999), 4096);
    assert_eq!(clamp_limit(128), 128);
}

#[test]
fn settings_have_one_place() {
    let env = |config_dir, app_data, xdg_config_home, home| ConfigEnvironment {
        config_dir,
        app_data,
        xdg_config_home,
        home,
    };
    let place = |env, windows| config_location(env, windows).map(|l| (l.root, l.below));
    assert_eq!(
        place(env(true, true, true, true), false),
        Some((ConfigVariable::CiallogcatConfigDir, vec!["config.json"]))
    );
    assert_eq!(
        place(env(false, true, true, true), true),
        Some((ConfigVariable::AppData, vec!["Ciallogcat", "config.json"]))
    );
    assert_eq!(place(env(false, false, true, true), true), None);
    assert_eq!(
        place(env(false, true, true, true), false),
        Some((ConfigVariable::XdgConfigHome, vec!["ciallogcat", "config.json"]))
    );
    assert_eq!(
        place(env(false, true, false, true), false),
        Some((
            ConfigVariable::Home,
            vec![".config", "ciallogcat", "config.json"]
        ))
    );
    assert_eq!(place(env(false, true, false, false), false), None);
    assert_eq!(
        ConfigVariable::CiallogcatConfigDir.name(),
        "CIALLOGCAT_CONFIG_DIR"
    );
    assert!(reads_legacy(true, false));
    assert!(!reads_legacy(true, true));
    assert!(!reads_legacy(false, false));
    assert_eq!(legacy_directory(false), "ciallocat");
    assert_eq!(legacy_directory(true), "Ciallocat");
}

#[test]
fn white_space_is_that_of_unicode() {
    for code in 0..=0x10FFFF {
        if let Some(c) = char::from_u32(code) {
            assert_eq!(is_white_space(c), c.is_whitespace(), "{code:x}");
        }
    }
}

#[test]
fn texts_are_taken_apart_as_usual() {
    for text in [
        "",
        "a",
        " a b ",
        "a\nb",
        "a\r\nb\n",
        "\n\n",
        "a\rb\r",
        "\u{3000}日志\u{a0}x\u{2003}",
        " \t\r\n",
        "last\r\n\r\n",
    ] {
        assert_eq!(trim(text), text.trim());
        assert_eq!(is_blank(text), text.trim().is_empty());
        assert_eq!(split_lines(text), text.lines().collect::<Vec<_>>());
        assert_eq!(
            split_words(text),
            text.split_whitespace().collect::<Vec<_>>()
        );
        assert_eq!(first_line(text), text.lines().next().unwrap_or_default());
    }
    assert_eq!(strip_prefix("日志:x", "日志:"), Some("x"));
    assert_eq!(strip_prefix("日", "日志"), None);
}

#[test]
fn texts_are_ordered_as_usual() {
    let texts = ["", "a", "aa", "B", "b", "é", "日", "🦀", "\u{FFFD}", "ab"];
    for a in texts {
        for b in texts {
            assert_eq!(comes_before(a, b), a < b);
        }
    }
}

#[test]
fn numbers_are_read_and_written() {
    for text in [
        "0",
        "007",
        "+7",
        "+",
        "",
        "-1",
        " 1",
        "4294967295",
        "4294967296",
        "99999999999999999999",
        "1_0",
        "１",
    ] {
        assert_eq!(parse_number(text), text.parse::<u32>().ok(), "{text}");
    }
    for value in [0, 7, -1, i32::MAX, i32::MIN] {
        assert_eq!(signed_decimal(value), value.to_string());
    }
    assert_eq!(format_count(0), "0");
    assert_eq!(format_count(999), "999");
    assert_eq!(format_count(1_000), "1,000");
    assert_eq!(format_count(1_234_567), "1,234,567");
    assert_eq!(
        format_count(usize::MAX).replace(',', ""),
        usize::MAX.to_string()
    );
}
