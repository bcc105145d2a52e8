use tuidict::catalog::{language_pair, FreeDictEntry, FreeDictRelease};
use tuidict::components::{SearchInput, StatusBar, StatusType};
use tuidict::models::DownloadState;

fn release(url: &str) -> FreeDictRelease {
    FreeDictRelease {
        url: url.to_string(),
        checksum: "0f0f0f".to_string(),
        date: "2024-01-01".to_string(),
        size: 1024,
    }
}

fn catalog_entry(name: &str, urls: &[&str]) -> FreeDictEntry {
    FreeDictEntry {
        name: name.to_string(),
        releases: urls.iter().map(|u| release(u)).collect(),
        headwords: "8000".to_string(),
        status: "stable".to_string(),
    }
}

#[test]
fn test_is_valid() {
    assert!(catalog_entry("deu-eng", &["https://x/y.dictd.tar.xz"]).is_valid());
    assert!(!catalog_entry("", &["https://x/y.dictd.tar.xz"]).is_valid());
    assert!(!catalog_entry("deu-eng", &[]).is_valid());
}

#[test]
fn test_get_dictd_release_picks_first_match() {
    let entry = catalog_entry(
        "deu-eng",
        &["https://x/a.src.tar.xz", "https://x/b.dictd.tar.xz", "https://x/c.dictd.tar.xz"],
    );
    let rel = entry.get_dictd_release().expect("a dictd release exists");
    assert_eq!(rel.url, "https://x/b.dictd.tar.xz");
}

#[test]
fn test_get_dictd_release_none() {
    let entry = catalog_entry("deu-eng", &["https://x/a.src.tar.xz"]);
    assert!(entry.get_dictd_release().is_none());
}

#[test]
fn test_matches_filter_case_insensitive() {
    let entry = catalog_entry("German - English", &[]);
    assert!(entry.matches_filter("german"));
    assert!(entry.matches_filter("engl"));
    assert!(!entry.matches_filter("french"));
}

#[test]
fn test_language_pair() {
    let (from, to) = language_pair("deu-eng");
    assert_eq!(from, "DEU");
    assert_eq!(to, "ENG");
    let (from, to) = language_pair("spa-por-br");
    assert_eq!(from, "SPA");
    assert_eq!(to, "POR");
    let (from, to) = language_pair("nodash");
    assert_eq!(from, "UNK");
    assert_eq!(to, "UNK");
}

#[test]
fn test_search_input_builder() {
    let input = SearchInput::new("wor").title("Filter").show_cursor(false).active(false);
    assert_eq!(input.value, "wor");
    assert_eq!(input.title, "Filter");
    assert!(!input.show_cursor);
    assert!(!input.active);
}

#[test]
fn test_status_bar_builder() {
    let bar = StatusBar::new("loading...", StatusType::Loading).show_border(false);
    assert_eq!(bar.message, "loading...");
    assert!(matches!(bar.status_type, StatusType::Loading));
    assert!(!bar.show_border);
}

#[test]
fn test_download_state_new() {
    let state = DownloadState::new();
    assert_eq!(state.progress, (0, 1));
    assert!(state.result.is_none());
}
