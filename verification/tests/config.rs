use tuidict::config::{Config, DictConfig};

fn entry(id: &str, active: bool) -> DictConfig {
    DictConfig {
        id: id.to_string(),
        name: format!("name of {}", id),
        from_lang: "DEU".to_string(),
        to_lang: "ENG".to_string(),
        path: format!("/data/{}", id),
        active,
    }
}

#[test]
fn test_add_dictionary_appends() {
    let mut config = Config { dictionaries: Vec::new() };
    config.add_dictionary(entry("deu-eng", true));
    config.add_dictionary(entry("eng-deu", false));
    assert_eq!(config.dictionaries.len(), 2);
    assert_eq!(config.dictionaries[0].id, "deu-eng");
    assert_eq!(config.dictionaries[1].id, "eng-deu");
}

#[test]
fn test_add_dictionary_replaces_same_id() {
    let mut config = Config { dictionaries: Vec::new() };
    config.add_dictionary(entry("deu-eng", true));
    config.add_dictionary(entry("eng-deu", true));
    let mut replacement = entry("deu-eng", false);
    replacement.name = "renamed".to_string();
    config.add_dictionary(replacement);
    assert_eq!(config.dictionaries.len(), 2);
    assert_eq!(config.dictionaries[0].id, "eng-deu");
    assert_eq!(config.dictionaries[1].id, "deu-eng");
    assert_eq!(config.dictionaries[1].name, "renamed");
}

#[test]
fn test_toggle_dictionary() {
    let mut config = Config { dictionaries: Vec::new() };
    config.add_dictionary(entry("deu-eng", true));
    assert!(config.toggle_dictionary("deu-eng"));
    assert!(!config.dictionaries[0].active);
    assert!(config.toggle_dictionary("deu-eng"));
    assert!(config.dictionaries[0].active);
    assert!(!config.toggle_dictionary("missing"));
}

#[test]
fn test_get_active_dictionaries() {
    let mut config = Config { dictionaries: Vec::new() };
    config.add_dictionary(entry("a", true));
    config.add_dictionary(entry("b", false));
    config.add_dictionary(entry("c", true));
    let active = config.get_active_dictionaries();
    assert_eq!(active.len(), 2);
    assert_eq!(active[0].id, "a");
    assert_eq!(active[1].id, "c");
}

#[test]
fn test_remove_dictionary() {
    let mut config = Config { dictionaries: Vec::new() };
    config.add_dictionary(entry("a", true));
    config.add_dictionary(entry("b", true));
    let removed = config.remove_dictionary("a").expect("entry exists");
    assert_eq!(removed.id, "a");
    assert_eq!(config.dictionaries.len(), 1);
    assert_eq!(config.dictionaries[0].id, "b");
    assert!(config.remove_dictionary("a").is_none());
}
