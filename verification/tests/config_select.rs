use lsp_mux::config::{ConfigError, Language, LspConfig, select_languages};

fn lang(name: &str, command: &str) -> Language {
    Language { name: name.to_string(), command: command.to_string(), args: Vec::new() }
}

#[test]
fn test_parse_config() {
    let config = r#"
[[language]]
name = "python"
command = "pylsp"

[[language]]
name = "python"
command = "ruff-lsp"
        "#;

    let doc: toml_edit::DocumentMut = config.parse().unwrap();
    let mut languages = Vec::new();
    for entry in doc["language"].as_array_of_tables().unwrap() {
        languages.push(Language {
            name: entry["name"].as_str().unwrap().to_string(),
            command: entry["command"].as_str().unwrap().to_string(),
            args: match entry.get("args") {
                Some(a) => a
                    .as_array()
                    .unwrap()
                    .iter()
                    .map(|v| v.as_str().unwrap().to_string())
                    .collect(),
                None => Vec::new(),
            },
        });
    }
    let conf = LspConfig { languages };
    assert_eq!(conf.languages.len(), 2);
    assert_eq!(conf.languages[0].name, "python");
    assert_eq!(conf.languages[0].command, "pylsp".to_string());
    assert_eq!(conf.languages[0].args.len(), 0);
    assert_eq!(conf.languages[1].name, "python");
    assert_eq!(conf.languages[1].command, "ruff-lsp".to_string());
    assert_eq!(conf.languages[1].args.len(), 0);
}

#[test]
fn no_filter_keeps_everything() {
    let conf = LspConfig { languages: vec![lang("python", "pylsp"), lang("rust", "ra")] };
    let out = select_languages(conf, None).unwrap();
    assert_eq!(out.languages.len(), 2);
    assert_eq!(out.languages[0].name, "python");
    assert_eq!(out.languages[1].name, "rust");
}

#[test]
fn empty_configuration_is_refused() {
    let conf = LspConfig { languages: Vec::new() };
    let err = select_languages(conf, None).unwrap_err();
    assert!(matches!(err, ConfigError::NoLanguageServer));
}

#[test]
fn filter_keeps_matching_entries_in_order() {
    let conf = LspConfig {
        languages: vec![lang("python", "pylsp"), lang("rust", "ra"), lang("python", "ruff-lsp")],
    };
    let out = select_languages(conf, Some("python".to_string())).unwrap();
    assert_eq!(out.languages.len(), 2);
    assert_eq!(out.languages[0].command, "pylsp".to_string());
    assert_eq!(out.languages[1].command, "ruff-lsp".to_string());
}

#[test]
fn filter_without_match_is_refused_with_the_name() {
    let conf = LspConfig { languages: vec![lang("python", "pylsp")] };
    let err = select_languages(conf, Some("go".to_string())).unwrap_err();
    match err {
        ConfigError::NoLanguageServerFor(name) => assert_eq!(name, "go".to_string()),
        other => panic!("unexpected error: {:?}", other),
    }
}
