use nickgit::Config;
use nickgit::ConfigEntry;
use nickgit::ConfigSection;
use nickgit::default_config_content;
use nickgit::parse_config;
use nickgit::serialize_config;

fn section(name: &str, entries: &[(&str, &str)]) -> ConfigSection {
    let mut es: Vec<ConfigEntry> = Vec::new();
    for (k, v) in entries {
        es.push(ConfigEntry { key: (*k).to_string(), value: (*v).to_string() });
    }
    ConfigSection { name: name.to_string(), entries: es }
}

fn triples(c: &Config) -> Vec<(String, String, String)> {
    let mut out: Vec<(String, String, String)> = Vec::new();
    for s in &c.sections {
        for e in &s.entries {
            out.push((s.name.clone(), e.key.clone(), e.value.clone()));
        }
    }
    out
}

#[test]
fn default_record_has_expected_triples() {
    let c = default_config_content();
    assert_eq!(
        triples(&c),
        vec![
            ("core".to_string(), "repositoryformatversion".to_string(), "0".to_string()),
            ("core".to_string(), "filemode".to_string(), "false".to_string()),
            ("core".to_string(), "bare".to_string(), "false".to_string()),
        ]
    );
}

#[test]
fn serialize_default_record_exact_text() {
    let text = serialize_config(&default_config_content());
    assert_eq!(text, "[core]\nrepositoryformatversion=0\nfilemode=false\nbare=false\n");
}

#[test]
fn round_trip_default_record() {
    let c = default_config_content();
    let text = serialize_config(&c);
    let back = parse_config(&text).expect("default record must parse back");
    assert_eq!(triples(&back), triples(&c));
}

#[test]
fn round_trip_two_sections() {
    let c = Config {
        sections: vec![
            section("core", &[("bare", "true"), ("note", "a=b still parses")]),
            section("remote origin", &[("url", "https://host/repo")]),
        ],
    };
    let text = serialize_config(&c);
    let back = parse_config(&text).expect("rendered text must parse back");
    assert_eq!(triples(&back), triples(&c));
}

#[test]
fn round_trip_empty_config() {
    let c = Config { sections: Vec::new() };
    let text = serialize_config(&c);
    assert_eq!(text, "");
    let back = parse_config(&text).expect("empty text parses to an empty mapping");
    assert_eq!(back.sections.len(), 0);
}

#[test]
fn round_trip_section_without_entries() {
    let c = Config { sections: vec![section("core", &[])] };
    let back = parse_config(&serialize_config(&c)).expect("must parse");
    assert_eq!(back.sections.len(), 1);
    assert_eq!(back.sections[0].name, "core");
    assert_eq!(back.sections[0].entries.len(), 0);
}

#[test]
fn parse_skips_blank_lines() {
    let parsed = parse_config("\n[core]\n\nbare=false\n\n").expect("must parse");
    assert_eq!(triples(&parsed), vec![(
        "core".to_string(),
        "bare".to_string(),
        "false".to_string(),
    )]);
}

#[test]
fn parse_splits_at_first_equals_sign() {
    let parsed = parse_config("[core]\nkey=a=b\n").expect("must parse");
    assert_eq!(parsed.sections[0].entries[0].key, "key");
    assert_eq!(parsed.sections[0].entries[0].value, "a=b");
}

#[test]
fn parse_skips_comment_lines() {
    let parsed = parse_config("; a comment\n[core]\n# another\nbare=false\n").expect("must parse");
    assert_eq!(parsed.sections.len(), 1);
    assert_eq!(parsed.sections[0].entries.len(), 1);
    assert_eq!(parsed.sections[0].entries[0].key, "bare");
}

#[test]
fn parse_skips_a_line_of_blanks() {
    let parsed = parse_config("[core]\n \t \nbare=false\n").expect("must parse");
    assert_eq!(parsed.sections[0].entries.len(), 1);
}

#[test]
fn parse_trims_blanks_around_names_keys_and_values() {
    let parsed = parse_config("  [ core ]  \n  bare = false \n").expect("must parse");
    assert_eq!(parsed.sections[0].name, "core");
    assert_eq!(parsed.sections[0].entries[0].key, "bare");
    assert_eq!(parsed.sections[0].entries[0].value, "false");
}

#[test]
fn parse_keeps_blanks_inside_a_value() {
    let parsed = parse_config("[core]\nnote = a b  c \n").expect("must parse");
    assert_eq!(parsed.sections[0].entries[0].value, "a b  c");
}

#[test]
fn parse_rejects_entry_before_any_section() {
    assert!(parse_config("bare=false\n").is_none());
}

#[test]
fn parse_rejects_unclosed_section_header() {
    assert!(parse_config("[core\nbare=false\n").is_none());
}

#[test]
fn parse_rejects_line_without_equals_sign() {
    assert!(parse_config("[core]\nbare\n").is_none());
}
