use polyfill_library::aliases::{find_aliases, get_config_aliases, AliasError};
use polyfill_library::store::{aliases_key, meta_key, other_format, source_key, FetchAction, ReadOutcome, SourceFetch};

fn s(x: &str) -> String {
    x.to_string()
}

#[test]
fn store_keys() {
    assert_eq!(aliases_key(&s("es6")), Some(s("/aliases.json")));
    assert_eq!(aliases_key(&s("")), None);
    assert_eq!(meta_key(&s("Array.from")), Some(s("/Array.from/meta.json")));
    assert_eq!(meta_key(&s("")), None);
    assert_eq!(source_key(&s("fetch"), &s("min")), "/fetch/min.js");
}

#[test]
fn other_format_swaps_raw_and_min() {
    assert_eq!(other_format(&s("raw")), "min");
    assert_eq!(other_format(&s("min")), "raw");
    assert_eq!(other_format(&s("other")), "raw");
    assert_eq!(other_format(&other_format(&s("raw"))), "raw");
}

#[test]
fn fetch_reads_the_key_and_stops_when_found() {
    let (mut f, key) = SourceFetch::start(&s("fetch"), &s("raw"));
    assert_eq!(key, "/fetch/raw.js");
    assert!(f.on_read(ReadOutcome::Found).is_none());
}

#[test]
fn fetch_missing_switches_format() {
    let (mut f, _) = SourceFetch::start(&s("fetch"), &s("raw"));
    match f.on_read(ReadOutcome::Missing) {
        Some(FetchAction::Read(k)) => assert_eq!(k, "/fetch/min.js"),
        other => panic!("unexpected {:?}", other),
    }
    assert_eq!(f.format(), "min");
    match f.on_read(ReadOutcome::Missing) {
        Some(FetchAction::Read(k)) => assert_eq!(k, "/fetch/raw.js"),
        other => panic!("unexpected {:?}", other),
    }
}

#[test]
fn fetch_gives_up_after_a_hundred_failures() {
    let (mut f, _) = SourceFetch::start(&s("fetch"), &s("min"));
    for attempt in 1..100 {
        match f.on_read(ReadOutcome::Failed) {
            Some(FetchAction::Read(k)) => assert_eq!(k, "/fetch/min.js"),
            other => panic!("attempt {}: unexpected {:?}", attempt, other),
        }
        assert_eq!(f.failures(), attempt);
    }
    assert!(matches!(f.on_read(ReadOutcome::Failed), Some(FetchAction::GiveUp)));
}

#[test]
fn fetch_missing_resets_failures() {
    let (mut f, _) = SourceFetch::start(&s("fetch"), &s("raw"));
    f.on_read(ReadOutcome::Failed);
    f.on_read(ReadOutcome::Failed);
    assert_eq!(f.failures(), 2);
    f.on_read(ReadOutcome::Missing);
    assert_eq!(f.failures(), 0);
}

#[test]
fn aliases_from_json() {
    let table = br#"{"es6": ["Array.from", "Promise"], "default": ["fetch"]}"#;
    match get_config_aliases(table, &s("es6")) {
        Ok(Some(v)) => assert_eq!(v, vec![s("Array.from"), s("Promise")]),
        _ => panic!("expected aliases"),
    }
    match get_config_aliases(table, &s("fetch")) {
        Ok(None) => {},
        _ => panic!("expected no entry"),
    }
}

#[test]
fn aliases_bad_json_is_an_error() {
    assert!(matches!(get_config_aliases(b"{not json", &s("es6")), Err(AliasError::Json(_))));
    assert!(matches!(get_config_aliases(br#"{"a": 1}"#, &s("a")), Err(AliasError::Json(_))));
}

#[test]
fn find_aliases_takes_first_entry() {
    let table = vec![(s("a"), vec![s("x")]), (s("b"), vec![s("y")]), (s("a"), vec![s("z")])];
    assert_eq!(find_aliases(table, &s("a")), Some(vec![s("x")]));
    assert_eq!(find_aliases(vec![(s("a"), vec![])], &s("c")), None);
}
