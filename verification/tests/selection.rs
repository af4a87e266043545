use indexmap::IndexSet;
use polyfill_library::features::{add_feature, remove_feature, FeatureProperties, TargetedFeatures};
use polyfill_library::flags::FlagSet;
use polyfill_library::params::{PolyfillConfig, PolyfillParameters};
use polyfill_library::selection::{Lookup, Reply, Selection};
use polyfill_library::strmap::StrMap;
use polyfill_library::ua::{UA, U};

fn strings(v: &[&str]) -> Vec<String> {
    v.iter().map(|s| s.to_string()).collect()
}

fn options(features: &[(&str, &[&str])], excludes: &[&str], unknown: &str) -> PolyfillParameters {
    let mut f = StrMap::new();
    for (name, flags) in features {
        f.insert(name.to_string(), FlagSet::from_strings(strings(flags)));
    }
    PolyfillParameters {
        features: f,
        excludes: strings(excludes),
        unknown: unknown.to_string(),
        minify: false,
        callback: None,
    }
}

fn chrome(major: u64) -> U {
    U::Current(UA { family: "chrome".to_string(), major, minor: 0, patch: 0, unknown: false })
}

type Meta<'a> = (&'a str, &'a [&'a str], &'a [(&'a str, &'a str)]);

fn config(deps: &[&str], browsers: &[(&str, &str)]) -> PolyfillConfig {
    let mut b = StrMap::new();
    for (family, range) in browsers {
        b.insert(family.to_string(), range.to_string());
    }
    PolyfillConfig {
        license: None,
        dependencies: if deps.is_empty() { None } else { Some(strings(deps)) },
        browsers: Some(b),
        detect_source: None,
    }
}

/// Runs a selection against a store given as lists; returns the lookups
/// asked for and the chosen features.
fn run(
    opts: &PolyfillParameters,
    ua: &U,
    aliases: &[(&str, &[&str])],
    metas: &[Meta],
) -> (Vec<String>, TargetedFeatures) {
    let (mut sel, mut lookup) = Selection::start(opts);
    let mut asked = Vec::new();
    for _ in 0..1000 {
        match lookup {
            Lookup::Aliases(name) => {
                asked.push(format!("aliases {}", name));
                let reply = aliases.iter().find(|(n, _)| *n == name).map(|(_, l)| strings(l));
                lookup = sel.resume(opts, ua, Reply::Aliases(reply));
            },
            Lookup::Meta(name) => {
                asked.push(format!("meta {}", name));
                let reply = metas.iter().find(|(n, _, _)| *n == name).map(|(_, d, b)| config(d, b));
                lookup = sel.resume(opts, ua, Reply::Meta(reply));
            },
            Lookup::Done => return (asked, sel.into_targeted()),
        }
    }
    panic!("selection did not finish");
}

fn chosen(t: &TargetedFeatures) -> Vec<String> {
    let mut n = t.names();
    n.sort();
    n
}

#[test]
fn targets_feature_and_dependency_for_matching_browser() {
    let opts = options(&[("a", &[])], &[], "ignore");
    let metas: &[Meta] = &[("a", &["b"], &[("chrome", "<50")]), ("b", &[], &[("chrome", "*")])];
    let (asked, t) = run(&opts, &chrome(40), &[], metas);
    assert_eq!(chosen(&t), strings(&["a", "b"]));
    assert_eq!(
        asked,
        strings(&["aliases a", "meta a", "aliases a", "meta a", "aliases b", "meta b"])
    );
}

#[test]
fn drops_feature_for_browser_out_of_range() {
    let opts = options(&[("a", &[])], &[], "ignore");
    let metas: &[Meta] = &[("a", &[], &[("chrome", "<50")])];
    let (_, t) = run(&opts, &chrome(60), &[], metas);
    assert!(chosen(&t).is_empty());
}

#[test]
fn excluded_feature_is_never_looked_up() {
    let opts = options(&[("a", &[]), ("b", &[])], &["a"], "ignore");
    let metas: &[Meta] = &[("a", &[], &[("chrome", "*")]), ("b", &[], &[("chrome", "*")])];
    let (asked, t) = run(&opts, &chrome(40), &[], metas);
    assert_eq!(chosen(&t), strings(&["b"]));
    assert!(asked.iter().all(|l| !l.ends_with(" a")));
}

#[test]
fn alias_is_replaced_by_its_members() {
    let opts = options(&[("es6", &["always"])], &[], "ignore");
    let aliases: &[(&str, &[&str])] = &[("es6", &["a", "b"])];
    let metas: &[Meta] = &[("a", &[], &[("chrome", "<10")]), ("b", &[], &[("chrome", "<10")])];
    let (_, t) = run(&opts, &chrome(40), aliases, metas);
    // The members carry the alias's `always` flag, so they are needed anyway.
    assert_eq!(chosen(&t), strings(&["a", "b"]));
    let a = t.get(&"a".to_string()).unwrap();
    assert!(a.flags.contains(&"always".to_string()));
}

#[test]
fn unknown_browser_gets_gated_polyfills() {
    let opts = options(&[("a", &[])], &[], "polyfill");
    let metas: &[Meta] = &[("a", &[], &[("chrome", "<10")])];
    let ua = U::Current(UA { family: "other".to_string(), major: 1, minor: 0, patch: 0, unknown: true });
    let (_, t) = run(&opts, &ua, &[], metas);
    assert_eq!(chosen(&t), strings(&["a"]));
    assert!(t.get(&"a".to_string()).unwrap().flags.contains(&"gated".to_string()));
}

#[test]
fn feature_without_configuration_is_kept() {
    let opts = options(&[("x", &[])], &[], "ignore");
    let (asked, t) = run(&opts, &chrome(40), &[], &[]);
    assert_eq!(chosen(&t), strings(&["x"]));
    assert_eq!(asked, strings(&["aliases x", "meta x", "aliases x", "meta x"]));
}

#[test]
fn first_pass_walks_sorted_names() {
    let opts = options(&[("zeta", &[]), ("alpha", &[]), ("Mid", &[])], &[], "ignore");
    let (sel, lookup) = Selection::start(&opts);
    match lookup {
        Lookup::Aliases(n) => assert_eq!(n, "Mid"),
        other => panic!("unexpected {:?}", other),
    }
    match sel.pending_lookup() {
        Lookup::Aliases(n) => assert_eq!(n, "Mid"),
        other => panic!("unexpected {:?}", other),
    }
}

#[test]
fn empty_request_finishes_at_once() {
    let opts = options(&[], &[], "ignore");
    let (_, lookup) = Selection::start(&opts);
    assert!(matches!(lookup, Lookup::Done));
}

#[test]
fn reply_of_other_kind_is_ignored() {
    let opts = options(&[("a", &[])], &[], "ignore");
    let ua = chrome(40);
    let (mut sel, _) = Selection::start(&opts);
    let again = sel.resume(&opts, &ua, Reply::Meta(None));
    match again {
        Lookup::Aliases(n) => assert_eq!(n, "a"),
        other => panic!("unexpected {:?}", other),
    }
}

#[test]
fn finished_selection_stays_finished() {
    let opts = options(&[], &[], "ignore");
    let ua = chrome(40);
    let (mut sel, _) = Selection::start(&opts);
    assert!(matches!(sel.resume(&opts, &ua, Reply::Aliases(None)), Lookup::Done));
    assert!(matches!(sel.resume(&opts, &ua, Reply::Meta(None)), Lookup::Done));
}

#[test]
fn add_feature_then_remove_feature_restores() {
    let mut names: IndexSet<String> = IndexSet::new();
    names.insert("a".to_string());
    let mut t = TargetedFeatures::new();
    let flags = FlagSet::from_strings(strings(&["always"]));
    assert!(add_feature(&"b".to_string(), &flags, FeatureProperties::empty(), &mut names, &mut t));
    assert_eq!(names.iter().cloned().collect::<Vec<_>>(), strings(&["a", "b"]));
    assert!(t.get(&"b".to_string()).unwrap().flags.contains(&"always".to_string()));
    assert!(remove_feature(&"b".to_string(), &mut names, &mut t));
    assert_eq!(names.iter().cloned().collect::<Vec<_>>(), strings(&["a"]));
    assert!(!t.contains_key(&"b".to_string()));
}

#[test]
fn add_feature_merges_flags_of_chosen_feature() {
    let mut names: IndexSet<String> = IndexSet::new();
    let mut t = TargetedFeatures::new();
    let mut props = FeatureProperties::empty();
    props.comment = Some("kept".to_string());
    assert!(add_feature(&"a".to_string(), &FlagSet::from_strings(strings(&["x"])), props, &mut names, &mut t));
    let mut props2 = FeatureProperties::empty();
    props2.flags.insert("gated".to_string());
    props2.comment = Some("dropped".to_string());
    assert!(!add_feature(&"a".to_string(), &FlagSet::from_strings(strings(&["y"])), props2, &mut names, &mut t));
    let a = t.get(&"a".to_string()).unwrap();
    let mut f = a.flags.to_strings();
    f.sort();
    assert_eq!(f, strings(&["gated", "x", "y"]));
    assert_eq!(a.comment, Some("kept".to_string()));
    assert_eq!(names.len(), 1);
}

#[test]
fn remove_feature_swaps_last_into_place() {
    let mut names: IndexSet<String> = strings(&["a", "b", "c"]).into_iter().collect();
    let mut t = TargetedFeatures::new();
    assert!(!remove_feature(&"a".to_string(), &mut names, &mut t));
    assert_eq!(names.iter().cloned().collect::<Vec<_>>(), strings(&["c", "b"]));
}
