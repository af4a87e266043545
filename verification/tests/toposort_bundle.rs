use polyfill_library::bundle::{body, gated, header, layout_bundle, Piece};
use polyfill_library::features::{FeatureProperties, TargetedFeatures};
use polyfill_library::flags::FlagSet;
use polyfill_library::params::{PolyfillConfig, PolyfillParameters};
use polyfill_library::strmap::StrMap;
use polyfill_library::toposort::{toposort, ToposortError};

fn s(x: &str) -> String {
    x.to_string()
}

fn strings(v: &[&str]) -> Vec<String> {
    v.iter().map(|x| x.to_string()).collect()
}

fn edges(e: &[(&str, &str)]) -> Vec<(String, String)> {
    e.iter().map(|(a, b)| (s(a), s(b))).collect()
}

#[test]
fn toposort_puts_dependencies_first() {
    let r = toposort(&strings(&["a", "b", "c"]), &edges(&[("c", "a"), ("b", "c")])).unwrap();
    assert_eq!(r, strings(&["b", "c", "a"]));
}

#[test]
fn toposort_keeps_order_without_edges() {
    assert_eq!(toposort(&strings(&["a", "b"]), &Vec::new()).unwrap(), strings(&["a", "b"]));
}

#[test]
fn toposort_reports_cycle() {
    assert!(matches!(
        toposort(&strings(&["a", "b"]), &edges(&[("a", "b"), ("b", "a")])),
        Err(ToposortError::Cyclic)
    ));
}

#[test]
fn toposort_reports_unknown_node() {
    assert!(matches!(toposort(&strings(&["a"]), &edges(&[("z", "a")])), Err(ToposortError::UnknownNode)));
}

fn options(features: &[&str], minify: bool, callback: Option<&str>) -> PolyfillParameters {
    let mut f = StrMap::new();
    for n in features {
        f.insert(s(n), FlagSet::new());
    }
    PolyfillParameters { features: f, excludes: Vec::new(), unknown: s("ignore"), minify, callback: callback.map(s) }
}

fn meta(license: Option<&str>, deps: &[&str], detect: Option<&str>) -> PolyfillConfig {
    PolyfillConfig {
        license: license.map(s),
        dependencies: if deps.is_empty() { None } else { Some(strings(deps)) },
        browsers: None,
        detect_source: detect.map(s),
    }
}

fn text_of(p: &Piece) -> String {
    match p {
        Piece::Text(t) => t.clone(),
        Piece::Source { name, format } => format!("<source {} {}>", name, format),
        Piece::Gated { name, format } => format!("<gated {} {}>", name, format),
    }
}

const INVOKE: &str = "('object' === typeof window && window || 'object' === typeof self && self || 'object' === typeof global && global || {});";

#[test]
fn bundle_layout_orders_sources_and_explains() {
    let opts = options(&["b", "a"], false, None);
    let mut t = TargetedFeatures::new();
    t.insert(s("a"), FeatureProperties::empty());
    t.insert(s("b"), FeatureProperties::empty());
    t.insert(s("gone"), FeatureProperties::empty());
    let metas = vec![
        (s("a"), Some(meta(None, &["b", "unrelated"], None))),
        (s("b"), Some(meta(Some("MIT"), &[], None))),
        (s("gone"), None),
    ];
    let pieces = layout_bundle(&opts, &s("4.8.0"), t, &metas).unwrap();
    let out: Vec<String> = pieces.iter().map(text_of).collect();
    assert_eq!(
        out,
        vec![
            s("/* Polyfill service v4.8.0\n * For detailed credits and licence information see https://github.com/JakeChampion/polyfill-service.\n * \n * Features requested: a,b\n * \n * - b, License: MIT\n * - a, License: CC0\n * \n * These features were not recognised:\n * - gone */\n\n"),
            s("(function(self, undefined) {\n"),
            s("<source b raw>"),
            s("<source a raw>"),
            format!("}})\n{}\n", INVOKE),
        ]
    );
}

#[test]
fn bundle_layout_minified_with_callback() {
    let opts = options(&["a"], true, Some("done"));
    let mut t = TargetedFeatures::new();
    let mut props = FeatureProperties::empty();
    props.flags.insert(s("gated"));
    props.comment = Some(s("note"));
    t.insert(s("a"), props);
    let metas = vec![(s("a"), Some(meta(None, &[], None)))];
    let pieces = layout_bundle(&opts, &s("1"), t, &metas).unwrap();
    let out: Vec<String> = pieces.iter().map(text_of).collect();
    assert_eq!(
        out,
        vec![
            s("/* Polyfill service v1\n * Disable minification (remove `.min` from URL path) for more info */\n\n"),
            s("(function(self, undefined) {"),
            s("<gated a min>"),
            format!("}}){}", INVOKE),
            s("\ntypeof done==='function' && done();"),
        ]
    );
}

#[test]
fn bundle_layout_with_nothing_needed() {
    let opts = options(&[], false, None);
    let pieces = layout_bundle(&opts, &s("2"), TargetedFeatures::new(), &Vec::new()).unwrap();
    let out: Vec<String> = pieces.iter().map(text_of).collect();
    assert_eq!(out[1], "\n/* No polyfills needed for current settings and browser */\n\n");
    assert_eq!(out.len(), 2);
}

#[test]
fn bundle_layout_reports_cycle() {
    let opts = options(&["a", "b"], false, None);
    let mut t = TargetedFeatures::new();
    t.insert(s("a"), FeatureProperties::empty());
    t.insert(s("b"), FeatureProperties::empty());
    let metas = vec![(s("a"), Some(meta(None, &["b"], None))), (s("b"), Some(meta(None, &["a"], None)))];
    assert!(matches!(layout_bundle(&opts, &s("1"), t, &metas), Err(ToposortError::Cyclic)));
}

#[test]
fn gated_source_is_wrapped_in_detection() {
    let out: Vec<String> = gated(&Some(meta(None, &[], Some("'fetch' in self"))), &s("fetch"), &s("raw"), false)
        .iter()
        .map(text_of)
        .collect();
    assert_eq!(out, vec![s("if (!('fetch' in self)) {\n"), s("<source fetch raw>"), s("\n}\n\n")]);
    let plain: Vec<String> = gated(&Some(meta(None, &[], Some(""))), &s("fetch"), &s("raw"), false).iter().map(text_of).collect();
    assert_eq!(plain, vec![s("<source fetch raw>")]);
    let none: Vec<String> = gated(&None, &s("fetch"), &s("min"), true).iter().map(text_of).collect();
    assert_eq!(none, vec![s("<source fetch min>")]);
}

#[test]
fn header_wraps_lines_in_a_comment() {
    assert_eq!(header(&strings(&["a", "b"])), "/* a\n * b */\n\n");
}

#[test]
fn body_marks_gated_sources() {
    let opts = options(&[], false, None);
    let mut t = TargetedFeatures::new();
    let mut g = FeatureProperties::empty();
    g.flags.insert(s("gated"));
    t.insert(s("x"), g);
    t.insert(s("y"), FeatureProperties::empty());
    let out: Vec<String> = body(&opts, &t, &strings(&["y", "x"])).iter().map(text_of).collect();
    assert_eq!(out[1], "<source y raw>");
    assert_eq!(out[2], "<gated x raw>");
}

#[test]
fn bundle_serves_each_polyfill_once_after_its_dependencies() {
    let opts = options(&["c"], false, None);
    let mut t = TargetedFeatures::new();
    for n in ["a", "b", "c", "d"] {
        t.insert(s(n), FeatureProperties::empty());
    }
    let metas = vec![
        (s("a"), Some(meta(None, &["c"], None))),
        (s("b"), Some(meta(None, &["a", "d"], None))),
        (s("c"), Some(meta(None, &[], None))),
        (s("d"), Some(meta(None, &["c"], None))),
    ];
    let pieces = layout_bundle(&opts, &s("1"), t, &metas).unwrap();
    let served: Vec<String> = pieces
        .iter()
        .filter_map(|p| match p {
            Piece::Source { name, .. } | Piece::Gated { name, .. } => Some(name.clone()),
            Piece::Text(_) => None,
        })
        .collect();
    assert_eq!(served, strings(&["c", "a", "d", "b"]));
}
