use polyfill_library::flags::FlagSet;
use polyfill_library::strmap::StrMap;
use polyfill_library::text::{contains_str, join_strings, sort_strings, str_le};

fn strings(v: &[&str]) -> Vec<String> {
    v.iter().map(|s| s.to_string()).collect()
}

#[test]
fn sort_strings_orders_by_code_point() {
    let sorted = sort_strings(strings(&["fetch", "Array.from", "es6", "Promise", "es5", "fetch"]));
    assert_eq!(sorted, strings(&["Array.from", "Promise", "es5", "es6", "fetch", "fetch"]));
}

#[test]
fn sort_strings_of_nothing() {
    assert_eq!(sort_strings(Vec::new()), Vec::<String>::new());
}

#[test]
fn str_le_compares_lexicographically() {
    assert!(str_le(&"abc".to_string(), &"abd".to_string()));
    assert!(str_le(&"ab".to_string(), &"abc".to_string()));
    assert!(!str_le(&"abc".to_string(), &"ab".to_string()));
    assert!(str_le(&"".to_string(), &"".to_string()));
    assert!(str_le(&"Z".to_string(), &"a".to_string()));
    assert!(!str_le(&"é".to_string(), &"z".to_string()));
}

#[test]
fn join_strings_puts_separator_between() {
    assert_eq!(join_strings(&strings(&["a", "b", "c"]), ","), "a,b,c");
    assert_eq!(join_strings(&strings(&["only"]), ", "), "only");
    assert_eq!(join_strings(&Vec::new(), ","), "");
    assert_eq!(join_strings(&strings(&["x", "y"]), "\n * "), "x\n * y");
}

#[test]
fn contains_str_finds_equal_strings() {
    let v = strings(&["a", "bc"]);
    assert!(contains_str(&v, &"bc".to_string()));
    assert!(!contains_str(&v, &"b".to_string()));
}

#[test]
fn flag_set_behaves_as_a_set() {
    let mut s = FlagSet::new();
    s.insert("always".to_string());
    s.insert("always".to_string());
    s.insert("gated".to_string());
    assert!(s.contains(&"always".to_string()));
    assert!(!s.contains(&"other".to_string()));
    assert_eq!(s.to_strings().len(), 2);
    let mut t = FlagSet::from_strings(strings(&["x", "gated"]));
    t.extend(&s);
    let mut all = t.to_strings();
    all.sort();
    assert_eq!(all, strings(&["always", "gated", "x"]));
    let d = t.duplicate();
    assert!(d.contains(&"x".to_string()));
}

#[test]
fn str_map_insert_get_remove() {
    let mut m: StrMap<String> = StrMap::new();
    assert!(m.insert("chrome".to_string(), "<50".to_string()));
    assert!(m.insert("firefox".to_string(), "*".to_string()));
    assert!(!m.insert("chrome".to_string(), ">=10".to_string()));
    assert_eq!(m.get(&"chrome".to_string()), Some(&">=10".to_string()));
    assert!(m.contains_key(&"firefox".to_string()));
    assert!(m.remove(&"firefox".to_string()));
    assert!(!m.remove(&"firefox".to_string()));
    assert_eq!(m.get(&"firefox".to_string()), None);
    assert_eq!(m.names(), strings(&["chrome"]));
}
