use ranger::blueprint::Blueprint;
use ranger::overrides::parse_override_text;
use ranger::resolver::resolve;
use ranger::strutil::{split_char, split_first_eq};
use ranger::vartree::{flatten_tree, lookup_value, merge_pairs, VarTree};

fn pairs(ps: &[(&str, &str)]) -> Vec<(String, String)> {
    ps.iter().map(|(k, v)| (k.to_string(), v.to_string())).collect()
}

fn get(t: &VarTree, key: &str) -> Option<String> {
    lookup_value(t, key)
}

#[test]
fn merge_reaches_every_unique_key() {
    let t = merge_pairs(&pairs(&[("a.b", "1"), ("a.c", "2"), ("d", "3"), ("x.y.z", "deep")]));
    assert_eq!(get(&t, "a.b").as_deref(), Some("1"));
    assert_eq!(get(&t, "a.c").as_deref(), Some("2"));
    assert_eq!(get(&t, "d").as_deref(), Some("3"));
    assert_eq!(get(&t, "x.y.z").as_deref(), Some("deep"));
    assert_eq!(get(&t, "a"), None);
    assert_eq!(get(&t, "missing"), None);
}

#[test]
fn later_pair_overwrites_same_key() {
    let t = merge_pairs(&pairs(&[("a.b", "1"), ("a.b", "9")]));
    assert_eq!(get(&t, "a.b").as_deref(), Some("9"));
}

#[test]
fn later_pair_replaces_conflicting_node_wholesale() {
    let t = merge_pairs(&pairs(&[("a.b", "1"), ("a", "2")]));
    assert_eq!(get(&t, "a").as_deref(), Some("2"));
    assert_eq!(get(&t, "a.b"), None);

    let u = merge_pairs(&pairs(&[("a", "2"), ("a.b", "1")]));
    assert_eq!(get(&u, "a.b").as_deref(), Some("1"));
    assert_eq!(get(&u, "a"), None);
}

#[test]
fn override_beats_blueprint_default() {
    let bp = Blueprint {
        version: "1".to_string(),
        variables: vec![
            ("a.b".to_string(), Some("1".to_string())),
            ("a.c".to_string(), Some("2".to_string())),
        ],
        helpers: Vec::new(),
    };
    let t = resolve(&bp, &Vec::new(), &pairs(&[("a.b", "9")]));
    assert_eq!(get(&t, "a.b").as_deref(), Some("9"));
    assert_eq!(get(&t, "a.c").as_deref(), Some("2"));
}

#[test]
fn flags_win_over_file_overrides() {
    let file_pairs = parse_override_text("x=1\ny=2").unwrap();
    let flag_pairs = pairs(&[("x", "9")]);
    let t = resolve(&Blueprint::empty(), &file_pairs, &flag_pairs);
    assert_eq!(get(&t, "x").as_deref(), Some("9"));
    assert_eq!(get(&t, "y").as_deref(), Some("2"));
}

#[test]
fn variable_without_default_stays_unresolved() {
    let bp = Blueprint {
        version: "1".to_string(),
        variables: vec![("a".to_string(), None), ("b".to_string(), Some("x".to_string()))],
        helpers: Vec::new(),
    };
    let t = resolve(&bp, &Vec::new(), &Vec::new());
    assert_eq!(get(&t, "a"), None);
    assert_eq!(get(&t, "b").as_deref(), Some("x"));
}

#[test]
fn override_file_splits_at_first_equals() {
    let ps = parse_override_text("k=v=w").unwrap();
    assert_eq!(ps.len(), 1);
    assert_eq!(ps[0].0, "k");
    assert_eq!(ps[0].1, "v=w");
}

#[test]
fn override_file_skips_empty_lines() {
    let ps = parse_override_text("x=1\n\ny=2\n").unwrap();
    assert_eq!(ps.len(), 2);
    assert_eq!(ps[0], ("x".to_string(), "1".to_string()));
    assert_eq!(ps[1], ("y".to_string(), "2".to_string()));
}

#[test]
fn override_entry_without_delimiter_is_rejected() {
    let r = parse_override_text("x=1\nnodelimiter\ny=2");
    assert!(r.is_err());
    assert!(matches!(r, Err(ranger::Error::Argument(_))));
}

#[test]
fn empty_override_text_gives_one_empty_line_and_no_pairs() {
    let ps = parse_override_text("").unwrap();
    assert!(ps.is_empty());
}

#[test]
fn split_char_keeps_all_segments() {
    let segs = split_char("a.b..c", '.');
    let got: Vec<&str> = segs.iter().map(|s| s.as_str()).collect();
    assert_eq!(got, vec!["a", "b", "", "c"]);
    let single = split_char("plain", '.');
    let got1: Vec<&str> = single.iter().map(|s| s.as_str()).collect();
    assert_eq!(got1, vec!["plain"]);
}

#[test]
fn split_first_eq_takes_first_delimiter() {
    assert_eq!(
        split_first_eq("a=b=c"),
        Some(("a".to_string(), "b=c".to_string()))
    );
    assert_eq!(split_first_eq("nodelim"), None);
    assert_eq!(split_first_eq("=v"), Some(("".to_string(), "v".to_string())));
}

#[test]
fn flatten_lists_leaves_under_prefix_in_order() {
    let t = merge_pairs(&pairs(&[("a.b", "1"), ("a.c", "2"), ("d", "3")]));
    let flat = flatten_tree(&t, &"vars".to_string());
    let got: Vec<(&str, &str)> = flat.iter().map(|p| (p.0.as_str(), p.1.as_str())).collect();
    assert_eq!(got, vec![("vars.a.b", "1"), ("vars.a.c", "2"), ("vars.d", "3")]);
}
