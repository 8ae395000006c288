use ranger::blueprint::Blueprint;
use ranger::render::{assemble_actions, generate_actions, is_descriptor, OutAction, RenderedEntry, SourceEntry};
use ranger::Error;

fn pairs(ps: &[(&str, &str)]) -> Vec<(String, String)> {
    ps.iter().map(|(k, v)| (k.to_string(), v.to_string())).collect()
}

fn dir(p: &str) -> SourceEntry {
    SourceEntry::Dir { rel_path: p.to_string() }
}

fn file(p: &str, c: &str) -> SourceEntry {
    SourceEntry::File { rel_path: p.to_string(), content: c.to_string() }
}

#[test]
fn renders_paths_and_content_against_variables() {
    let entries = vec![
        dir("{{vars.name}}"),
        file("{{vars.name}}/hello.txt", "Hi {{vars.name}}"),
    ];
    let actions = generate_actions(
        &Blueprint::empty(),
        &Vec::new(),
        &pairs(&[("name", "Bob")]),
        &entries,
    )
    .unwrap();
    assert_eq!(actions.len(), 2);
    match &actions[0] {
        OutAction::MkDir { rel_path } => assert_eq!(rel_path, "Bob"),
        _ => panic!("expected a directory action"),
    }
    match &actions[1] {
        OutAction::WriteFile { rel_path, content } => {
            assert_eq!(rel_path, "Bob/hello.txt");
            assert_eq!(content, "Hi Bob");
        },
        _ => panic!("expected a file action"),
    }
}

#[test]
fn helper_output_feeds_back_into_the_render() {
    let bp = Blueprint {
        version: "1".to_string(),
        variables: Vec::new(),
        helpers: pairs(&[("suffix", "echo $VALUE-suffix")]),
    };
    let entries = vec![file("out.txt", "{{suffix \"x\"}}")];
    let actions = generate_actions(&bp, &Vec::new(), &Vec::new(), &entries).unwrap();
    match &actions[0] {
        OutAction::WriteFile { content, .. } => assert_eq!(content, "x-suffix\n"),
        _ => panic!("expected a file action"),
    }
}

#[test]
fn failing_helper_fails_the_whole_render() {
    let bp = Blueprint {
        version: "1".to_string(),
        variables: Vec::new(),
        helpers: pairs(&[("boom", "exit 3")]),
    };
    let entries = vec![
        file("ok.txt", "fine"),
        file("bad.txt", "{{boom \"x\"}}"),
    ];
    let r = generate_actions(&bp, &Vec::new(), &Vec::new(), &entries);
    assert!(matches!(r, Err(Error::Render(_))));
}

#[test]
fn undefined_variable_is_a_hard_error() {
    let entries = vec![file("a.txt", "{{vars.missing}}")];
    let r = generate_actions(&Blueprint::empty(), &Vec::new(), &Vec::new(), &entries);
    assert!(matches!(r, Err(Error::Render(_))));
}

#[test]
fn undefined_variable_in_a_path_is_a_hard_error() {
    let entries = vec![dir("{{vars.missing}}")];
    let r = generate_actions(&Blueprint::empty(), &Vec::new(), &Vec::new(), &entries);
    assert!(matches!(r, Err(Error::Render(_))));
}

#[test]
fn descriptor_file_never_reaches_the_output() {
    let entries = vec![
        file(".ranger.yaml", "version: 1"),
        file("{{vars.d}}", "would collide"),
        file("keep.txt", "kept"),
    ];
    let actions = generate_actions(
        &Blueprint::empty(),
        &Vec::new(),
        &pairs(&[("d", ".ranger.yaml")]),
        &entries,
    )
    .unwrap();
    assert_eq!(actions.len(), 1);
    match &actions[0] {
        OutAction::WriteFile { rel_path, content } => {
            assert_eq!(rel_path, "keep.txt");
            assert_eq!(content, "kept");
        },
        _ => panic!("expected a file action"),
    }
}

#[test]
fn is_descriptor_matches_only_the_descriptor_path() {
    assert!(is_descriptor(&".ranger.yaml".to_string()));
    assert!(!is_descriptor(&"ranger.yaml".to_string()));
    assert!(!is_descriptor(&".ranger.yaml2".to_string()));
    assert!(!is_descriptor(&"".to_string()));
}

#[test]
fn empty_source_tree_renders_to_nothing() {
    let actions =
        generate_actions(&Blueprint::empty(), &Vec::new(), &Vec::new(), &Vec::new()).unwrap();
    assert!(actions.is_empty());
}

#[test]
fn literal_text_passes_through_without_escaping() {
    let entries = vec![file("a.html", "<b>{{vars.v}}</b>")];
    let actions = generate_actions(
        &Blueprint::empty(),
        &Vec::new(),
        &pairs(&[("v", "a&\"b<c>")]),
        &entries,
    )
    .unwrap();
    match &actions[0] {
        OutAction::WriteFile { content, .. } => assert_eq!(content, "<b>a&\"b<c></b>"),
        _ => panic!("expected a file action"),
    }
}

#[test]
fn assemble_drops_descriptor_entries_and_keeps_order() {
    let rendered = vec![
        RenderedEntry::Dir { rel_path: "d".to_string() },
        RenderedEntry::File { rel_path: ".ranger.yaml".to_string(), content: "x".to_string() },
        RenderedEntry::File { rel_path: "f.txt".to_string(), content: "body".to_string() },
    ];
    let actions = assemble_actions(rendered);
    assert_eq!(actions.len(), 2);
    match &actions[0] {
        OutAction::MkDir { rel_path } => assert_eq!(rel_path, "d"),
        _ => panic!("expected a directory action"),
    }
    match &actions[1] {
        OutAction::WriteFile { rel_path, content } => {
            assert_eq!(rel_path, "f.txt");
            assert_eq!(content, "body");
        },
        _ => panic!("expected a file action"),
    }
}

#[test]
fn helper_killed_by_signal_fails_the_render() {
    let bp = Blueprint {
        version: "1".to_string(),
        variables: Vec::new(),
        helpers: pairs(&[("gone", "kill -9 $$")]),
    };
    let entries = vec![file("a.txt", "{{gone \"x\"}}")];
    let r = generate_actions(&bp, &Vec::new(), &Vec::new(), &entries);
    assert!(matches!(r, Err(Error::Render(_))));
}
