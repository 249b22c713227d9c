use mini_cross2::mixin::{
    normalized_path, split_source, Mixin, MixinFormatError, MixinYaml, ResolveError,
};

fn node(path: &str, refs: &[&str]) -> Mixin {
    let mut yaml = MixinYaml::default();
    if !refs.is_empty() {
        yaml.mixin = Some(refs.iter().map(|r| r.to_string()).collect());
    }
    Mixin {
        path: path.to_string(),
        yaml,
        children: Vec::new(),
        script: None,
    }
}

#[test]
fn split_config_and_script() {
    let input = "---\nbase: ubuntu:22.04\ninstall:\n  - curl\n---\necho hello\n";
    let (meta, script) = split_source(input).expect("should split");
    assert_eq!(meta.as_deref(), Some("base: ubuntu:22.04\ninstall:\n  - curl"));
    assert_eq!(script.as_deref(), Some("echo hello"));
}

#[test]
fn split_config_no_script() {
    let input = "---\nbase: alpine:3.20\n---\n";
    let (meta, script) = split_source(input).expect("should split");
    assert_eq!(meta.as_deref(), Some("base: alpine:3.20"));
    assert!(script.is_none());
}

#[test]
fn split_all_script() {
    let input = "echo one\necho two\n";
    let (meta, script) = split_source(input).expect("should split");
    assert!(meta.is_none());
    assert_eq!(script.as_deref(), Some("echo one\necho two"));
}

#[test]
fn split_missing_closing_delimiter() {
    let input = "---\nbase: ubuntu\n# missing closing dashes\necho hi\n";
    let err = split_source(input).unwrap_err();
    assert_eq!(err, MixinFormatError::MissingClosingDelimiter);
}

#[test]
fn split_empty_file() {
    let err = split_source("").unwrap_err();
    assert_eq!(err, MixinFormatError::EmptyFile);
}

#[test]
fn split_crlf_normalization() {
    let input = "---\r\nbase: alpine\r\n---\r\necho hi\r\n";
    let (meta, script) = split_source(input).expect("should split");
    assert_eq!(meta.as_deref(), Some("base: alpine"));
    assert_eq!(script.as_deref(), Some("echo hi"));
}

#[test]
fn split_trims_delimiter_lines() {
    let input = "  ---  \nbase: alpine\n ---\nrun\n";
    let (meta, script) = split_source(input).expect("should split");
    assert_eq!(meta.as_deref(), Some("base: alpine"));
    assert_eq!(script.as_deref(), Some("run"));
}

#[test]
fn normalized_path_appends_suffix_and_parent() {
    assert_eq!(normalized_path("dir/root.yaml", "tool"), "dir/tool.yaml");
    assert_eq!(normalized_path("root.yaml", "tool"), "tool.yaml");
    assert_eq!(normalized_path("a/b/root.yaml", "sub/tool"), "a/b/sub/tool.yaml");
    assert_eq!(normalized_path("a/root.yaml", "/abs/tool"), "/abs/tool.yaml");
    assert_eq!(normalized_path("a/root.yaml", "./tool"), "a/tool.yaml");
}

#[test]
fn normalized_path_collapses_empty_segments() {
    assert_eq!(normalized_path("a//root.yaml", "tool"), "a/tool.yaml");
    assert_eq!(normalized_path("/a/root.yaml", "tool"), "/a/tool.yaml");
}

#[test]
fn add_parent_path_resolves_relative() {
    let m = node("conf/mc.yaml", &[]);
    assert_eq!(m.add_parent_path("data"), "conf/data");
    assert_eq!(m.add_parent_path("/abs/data"), "/abs/data");
}

#[test]
fn lookup_paths() {
    assert_eq!(
        Mixin::lookup_paths_named("rust"),
        vec![
            "rust.yaml".to_string(),
            ".mc/rust.yaml".to_string(),
            ".mc/rust/rust.yaml".to_string(),
        ]
    );
    assert_eq!(
        Mixin::lookup_path_unnamed(),
        vec!["mc.yaml".to_string(), ".mc/mc.yaml".to_string()]
    );
}

#[test]
fn resolve_order_descendants_first() {
    // a -> [b, c], b -> [e]: expected order e, b, c.
    let root = node("a.yaml", &["b", "c"]);
    let arena = vec![
        node("b.yaml", &["e"]),
        node("c.yaml", &[]),
        node("e.yaml", &[]),
    ];
    let children = root.resolve_children(&arena).expect("resolves");
    let paths: Vec<&str> = children.iter().map(|m| m.path.as_str()).collect();
    assert_eq!(paths, vec!["e.yaml", "b.yaml", "c.yaml"]);
}

#[test]
fn resolve_diamond_keeps_first_encounter() {
    // a -> [b, c]; b -> [d]; c -> [d]: d appears once, via b.
    let root = node("a.yaml", &["b", "c"]);
    let arena = vec![
        node("b.yaml", &["d"]),
        node("c.yaml", &["d"]),
        node("d.yaml", &[]),
    ];
    let children = root.resolve_children(&arena).expect("resolves");
    let paths: Vec<&str> = children.iter().map(|m| m.path.as_str()).collect();
    assert_eq!(paths, vec!["d.yaml", "b.yaml", "c.yaml"]);
}

#[test]
fn resolve_cycle_fails() {
    let root = node("a.yaml", &["b"]);
    let arena = vec![node("b.yaml", &["a"]), node("a.yaml", &["b"])];
    match root.resolve_children(&arena) {
        Err(ResolveError::CyclicReference(p)) => assert_eq!(p, "a.yaml"),
        other => panic!("expected a cycle failure, got {:?}", other),
    }
}

#[test]
fn resolve_missing_reference_fails() {
    let root = node("a.yaml", &["nowhere"]);
    let arena: Vec<Mixin> = Vec::new();
    match root.resolve_children(&arena) {
        Err(ResolveError::MissingMixin(p)) => assert_eq!(p, "nowhere.yaml"),
        other => panic!("expected a missing-reference failure, got {:?}", other),
    }
}
