use mirror_sync::classify::Resolved;
use mirror_sync::graph::{resolve_closure, BuildGraph, GraphNode};
use mirror_sync::tree::{closure_from_tree, parse_tree_line};
use mirror_sync::version::version_to_bytes;

fn node(name: &str, version: &str, external: bool, deps: Vec<usize>) -> GraphNode {
    GraphNode {
        name: name.as_bytes().to_vec(),
        version_text: version.as_bytes().to_vec(),
        external,
        deps,
    }
}

#[test]
fn tree_line_plain() {
    let (name, v) = parse_tree_line(b"serde v1.0.228").expect("parses");
    assert_eq!(name, b"serde".to_vec());
    assert_eq!(version_to_bytes(&v), b"1.0.228".to_vec());
}

#[test]
fn tree_line_decorated() {
    let line = "│   ├── quote v1.0.35 (*)".as_bytes();
    let (name, v) = parse_tree_line(line).expect("parses");
    assert_eq!(name, b"quote".to_vec());
    assert_eq!(version_to_bytes(&v), b"1.0.35".to_vec());
}

#[test]
fn tree_line_default_registry_kept() {
    let line = b"serde v1.0.1 (registry+https://github.com/rust-lang/crates.io-index)";
    assert!(parse_tree_line(line).is_some());
}

#[test]
fn tree_line_other_registry_excluded() {
    let line = b"inner v1.0.0 (registry `my-registry`)";
    assert!(parse_tree_line(line).is_none());
}

#[test]
fn tree_line_garbage_excluded() {
    assert!(parse_tree_line(b"").is_none());
    assert!(parse_tree_line(b"loneword").is_none());
    assert!(parse_tree_line(b"name notaversion").is_none());
}

#[test]
fn tree_closure_excludes_root_and_keeps_last() {
    let text = b"myproj v0.1.0 (/home/u/myproj)\nserde v1.0.1\nquote v1.0.35\nserde v1.0.2\n";
    let closure = closure_from_tree(text);
    let mut names: Vec<Vec<u8>> = closure.iter().map(|e| e.name.clone()).collect();
    names.sort();
    assert_eq!(names, vec![b"quote".to_vec(), b"serde".to_vec()]);
    let serde = closure.iter().find(|e| e.name == b"serde".to_vec()).unwrap();
    match &serde.resolved {
        Resolved::Known(v) => assert_eq!(version_to_bytes(v), b"1.0.2".to_vec()),
        Resolved::Unparsed(_) => panic!("version parsed"),
    }
}

#[test]
fn graph_closure_reachable_external_only() {
    // 0: root (workspace member), depends on 1 and 2
    // 1: external, depends on 3
    // 2: external
    // 3: external
    // 4: external but unreachable
    let g = BuildGraph {
        nodes: vec![
            node("root", "0.1.0", false, vec![1, 2]),
            node("a", "1.0.0", true, vec![3]),
            node("b", "2.0.0", true, vec![]),
            node("c", "3.1.4", true, vec![]),
            node("unused", "9.9.9", true, vec![]),
        ],
        roots: vec![0],
    };
    let closure = resolve_closure(&g);
    let names: Vec<Vec<u8>> = closure.iter().map(|e| e.name.clone()).collect();
    assert_eq!(names, vec![b"a".to_vec(), b"b".to_vec(), b"c".to_vec()]);
}

#[test]
fn graph_closure_flags_unparseable_version() {
    let g = BuildGraph {
        nodes: vec![
            node("root", "0.1.0", false, vec![1]),
            node("odd", "not.a.version", true, vec![]),
        ],
        roots: vec![0],
    };
    let closure = resolve_closure(&g);
    assert_eq!(closure.len(), 1);
    match &closure[0].resolved {
        Resolved::Unparsed(t) => assert_eq!(t.clone(), b"not.a.version".to_vec()),
        Resolved::Known(_) => panic!("version text must not parse"),
    }
}

#[test]
fn graph_closure_handles_cycles() {
    let g = BuildGraph {
        nodes: vec![
            node("root", "0.1.0", false, vec![1]),
            node("a", "1.0.0", true, vec![2]),
            node("b", "1.1.0", true, vec![1]),
        ],
        roots: vec![0],
    };
    let closure = resolve_closure(&g);
    assert_eq!(closure.len(), 2);
}
