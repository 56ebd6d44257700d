use nav_tree::discovery::{is_document_entry, scan_markdown_files, WalkEntry};
use nav_tree::dto::{get_nav_tree_key, NavTreeDto};
use nav_tree::nav::{get_nav_tree, get_root_dir};
use nav_tree::normalize::normalize_path;
use nav_tree::paths::{has_doc_extension, has_extension, is_hidden, RelPath};
use nav_tree::server_state::ServerState;
use nav_tree::tree::{build_nav_tree, NavTree};

fn parts(path: &str) -> Vec<String> {
    if path.is_empty() {
        Vec::new()
    } else {
        path.split('/').map(|s| s.to_string()).collect()
    }
}

fn file(path: &str) -> WalkEntry {
    WalkEntry { parts: parts(path), is_file: true }
}

fn dir(path: &str) -> WalkEntry {
    WalkEntry { parts: parts(path), is_file: false }
}

fn rel(path: &str) -> RelPath {
    RelPath { parts: parts(path) }
}

fn f(name: &str, path: &str) -> NavTreeDto {
    NavTreeDto::File { name: name.to_string(), path: path.to_string() }
}

fn d(name: &str, path: &str, children: Vec<NavTreeDto>) -> NavTreeDto {
    NavTreeDto::Dir { name: name.to_string(), path: path.to_string(), children }
}

fn file_paths(forest: &[NavTree], out: &mut Vec<String>) {
    for n in forest {
        match n {
            NavTree::File { path, .. } => out.push(path.to_text()),
            NavTree::Dir { children, .. } => file_paths(children, out),
        }
    }
}

fn dir_paths(forest: &[NavTree], out: &mut Vec<String>) {
    for n in forest {
        if let NavTree::Dir { path, children, .. } = n {
            out.push(path.to_text());
            dir_paths(children, out);
        }
    }
}

#[test]
fn scenario_mixed_root() {
    let entries = vec![
        dir(""),
        file("readme.md"),
        dir("guide"),
        file("guide/intro.md"),
        file("guide/advanced.md"),
        dir(".hidden"),
        file(".hidden/notes.md"),
        file("image.png"),
    ];
    let forest = get_nav_tree(&entries);
    assert_eq!(
        forest,
        vec![
            f("readme.md", "readme.md"),
            d(
                "guide",
                "guide",
                vec![f("intro.md", "guide/intro.md"), f("advanced.md", "guide/advanced.md")]
            ),
        ]
    );
}

#[test]
fn scenario_deep_single_file() {
    let entries = vec![dir(""), dir("a"), dir("a/b"), dir("a/b/c"), file("a/b/c/deep.md")];
    let forest = get_nav_tree(&entries);
    assert_eq!(
        forest,
        vec![d(
            "a",
            "a",
            vec![d("b", "a/b", vec![d("c", "a/b/c", vec![f("deep.md", "a/b/c/deep.md")])])]
        )]
    );
}

#[test]
fn scenario_empty_root() {
    assert_eq!(get_nav_tree(&[dir("")]), Vec::new());
    assert_eq!(get_nav_tree(&[]), Vec::new());
}

#[test]
fn flatten_gives_every_path_once() {
    let input = vec![rel("a/x.md"), rel("y.md"), rel("a/b/z.md"), rel("a/w.md"), rel("c/v.md")];
    let forest = build_nav_tree(&input);
    let mut got = Vec::new();
    file_paths(&forest, &mut got);
    let mut want: Vec<String> = input.iter().map(|p| p.to_text()).collect();
    got.sort();
    want.sort();
    assert_eq!(got, want);
}

#[test]
fn flatten_keeps_order_within_a_directory() {
    let input = vec![rel("a/x.md"), rel("y.md"), rel("a/b/z.md"), rel("a/w.md")];
    let forest = build_nav_tree(&input);
    let mut got = Vec::new();
    file_paths(&forest, &mut got);
    assert_eq!(got, vec!["a/x.md", "a/b/z.md", "a/w.md", "y.md"]);
}

#[test]
fn shared_prefix_gives_one_directory() {
    let input = vec![rel("docs/a.md"), rel("docs/b.md"), rel("docs/sub/c.md"), rel("other/docs/d.md")];
    let forest = build_nav_tree(&input);
    let mut dirs = Vec::new();
    dir_paths(&forest, &mut dirs);
    assert_eq!(dirs, vec!["docs", "docs/sub", "other", "other/docs"]);
}

#[test]
fn path_without_extension_is_all_directories() {
    let forest = build_nav_tree(&[rel("notes/drafts"), rel("")]);
    assert_eq!(forest.len(), 1);
    let mut files = Vec::new();
    file_paths(&forest, &mut files);
    assert!(files.is_empty());
    let mut dirs = Vec::new();
    dir_paths(&forest, &mut dirs);
    assert_eq!(dirs, vec!["notes", "notes/drafts"]);
}

#[test]
fn file_named_like_a_directory_is_not_reused() {
    let forest = build_nav_tree(&[rel("x.md"), rel("x.md/y.md")]);
    assert_eq!(forest.len(), 2);
    assert_eq!(forest[0].name(), "x.md");
    assert!(matches!(forest[0], NavTree::File { .. }));
    assert!(matches!(forest[1], NavTree::Dir { .. }));
    assert_eq!(forest[1].path().to_text(), "x.md");
}

#[test]
fn node_accessors() {
    let n = NavTree::new_file("a.md".to_string(), rel("d/a.md"));
    assert_eq!(n.name(), "a.md");
    assert_eq!(n.path().to_text(), "d/a.md");
    let m = NavTree::new_dir("d".to_string(), rel("d"));
    assert_eq!(m.name(), "d");
    assert_eq!(m.path().parts, vec!["d".to_string()]);
}

#[test]
fn dto_from_tree() {
    let mut n = NavTree::new_dir("g".to_string(), rel("g"));
    if let NavTree::Dir { children, .. } = &mut n {
        children.push(NavTree::new_file("a\\b.md".to_string(), rel("g/a\\b.md")));
    }
    assert_eq!(NavTreeDto::from(n), d("g", "g", vec![f("a\\b.md", "g/a/b.md")]));
}

#[test]
fn normalize_strips_marker_and_backslashes() {
    assert_eq!(normalize_path(r"\\?\C:\docs\guide"), "C:/docs/guide");
    assert_eq!(normalize_path(r"guide\intro.md"), "guide/intro.md");
    assert_eq!(normalize_path("guide/intro.md"), "guide/intro.md");
    assert_eq!(normalize_path(""), "");
    assert_eq!(normalize_path(r"a\\?\b"), "a//?/b");
}

#[test]
fn normalize_is_idempotent() {
    for s in [r"\\?\C:\x\y", r"a\b/c", "plain", r"\\?\", r"\\?\\\?\z"] {
        let once = normalize_path(s);
        assert_eq!(normalize_path(&once), once);
    }
}

#[test]
fn artifacts_normalize_like_forward_slashes() {
    let plain = "guide/sub/intro.md";
    assert_eq!(normalize_path(r"guide\sub\intro.md"), plain);
    assert_eq!(normalize_path(r"\\?\guide\sub/intro.md"), plain);
    assert_eq!(normalize_path(r"\\?\guide/sub/intro.md"), plain);
}

#[test]
fn hidden_entries_are_excluded() {
    let entries = vec![
        file(".secret.md"),
        file(".hidden/notes.md"),
        file("a/.b/c.md"),
        file("a/b/c.md"),
    ];
    let docs = scan_markdown_files(&entries);
    let texts: Vec<String> = docs.iter().map(|p| p.to_text()).collect();
    assert_eq!(texts, vec!["a/b/c.md"]);
}

#[test]
fn other_extensions_are_excluded() {
    let entries = vec![
        file("image.png"),
        file("README.MD"),
        file("notes.md.bak"),
        file("md"),
        file("x.md"),
        dir("folder.md"),
    ];
    let docs = scan_markdown_files(&entries);
    let texts: Vec<String> = docs.iter().map(|p| p.to_text()).collect();
    assert_eq!(texts, vec!["x.md"]);
    assert!(!is_document_entry(&dir("folder.md")));
    assert!(is_document_entry(&file("a.b.md")));
}

#[test]
fn extension_rules() {
    assert!(has_extension("a.md"));
    assert!(has_extension("a."));
    assert!(!has_extension(".md"));
    assert!(!has_extension("noext"));
    assert!(!has_extension(".."));
    assert!(!has_extension(""));
    assert!(has_doc_extension("a.md"));
    assert!(has_doc_extension("..md"));
    assert!(!has_doc_extension(".md"));
    assert!(!has_doc_extension("a.Md"));
    assert!(!has_doc_extension("a.mdx"));
}

#[test]
fn hidden_names() {
    assert!(is_hidden(".git"));
    assert!(is_hidden("."));
    assert!(!is_hidden("a.b"));
    assert!(!is_hidden(""));
}

#[test]
fn path_text_joins_with_slashes() {
    assert_eq!(rel("a/b/c.md").to_text(), "a/b/c.md");
    assert_eq!(RelPath::new().to_text(), "");
    assert_eq!(rel("a/b/c.md").prefix(2).to_text(), "a/b");
}

#[test]
fn root_dir_is_normalized() {
    let state = ServerState::new(r"\\?\C:\Users\me\docs".to_string());
    assert_eq!(state.root_dir(), r"\\?\C:\Users\me\docs");
    assert_eq!(get_root_dir(&state), "C:/Users/me/docs");
    assert_eq!(get_root_dir(&ServerState::new("/srv/docs".to_string())), "/srv/docs");
}

#[test]
fn key_is_the_path() {
    assert_eq!(get_nav_tree_key(&f("a.md", "g/a.md")), "g/a.md");
    assert_eq!(get_nav_tree_key(&d("g", "g", vec![])), "g");
}

#[test]
fn siblings_follow_first_encounter() {
    let input = vec![rel("b/x.md"), rel("a.md"), rel("b/y.md"), rel("c/z.md"), rel("b2.md")];
    let forest = build_nav_tree(&input);
    let names: Vec<&str> = forest.iter().map(|n| n.name()).collect();
    assert_eq!(names, vec!["b", "a.md", "c", "b2.md"]);
    match &forest[0] {
        NavTree::Dir { children, .. } => {
            let inner: Vec<&str> = children.iter().map(|n| n.name()).collect();
            assert_eq!(inner, vec!["x.md", "y.md"]);
        }
        NavTree::File { .. } => panic!("expected a directory"),
    }
}
