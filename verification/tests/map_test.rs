use codegraph_kit::lang::Language;
use codegraph_kit::map::stats::{count_lines, summarize, FileFacts, SymbolKind};
use codegraph_kit::map::tree::{build_tree, tree_lines, tree_paths, Node, TreePath};
use codegraph_kit::map::walk::{is_ignored_dir, walk_sources, WalkEntry};

fn entry(path: &str, is_file: bool) -> WalkEntry {
    WalkEntry { path: path.to_string(), is_file }
}

#[test]
fn walk_keeps_recognised_files_sorted_by_path() {
    let entries = vec![
        entry("/p", false),
        entry("/p/src", false),
        entry("/p/src/lib.rs", true),
        entry("/p/src/a-b.ts", true),
        entry("/p/src/a/b.js", true),
        entry("/p/README.md", true),
        entry("/p/tool.py", true),
        entry("/p/.rs", true),
        entry("/p/x.mjs", true),
        entry("/p/weird.rs", false),
    ];
    let got = walk_sources(&entries);
    let paths: Vec<(&str, Language)> = got.iter().map(|s| (s.path.as_str(), s.language)).collect();
    assert_eq!(
        paths,
        vec![
            ("/p/src/a/b.js", Language::JavaScript),
            ("/p/src/a-b.ts", Language::TypeScript),
            ("/p/src/lib.rs", Language::Rust),
            ("/p/tool.py", Language::Python),
            ("/p/x.mjs", Language::JavaScript),
        ]
    );
}

#[test]
fn ignored_directories() {
    for d in ["target", "node_modules", ".git", "dist", "build"] {
        assert!(is_ignored_dir(d));
    }
    assert!(!is_ignored_dir("src"));
    assert!(!is_ignored_dir("builds"));
}

fn names(n: &Node) -> Vec<&str> {
    n.children.iter().map(|c| c.name.as_str()).collect()
}

#[test]
fn tree_nests_paths_under_the_root() {
    let paths = vec![
        ("/p/src".to_string(), true),
        ("/p/src/lib.rs".to_string(), false),
        ("/p/src/bin/main.rs".to_string(), false),
        ("/p/Cargo.toml".to_string(), false),
    ];
    let root = build_tree("/p", &paths);
    assert_eq!(root.name, "p");
    assert!(root.is_dir);
    assert_eq!(names(&root), vec!["src", "Cargo.toml"]);
    let src = &root.children[0];
    assert!(src.is_dir);
    assert_eq!(names(src), vec!["lib.rs", "bin"]);
    assert!(!src.children[0].is_dir);
    assert!(src.children[1].is_dir, "a parent of another path is a directory");
    assert_eq!(names(&src.children[1]), vec!["main.rs"]);
    assert!(!root.children[1].is_dir);
}

#[test]
fn tree_root_without_a_name_is_dot() {
    let root = build_tree("/", &vec![("/a".to_string(), false)]);
    assert_eq!(root.name, ".");
    assert_eq!(names(&root), vec!["a"]);
}

#[test]
fn tree_paths_drop_the_root_and_sort() {
    let walked = vec![
        TreePath { path: "/p".to_string(), is_dir: true },
        TreePath { path: "/p/src/lib.rs".to_string(), is_dir: false },
        TreePath { path: "/p/Cargo.toml".to_string(), is_dir: false },
        TreePath { path: "/p/src".to_string(), is_dir: true },
    ];
    let got: Vec<String> = tree_paths("/p", walked).into_iter().map(|t| t.path).collect();
    assert_eq!(got, vec!["/p/Cargo.toml", "/p/src", "/p/src/lib.rs"]);
}

#[test]
fn tree_lines_indent_each_new_component() {
    let paths = vec![
        "/p/Cargo.toml".to_string(),
        "/p/src".to_string(),
        "/p/src/a.rs".to_string(),
        "/p/src/b/c.rs".to_string(),
    ];
    let lines = tree_lines("/p", &paths);
    assert_eq!(
        lines,
        vec!["p", "  Cargo.toml", "  src", "    a.rs", "    b", "      c.rs"]
    );
}

#[test]
fn lines_are_counted_like_str_lines() {
    assert_eq!(count_lines(""), 0);
    assert_eq!(count_lines("a"), 1);
    assert_eq!(count_lines("a\n"), 1);
    assert_eq!(count_lines("a\n\nb"), 3);
    assert_eq!(count_lines("a\r\nb\r\n"), 2);
}

#[test]
fn stats_sum_per_language_and_kind_in_name_order() {
    let files = vec![
        FileFacts { language: Language::Rust, lines: 10, symbols: vec![SymbolKind::Fn, SymbolKind::Struct] },
        FileFacts { language: Language::Python, lines: 4, symbols: vec![SymbolKind::Fn, SymbolKind::Class] },
        FileFacts { language: Language::Rust, lines: 6, symbols: vec![SymbolKind::Fn] },
    ];
    let r = summarize(&files);
    assert_eq!(r.total_files, 3);
    assert_eq!(r.total_lines, 20);
    let langs: Vec<(&str, usize, usize)> = r.languages.iter().map(|(n, s)| (*n, s.files, s.lines)).collect();
    assert_eq!(langs, vec![("python", 1, 4), ("rust", 2, 16)]);
    assert_eq!(r.symbols, vec![("class", 1), ("fn", 3), ("struct", 1)]);
    let empty = summarize(&vec![]);
    assert_eq!(empty.total_files, 0);
    assert!(empty.languages.is_empty() && empty.symbols.is_empty());
}

#[test]
fn inserting_a_path_twice_changes_nothing() {
    let once = build_tree("/p", &vec![("/p/src/lib.rs".to_string(), false), ("/p/a".to_string(), true)]);
    let twice = build_tree(
        "/p",
        &vec![
            ("/p/src/lib.rs".to_string(), false),
            ("/p/a".to_string(), true),
            ("/p/src/lib.rs".to_string(), false),
            ("/p/a".to_string(), true),
        ],
    );
    assert_eq!(format!("{once:?}"), format!("{twice:?}"));
}

#[test]
fn names_stay_distinct_at_every_level() {
    fn distinct(n: &Node) -> bool {
        let mut names: Vec<&str> = n.children.iter().map(|c| c.name.as_str()).collect();
        names.sort();
        names.windows(2).all(|w| w[0] != w[1]) && n.children.iter().all(distinct)
    }
    let root = build_tree(
        "/p",
        &vec![
            ("/p/src/a.rs".to_string(), false),
            ("/p/src/b.rs".to_string(), false),
            ("/p/src/a.rs".to_string(), false),
            ("/p/src".to_string(), true),
            ("/p/docs/x.md".to_string(), false),
        ],
    );
    assert!(distinct(&root));
    assert_eq!(root.children.len(), 2);
    assert_eq!(root.children[0].children.len(), 2);
}
