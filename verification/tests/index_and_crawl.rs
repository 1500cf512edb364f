use jazz::crawl::{
    crawl, descends_into, is_markdown_file_name, is_skipped_name, lists_directory, DirEntryNode, DirNode,
    EntryKind, CRAWL_DEPTH,
};
use jazz::index::{AppState, MdIndex};

fn file(name: &str) -> DirEntryNode {
    DirEntryNode { name: name.to_string(), kind: Some(EntryKind::File), subdir: None }
}

fn entry(name: &str, kind: EntryKind) -> DirEntryNode {
    DirEntryNode { name: name.to_string(), kind: Some(kind), subdir: None }
}

fn dir(name: &str, node: DirNode) -> DirEntryNode {
    DirEntryNode { name: name.to_string(), kind: Some(EntryKind::Dir), subdir: Some(node) }
}

fn node(path: &str, entries: Vec<DirEntryNode>) -> DirNode {
    DirNode { path: path.to_string(), canonical: Some(path.to_string()), entries: Some(entries) }
}

#[test]
fn index_finds_paths_by_components() {
    let mut idx = MdIndex::new();
    assert!(idx.insert("/home/u/docs"));
    assert!(!idx.insert("/home/u/docs/"));
    assert!(idx.insert("/home/u/notes"));
    assert_eq!(idx.len(), 2);
    assert!(idx.contains_dir("/home/u/docs"));
    assert!(idx.contains_dir("/home//u/docs/"));
    assert!(!idx.contains_dir("/home/u"));
    assert_eq!(idx.dirs(), vec!["/home/u/docs".to_string(), "/home/u/notes".to_string()]);
}

#[test]
fn app_state_hands_out_its_index() {
    let mut idx = MdIndex::new();
    idx.insert("/h/a");
    let mut state = AppState::new("/h".to_string(), MdIndex::new());
    assert_eq!(state.get_index().len(), 0);
    state.replace_index(idx);
    assert!(state.get_index().contains_dir("/h/a"));
    assert_eq!(state.home_dir, "/h");
}

#[test]
fn skipped_names_are_hidden_and_listed_ones() {
    assert!(is_skipped_name(".git"));
    assert!(is_skipped_name("node_modules"));
    assert!(is_skipped_name(".venv"));
    assert!(is_skipped_name("go"));
    assert!(!is_skipped_name("golang"));
    assert!(!is_skipped_name("notes"));
    assert!(!is_skipped_name(""));
}

#[test]
fn markdown_names_end_with_md() {
    assert!(is_markdown_file_name("a.md"));
    assert!(is_markdown_file_name(".md"));
    assert!(!is_markdown_file_name("a.MD"));
    assert!(!is_markdown_file_name("a.mdx"));
}

#[test]
fn descent_rules() {
    assert!(lists_directory(1));
    assert!(!lists_directory(0));
    assert!(descends_into("docs", EntryKind::Dir));
    assert!(!descends_into("target", EntryKind::Dir));
    assert!(!descends_into("docs", EntryKind::Symlink));
    assert!(!descends_into("a.md", EntryKind::File));
}

#[test]
fn crawl_indexes_directories_holding_markdown() {
    let tree = node(
        "/h",
        vec![
            file("todo.txt"),
            dir("docs", node("/h/docs", vec![file("guide.md"), dir("img", node("/h/docs/img", vec![file("a.png")]))])),
            dir("deep", node("/h/deep", vec![dir("er", node("/h/deep/er", vec![file("x.md")]))])),
            dir("empty", node("/h/empty", vec![])),
        ],
    );
    let mut idx = MdIndex::new();
    assert!(crawl(&tree, &mut idx, CRAWL_DEPTH));
    assert_eq!(
        idx.dirs(),
        vec!["/h/docs".to_string(), "/h/deep/er".to_string(), "/h/deep".to_string(), "/h".to_string()]
    );
    let built = MdIndex::build(&tree);
    assert_eq!(built.dirs(), idx.dirs());
}

#[test]
fn crawl_passes_over_skipped_entries_and_links() {
    let tree = node(
        "/h",
        vec![
            file(".hidden.md"),
            entry("link.md", EntryKind::Symlink),
            dir("node_modules", node("/h/node_modules", vec![file("readme.md")])),
            dir(".config", node("/h/.config", vec![file("notes.md")])),
            DirEntryNode { name: "odd.md".to_string(), kind: None, subdir: None },
            entry("sock.md", EntryKind::Other),
        ],
    );
    let mut idx = MdIndex::new();
    assert!(!crawl(&tree, &mut idx, CRAWL_DEPTH));
    assert_eq!(idx.len(), 0);
}

#[test]
fn crawl_stops_at_its_depth() {
    let tree = node("/h", vec![dir("a", node("/h/a", vec![file("x.md")]))]);
    let mut idx = MdIndex::new();
    assert!(!crawl(&tree, &mut idx, 1));
    assert_eq!(idx.len(), 0);
    assert!(crawl(&tree, &mut idx, 2));
    assert_eq!(idx.dirs(), vec!["/h/a".to_string(), "/h".to_string()]);
    let mut none = MdIndex::new();
    assert!(!crawl(&tree, &mut none, 0));
}

#[test]
fn crawl_leaves_out_directories_without_canonical_path() {
    let tree = DirNode { path: "/h/raw".to_string(), canonical: None, entries: Some(vec![file("a.md")]) };
    let mut idx = MdIndex::new();
    assert!(crawl(&tree, &mut idx, 3));
    assert_eq!(idx.len(), 0);
    assert!(!idx.contains_dir("/h/raw"));
    let outer = DirNode {
        path: "/h".to_string(),
        canonical: Some("/h".to_string()),
        entries: Some(vec![dir("raw", tree)]),
    };
    let mut idx2 = MdIndex::new();
    assert!(crawl(&outer, &mut idx2, 3));
    assert_eq!(idx2.dirs(), vec!["/h".to_string()]);
}

#[test]
fn unreadable_directory_holds_nothing() {
    let tree = DirNode { path: "/h".to_string(), canonical: Some("/h".to_string()), entries: None };
    let mut idx = MdIndex::new();
    assert!(!crawl(&tree, &mut idx, 6));
}

fn layered_tree(extra: bool) -> DirNode {
    let mut top = vec![dir("a", node("/h/a", vec![dir("b", node("/h/a/b", vec![file("x.md")]))]))];
    let mut inner = vec![file("y.md")];
    if extra {
        top.insert(0, file(".secret.md"));
        top.push(entry("link", EntryKind::Symlink));
        top.push(dir("target", node("/h/target", vec![file("z.md")])));
        inner.insert(0, dir(".git", node("/h/c/.git", vec![file("w.md")])));
    }
    top.push(dir("c", node("/h/c", inner)));
    node("/h", top)
}

#[test]
fn deeper_crawl_finds_every_directory_a_shallower_one_finds() {
    let tree = layered_tree(false);
    let mut shallow = MdIndex::new();
    let mut deep = MdIndex::new();
    assert!(crawl(&tree, &mut shallow, 2));
    assert!(crawl(&tree, &mut deep, 3));
    assert_eq!(shallow.dirs(), vec!["/h/c".to_string(), "/h".to_string()]);
    for d in shallow.dirs() {
        assert!(deep.contains_dir(&d));
    }
    assert!(deep.contains_dir("/h/a/b"));
}

#[test]
fn passed_over_entries_anywhere_change_nothing() {
    let mut plain = MdIndex::new();
    let mut cluttered = MdIndex::new();
    let r1 = crawl(&layered_tree(false), &mut plain, CRAWL_DEPTH);
    let r2 = crawl(&layered_tree(true), &mut cluttered, CRAWL_DEPTH);
    assert_eq!(r1, r2);
    assert_eq!(plain.dirs(), cluttered.dirs());
}

fn chain(path: &str, level: usize, last: usize) -> DirNode {
    let mut entries = vec![file("n.md")];
    if level < last {
        let name = format!("d{}", level + 1);
        let child = format!("{}/{}", path, name);
        entries.push(dir(&name, chain(&child, level + 1, last)));
    }
    node(path, entries)
}

#[test]
fn index_lies_below_home_and_within_depth() {
    let tree = chain("/h", 0, 8);
    let idx = MdIndex::build(&tree);
    let dirs = idx.dirs();
    assert_eq!(dirs.len(), 6);
    assert_eq!(dirs[0], "/h/d1/d2/d3/d4/d5");
    assert_eq!(dirs[5], "/h");
    for d in &dirs {
        assert!(d == "/h" || d.starts_with("/h/"));
        let below = d.trim_start_matches("/h").split('/').filter(|s| !s.is_empty()).count();
        assert!(below <= (CRAWL_DEPTH as usize) - 1);
        if d != "/h" {
            let parent = &d[..d.rfind('/').unwrap()];
            assert!(idx.contains_dir(parent));
        }
    }
    assert!(!idx.contains_dir("/h/d1/d2/d3/d4/d5/d6"));
}

#[test]
fn index_spells_directories_by_their_canonical_paths() {
    let inner = DirNode {
        path: "/link/notes".to_string(),
        canonical: Some("/data/notes".to_string()),
        entries: Some(vec![file("a.md")]),
    };
    let tree = DirNode {
        path: "/link".to_string(),
        canonical: Some("/data".to_string()),
        entries: Some(vec![dir("notes", inner)]),
    };
    let idx = MdIndex::build(&tree);
    assert_eq!(idx.dirs(), vec!["/data/notes".to_string(), "/data".to_string()]);
    assert!(!idx.contains_dir("/link/notes"));
}
