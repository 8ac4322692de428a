use oosikle::listing::{child_dir_of, FileIndex};
use oosikle::records::FileRecord;
use oosikle::tree::{CursorIntoItem, DirTreeNode};

fn record(name: &str, vfs: &str) -> FileRecord {
    FileRecord {
        file_uuid: format!("{}{}", vfs, name),
        file_name: name.to_string(),
        file_size_bytes: 1,
        file_hash: String::new(),
        file_dir_path: String::new(),
        file_extension_tag: String::new(),
        file_encoding: String::new(),
        media_type_override_id: None,
        file_deleted: false,
        file_read_only: false,
        file_vfs_path: vfs.to_string(),
    }
}

fn catalog() -> FileIndex {
    FileIndex {
        records: vec![
            record("welcome.txt", ""),
            record("readme.txt", "alpha/"),
            record("something.png", "alpha/only_one_file/"),
            record("a.txt", "beta/"),
            record("b.txt", "beta/"),
            record("c.txt", "beta/"),
            record("abook1.m4b", "beta/gamma/"),
            record("notes.md", "beta/gamma/"),
            record("sonic.sms", "mastersystem/"),
            record("jelpi.p8.png", "pico8/"),
            record("dots.p8.png", "pico8/"),
            record("rain.p8.png", "pico8/"),
            record("snake.p8.png", "pico8/"),
            record("pico8.txt", "pico8/"),
            record("celeste.p8.png", "pico8/celeste/"),
            record("celeste2.p8.png", "pico8/celeste/"),
        ],
    }
}

fn shape(t: &DirTreeNode) -> String {
    let mut files: Vec<String> = t.files.iter().map(|(k, r)| format!("{}={}", k, r.file_uuid)).collect();
    files.sort();
    let mut subs: Vec<String> = t.subdirs.iter().map(|(k, d)| format!("{}:{}", k, shape(d))).collect();
    subs.sort();
    format!("[{} {:?} {:?}]", t.dirpath, files, subs)
}

#[test]
fn root_directories_are_exactly_the_top_level_ones() {
    let mut dirs = catalog().get_directories_at("");
    dirs.sort();
    assert_eq!(dirs, vec!["alpha/", "beta/", "mastersystem/", "pico8/"]);
}

#[test]
fn lower_directories_are_exactly_the_children() {
    assert_eq!(catalog().get_directories_at("beta/"), vec!["beta/gamma/"]);
    assert!(catalog().get_directories_at("beta/gamma/").is_empty());
}

#[test]
fn directories_come_once_each_in_first_seen_order() {
    let idx = FileIndex {
        records: vec![record("x", "b/q/"), record("y", "a/"), record("z", "b/r/s/"), record("w", "a/t/")],
    };
    assert_eq!(idx.get_directories_at(""), vec!["b/", "a/"]);
    assert_eq!(idx.get_directories_at("b/"), vec!["b/q/", "b/r/"]);
}

#[test]
fn files_at_is_an_exact_match_not_a_prefix() {
    let files = catalog().get_files_at("alpha/only_one_file/");
    assert_eq!(files.len(), 1);
    assert_eq!(files[0].file_name, "something.png");
    assert_eq!(catalog().get_files_at("alpha/").len(), 1);
    assert_eq!(catalog().get_files_at("alpha").len(), 0);
}

#[test]
fn child_directory_of_a_path() {
    assert_eq!(child_dir_of("", "beta/gamma/"), Some("beta/".to_string()));
    assert_eq!(child_dir_of("beta/", "beta/gamma/"), Some("beta/gamma/".to_string()));
    assert_eq!(child_dir_of("beta/", "beta/"), None);
    assert_eq!(child_dir_of("beta/", "alpha/x/"), None);
    assert_eq!(child_dir_of("beta/", "beta/nosep"), None);
    assert_eq!(child_dir_of("beta/", "beta//x/"), None);
}

#[test]
fn tree_of_pico8_has_its_files_and_celeste() {
    let tree = catalog().get_dir_tree_at("pico8/");
    assert_eq!(tree.files.len(), 5);
    let celeste = tree.subdirs.iter().find(|(k, _)| k == "celeste").map(|(_, d)| d).unwrap();
    assert_eq!(celeste.files.len(), 2);
    assert_eq!(celeste.dirpath, "pico8/celeste/");
}

#[test]
fn same_name_twice_in_a_directory_keeps_the_later_record() {
    let mut second = record("dup.txt", "d/");
    second.file_uuid = "second".to_string();
    let idx = FileIndex { records: vec![record("dup.txt", "d/"), record("other.txt", "d/"), second] };
    let tree = idx.get_dir_tree_at("d/");
    assert_eq!(tree.files.len(), 2);
    assert_eq!(tree.files[0].0, "dup.txt");
    assert_eq!(tree.files[0].1.file_uuid, "second");
}

#[test]
fn building_the_tree_twice_gives_equal_trees() {
    let idx = catalog();
    let a = idx.get_dir_tree_at("");
    let b = idx.get_dir_tree_at("");
    assert_eq!(shape(&a), shape(&b));
}

#[test]
fn catch_all_glob_matches_the_whole_flattening() {
    let tree = catalog().get_dir_tree_at("");
    let flat = tree.flatten();
    let all = tree.glob("**");
    assert_eq!(flat.len(), 16);
    assert_eq!(all.len(), flat.len());
    let some = tree.glob("**/*.p8.png");
    for (p, r) in &some {
        assert!(flat.iter().any(|(q, s)| q == p && s.file_uuid == r.file_uuid));
    }
    assert!(some.len() <= flat.len());
}

#[test]
fn flatten_gives_paths_relative_to_the_node() {
    let tree = catalog().get_dir_tree_at("beta/");
    let mut paths: Vec<String> = tree.flatten().into_iter().map(|(p, _)| p).collect();
    paths.sort();
    assert_eq!(paths, vec!["a.txt", "b.txt", "c.txt", "gamma/abook1.m4b", "gamma/notes.md"]);
}

#[test]
fn every_flattened_path_leads_back_to_its_file() {
    let tree = catalog().get_dir_tree_at("");
    for (path, rec) in tree.flatten() {
        match tree.get_at_path(&path) {
            Some(CursorIntoItem::File(f)) => assert_eq!(f.file_uuid, rec.file_uuid),
            _ => panic!("{} did not lead to a file", path),
        }
    }
}

#[test]
fn lookup_of_files_and_directories() {
    let tree = catalog().get_dir_tree_at("");
    match tree.get_at_path("beta/gamma/abook1.m4b") {
        Some(CursorIntoItem::File(f)) => assert_eq!(f.file_name, "abook1.m4b"),
        _ => panic!("not a file"),
    }
    match tree.get_at_path("pico8/celeste") {
        Some(CursorIntoItem::Dir(d)) => assert_eq!(d.dirpath, "pico8/celeste/"),
        _ => panic!("not a directory"),
    }
    assert!(tree.get_at_path("").is_none());
    assert!(tree.get_at_path("nothere/x.txt").is_none());
    assert!(tree.get_at_path("beta/missing").is_none());
}

#[test]
fn a_file_wins_over_a_directory_of_the_same_name() {
    let mut root = DirTreeNode::new("");
    root.files.push(("same".to_string(), record("same", "")));
    root.subdirs.push(("same".to_string(), DirTreeNode::new("same/")));
    match root.get_at_path("same") {
        Some(CursorIntoItem::File(f)) => assert_eq!(f.file_name, "same"),
        _ => panic!("the file should take precedence"),
    }
}

#[test]
fn recursive_search_finds_more_than_one_directory_by_the_others() {
    let idx = catalog();
    let full = idx.get_dir_tree_at("").search_files_with_names_matching_pattern_recursive("*.p8.png");
    let pico = idx.get_dir_tree_at("pico8/");
    let here = pico.search_files_with_names_matching_pattern("*.p8.png");
    let celeste = pico.subdirs.iter().find(|(k, _)| k == "celeste").map(|(_, d)| d).unwrap();
    let there = celeste.search_files_with_names_matching_pattern("*.p8.png");
    assert_eq!(here.len(), 4);
    assert_eq!(there.len(), 2);
    assert_eq!(full.len(), here.len() + there.len());
}

#[test]
fn empty_tree_has_nothing() {
    let t = DirTreeNode::new("x/");
    assert_eq!(t.dirpath, "x/");
    assert!(t.flatten().is_empty());
    assert!(t.glob("**").is_empty());
    assert!(t.search_files_with_names_matching_pattern_recursive("*").is_empty());
    assert!(FileIndex { records: vec![] }.get_directories_at("").is_empty());
}

#[test]
fn dot_names_at_the_end_of_a_path_lead_nowhere() {
    let tree = catalog().get_dir_tree_at("");
    assert!(tree.get_at_path("beta/..").is_none());
    assert!(tree.get_at_path("beta/gamma/.").is_none());
    assert!(tree.get_at_path("..").is_none());
}

#[test]
fn dot_and_empty_segments_make_no_child_directory() {
    assert_eq!(child_dir_of("a/", "a/../x/"), None);
    assert_eq!(child_dir_of("a/", "a/./"), None);
    assert_eq!(child_dir_of("a/", "a/.hidden/"), Some("a/.hidden/".to_string()));
    let idx = FileIndex { records: vec![record("x", "a/../"), record("y", "a//b/"), record("z", "a/c/")] };
    let tree = idx.get_dir_tree_at("a/");
    assert_eq!(tree.subdirs.len(), 1);
    assert_eq!(tree.subdirs[0].0, "c");
    assert!(tree.get_at_path("../x").is_none());
}

#[test]
fn a_cloned_tree_has_the_same_shape() {
    let tree = catalog().get_dir_tree_at("");
    let copy = tree.clone();
    assert_eq!(shape(&tree), shape(&copy));
    assert_eq!(copy.flatten().len(), tree.flatten().len());
}
