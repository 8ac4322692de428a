use oosikle::listing::FileIndex;
use oosikle::records::FileRecord;
use oosikle::tree::{CursorIntoItem, DirTreeNode};

fn file(name: &str, vfs: &str) -> FileRecord {
    FileRecord {
        file_uuid: format!("{}{}", vfs, name),
        file_name: name.to_string(),
        file_size_bytes: 10,
        file_hash: String::new(),
        file_dir_path: String::new(),
        file_extension_tag: String::new(),
        file_encoding: String::new(),
        media_type_override_id: None,
        file_deleted: false,
        file_read_only: false,
        file_vfs_path: vfs.to_string(),
    }
}

fn store() -> FileIndex {
    FileIndex {
        records: vec![
            file("welcome.txt", ""),
            file("readme.txt", "alpha/"),
            file("something.png", "alpha/only_one_file/"),
            file("a.txt", "beta/"),
            file("b.txt", "beta/"),
            file("c.txt", "beta/"),
            file("abook1.m4b", "beta/gamma/"),
            file("notes.md", "beta/gamma/"),
            file("sonic.sms", "mastersystem/"),
            file("jelpi.p8.png", "pico8/"),
            file("dots.p8.png", "pico8/"),
            file("rain.p8.png", "pico8/"),
            file("snake.p8.png", "pico8/"),
            file("pico8.txt", "pico8/"),
            file("celeste.p8.png", "pico8/celeste/"),
            file("celeste2.p8.png", "pico8/celeste/"),
        ],
    }
}

fn subdir<'a>(t: &'a DirTreeNode, name: &str) -> Option<&'a DirTreeNode> {
    t.subdirs.iter().find(|(k, _)| k == name).map(|(_, d)| d)
}

#[test]
fn facadefs_tests_gets_root() {
    let ffs = store();
    let rootlist = ffs.get_directories_at("");
    assert!(rootlist.contains(&"alpha/".to_string()));
    assert!(rootlist.contains(&"beta/".to_string()));
    assert!(rootlist.contains(&"mastersystem/".to_string()));
    assert!(rootlist.contains(&"pico8/".to_string()));
}

#[test]
fn facadefs_tests_get_lower_folder() {
    let ffs = store();
    let dirlist = ffs.get_directories_at("beta/");
    assert!(dirlist.contains(&"beta/gamma/".to_string()));
}

#[test]
fn facadefs_tests_gets_files_from_dir() {
    let ffs = store();
    let filelist = ffs.get_files_at("alpha/only_one_file/");
    assert!(filelist.get(0).expect("Query should return 1 item").file_name == "something.png");
    let filelist_2 = ffs.get_files_at("pico8/");
    assert!(filelist_2.len() == 5);
}

#[test]
fn facadefs_tests_get_tree() {
    let ffs = store();
    let tree = ffs.get_dir_tree_at("pico8/");
    println!("The dir tree is: {:?}", tree);
    println!("The dir tree length is: {:?}", tree.files.len());
    assert!(tree.dirpath.as_str() == "pico8/");
    assert!(tree.files.len() == 5);
    assert!(subdir(&tree, "celeste").unwrap().files.len() == 2);
}

#[test]
fn tests_cursor_into_works() {
    let ffs = store();
    let tree = ffs.get_dir_tree_at("");
    let cursor_result_1 = tree.get_at_path("beta/gamma/abook1.m4b").unwrap();
    if let CursorIntoItem::File(a) = cursor_result_1 {
        assert!(a.file_name == "abook1.m4b");
    } else {
        panic!("The thing returned was not a File");
    };
    let cursor_result_2 = tree.get_at_path("pico8/celeste").unwrap();
    if let CursorIntoItem::Dir(a) = cursor_result_2 {
        assert!(a.dirpath == "pico8/celeste/");
    } else {
        panic!("The thing returned was not a Dir");
    };
}

#[test]
fn tests_recursive_search_works() {
    let ffs = store();
    let tree = ffs.get_dir_tree_at("");
    let res1 = tree.search_files_with_names_matching_pattern_recursive(r"*.p8.png");
    println!("res is {:?}", res1);
    assert_eq!(res1.len(), 6);
}

#[test]
fn tests_single_dir_search_works() {
    let ffs = store();
    let tree = ffs.get_dir_tree_at("pico8/");
    let res1 = tree.search_files_with_names_matching_pattern(r"*.p8.png");
    println!("res is {:?}", res1);
    assert_eq!(res1.len(), 4);
}

#[test]
fn tests_flattening_works() {
    let ffs = store();
    let tree = ffs.get_dir_tree_at("beta/");
    let res1 = tree.flatten();
    println!("res is {:?}", res1);
    assert_eq!(res1.len(), 5);
}

#[test]
fn tests_filtered_flattening_works() {
    let ffs = store();
    let tree = ffs.get_dir_tree_at("beta/");
    let res1 = tree.glob(r"**/*.md");
    println!("res is {:?}", res1);
    assert_eq!(res1.len(), 1);
}
