use freightview::docker_file_tree::{
    parse_directory_into_tree, DDiveFileType, DiskEntry, FileOp, TreeNode,
};
use freightview::file_tree::EntryMetadata;

fn dir(path: &str) -> TreeNode {
    TreeNode::new(&DDiveFileType::Directory, &FileOp::Add, path)
}

fn file(path: &str) -> TreeNode {
    TreeNode::new(&DDiveFileType::File, &FileOp::Add, path)
}

/// The layer that the tests walk: three directories below the root, the
/// children in the order in which the directory lists them.
fn construct_tree() -> TreeNode {
    let mut subsubtest = dir("/subtest/subsubtest");
    subsubtest.add_child(file("/subtest/subsubtest/subsubtestfile"));
    let mut subtest = dir("/subtest");
    subtest.add_child(file("/subtest/subtestfile"));
    subtest.add_child(subsubtest);
    subtest.add_child(dir("/subtest/subsubtest2"));

    let mut subsubtest2 = dir("/subtest2/subsubtest2");
    subsubtest2.add_child(file("/subtest2/subsubtest2/subsubfile2"));
    let mut subtest2 = dir("/subtest2");
    subtest2.add_child(TreeNode::new(&DDiveFileType::File, &FileOp::Remove, "/subtest2/whatever"));
    subtest2.add_child(file("/subtest2/subfile2"));
    subtest2.add_child(subsubtest2);

    let mut root = dir("");
    root.add_child(subtest);
    root.add_child(subtest2);
    root.add_child(TreeNode::new(&DDiveFileType::Directory, &FileOp::Remove, "/subtest3"));

    let mut parent = dir("");
    parent.add_child(root);
    parent.prettyfy()
}

#[test]
fn test_print_tree() {
    let tree = construct_tree();
    let mut out = String::new();
    tree.print_tree(0, &mut out);
    println!("{}", out);
    assert!(out.starts_with("Directory</>: Add\n  Directory</subtest>: Add\n    File</subtest/subtestfile>: Add\n"));
    assert_eq!(out.lines().count(), 12);
}

#[test]
fn filter_tree_full_path() {
    let tree = construct_tree();
    let filter = "/subtest/subsubtest";
    let filtered_tree = tree.filter_tree_full_path(filter);
    let mut out = String::new();
    filtered_tree.unwrap().print_tree(0, &mut out);
    let out = out.split("\n").collect::<Vec<&str>>();
    assert_eq!(out[0].trim(), "Directory</>: Add");
    assert_eq!(out[1].trim(), "Directory</subtest>: Add");
    assert_eq!(out[2].trim(), "Directory</subtest/subsubtest>: Add");
    assert_eq!(
        out[3].trim(),
        "File</subtest/subsubtest/subsubtestfile>: Add"
    );
}

#[test]
fn filter_tree_full_path_2() {
    let tree = construct_tree();
    let filter = "/subtest";
    let filtered_tree = tree.filter_tree_full_path(filter);
    let mut out = String::new();
    filtered_tree.unwrap().print_tree(0, &mut out);
    let out = out.split("\n").collect::<Vec<&str>>();
    assert_eq!(out[0].trim(), "Directory</>: Add");
    assert_eq!(out[1].trim(), "Directory</subtest>: Add");
    assert_eq!(out[2].trim(), "File</subtest/subtestfile>: Add");
    assert_eq!(out[3].trim(), "Directory</subtest/subsubtest>: Add");
    assert_eq!(
        out[4].trim(),
        "File</subtest/subsubtest/subsubtestfile>: Add"
    );
    assert_eq!(out[5].trim(), "Directory</subtest/subsubtest2>: Add");
}

#[test]
fn filter_tree_full_path_none() {
    let tree = construct_tree();
    let filter = "/subtest/subsasdubtest2";
    let filtered_tree = tree.filter_tree_full_path(filter);
    match filtered_tree {
        Some(_) => {
            assert!(false);
        }
        None => {
            assert!(true);
        }
    }
}

#[test]
fn filter_tree_not_full() {
    let tree = construct_tree();
    let filter = "/subtest/subsubte";
    let filtered_tree = tree.filter_tree_full_path(filter);
    let mut out = String::new();
    filtered_tree.unwrap().print_tree(0, &mut out);
    let out = out.split("\n").collect::<Vec<&str>>();
    for line in &out {
        println!("{}", line);
    }

    assert_eq!(out[0].trim(), "Directory</>: Add");
    assert_eq!(out[1].trim(), "Directory</subtest>: Add");
    assert_eq!(out[2].trim(), "Directory</subtest/subsubtest>: Add");
    assert_eq!(
        out[3].trim(),
        "File</subtest/subsubtest/subsubtestfile>: Add"
    );
    assert_eq!(out[4].trim(), "Directory</subtest/subsubtest2>: Add");
}

#[test]
fn filter_partial_start() {
    let tree = construct_tree();
    let filter = "/subte";
    let filtered_tree = tree.filter_tree_full_path(filter);
    let mut out = String::new();
    filtered_tree.unwrap().print_tree(0, &mut out);
    let out = out.split("\n").collect::<Vec<&str>>();
    for line in &out {
        println!("{}", line);
    }

    let outputs = [
        "Directory</>: Add",
        "Directory</subtest>: Add",
        "File</subtest/subtestfile>: Add",
        "Directory</subtest/subsubtest>: Add",
        "File</subtest/subsubtest/subsubtestfile>: Add",
        "Directory</subtest/subsubtest2>: Add",
        "Directory</subtest2>: Add",
        "File</subtest2/whatever>: Remove",
        "File</subtest2/subfile2>: Add",
        "Directory</subtest2/subsubtest2>: Add",
        "File</subtest2/subsubtest2/subsubfile2>: Add",
    ];

    for i in 0..outputs.len() {
        assert_eq!(out[i].trim(), outputs[i]);
    }
}

#[test]
fn bare_filter_leaves_the_tree_as_it_is() {
    let tree = construct_tree();
    let before = tree.clone();
    let _ = tree.filter_tree_full_path("/subtest/subsub");
    assert_eq!(tree, before);
}

#[test]
fn bare_filter_without_segments_gives_none() {
    let tree = construct_tree();
    assert!(tree.filter_tree_full_path("").is_none());
    assert!(tree.filter_tree_full_path("///").is_none());
}

#[test]
fn bare_filter_sorts_the_last_level_by_name() {
    let mut root = dir("/");
    root.add_child(file("/b2"));
    root.add_child(file("/b1"));
    root.add_child(file("/a"));
    root.add_child(file("/b10"));
    let narrowed = root.filter_tree_full_path("b").unwrap();
    let names: Vec<String> = narrowed.kids().iter().map(|k| k.path().clone()).collect();
    assert_eq!(names, vec!["/b1", "/b10", "/b2"]);
}

#[test]
fn bare_filter_takes_the_first_of_equal_names() {
    let mut first = dir("/a");
    first.add_child(file("/a/x"));
    let mut second = dir("/a");
    second.add_child(file("/a/y"));
    let mut root = dir("/");
    root.add_child(first);
    root.add_child(second);
    let narrowed = root.filter_tree_full_path("a/").unwrap();
    assert_eq!(narrowed.kids().len(), 2);
    let narrowed = root.filter_tree_full_path("a/x").unwrap();
    assert_eq!(narrowed.kids().len(), 1);
    assert_eq!(narrowed.kids()[0].kids()[0].path(), "/a/x");
    assert!(root.filter_tree_full_path("a/y").is_none());
}

#[test]
fn breadth_first_goes_level_by_level() {
    let tree = construct_tree();
    let paths: Vec<String> = tree.breadth_first().iter().map(|n| n.path().clone()).collect();
    assert_eq!(
        paths,
        vec![
            "/",
            "/subtest",
            "/subtest2",
            "/subtest3",
            "/subtest/subtestfile",
            "/subtest/subsubtest",
            "/subtest/subsubtest2",
            "/subtest2/whatever",
            "/subtest2/subfile2",
            "/subtest2/subsubtest2",
            "/subtest/subsubtest/subsubtestfile",
            "/subtest2/subsubtest2/subsubfile2",
        ]
    );
}

#[test]
fn prettyfy_keeps_a_node_with_several_children() {
    let mut parent = dir("");
    parent.add_child(file("/a"));
    parent.add_child(file("/b"));
    let same = parent.clone().prettyfy();
    assert_eq!(same, parent);
    let empty = dir("/x").prettyfy();
    assert_eq!(empty, dir("/x"));
}

#[test]
fn prettyfy_keeps_the_path_of_an_only_child_that_has_one() {
    let mut parent = dir("");
    parent.add_child(file("/a"));
    assert_eq!(parent.prettyfy(), file("/a"));
}

#[test]
fn entry_nodes_are_shown_without_the_marker() {
    let node = TreeNode::for_entry("subtest2/.wh.whatever", &DDiveFileType::File);
    assert_eq!(node.path(), "/subtest2/whatever");
    assert_eq!(*node.fop(), FileOp::Remove);
    assert_eq!(*node.ftype(), DDiveFileType::File);
    assert!(node.is_leaf());

    let node = TreeNode::for_entry("subtest", &DDiveFileType::Directory);
    assert_eq!(node.path(), "/subtest");
    assert_eq!(*node.fop(), FileOp::Add);

    let node = TreeNode::for_entry("", &DDiveFileType::Directory);
    assert_eq!(node.path(), "/");

    let node = TreeNode::for_entry("a/b/c", &DDiveFileType::Symlink);
    assert_eq!(node.path(), "/a/b/c");
}

#[test]
fn print_tree_indents_by_depth() {
    let mut a = dir("/a");
    a.add_child(TreeNode::new(&DDiveFileType::Symlink, &FileOp::Add, "/a/l"));
    a.add_child(TreeNode::new(&DDiveFileType::Badfile, &FileOp::Remove, "/a/b"));
    let mut out = String::from("x");
    a.print_tree(2, &mut out);
    assert_eq!(out, "x    Directory</a>: Add\n      Symlink</a/l>: Add\n      Badfile</a/b>: Remove\n");
}

fn reported(is_symlink: bool, is_file: bool, is_dir: bool) -> Option<EntryMetadata> {
    Some(EntryMetadata { is_symlink, is_file, is_dir, mode: None, size: 0 })
}

fn found_file(rel_path: &str) -> DiskEntry {
    DiskEntry { rel_path: String::from(rel_path), metadata: reported(false, true, false), listing: None }
}

fn found_dir(rel_path: &str, listing: Vec<DiskEntry>) -> DiskEntry {
    DiskEntry {
        rel_path: String::from(rel_path),
        metadata: reported(false, false, true),
        listing: Some(listing),
    }
}

fn printed(tree: &TreeNode) -> String {
    let mut out = String::new();
    tree.print_tree(0, &mut out);
    out
}

#[test]
fn a_walk_over_what_was_found_gives_the_tree() {
    let found = found_dir(
        "",
        vec![
            found_dir(
                "subtest",
                vec![
                    found_file("subtest/subtestfile"),
                    found_dir(
                        "subtest/subsubtest",
                        vec![found_file("subtest/subsubtest/subsubtestfile")],
                    ),
                    found_dir("subtest/subsubtest2", vec![]),
                ],
            ),
            found_dir(
                "subtest2",
                vec![
                    found_file("subtest2/.wh.whatever"),
                    found_file("subtest2/subfile2"),
                    found_dir(
                        "subtest2/subsubtest2",
                        vec![found_file("subtest2/subsubtest2/subsubfile2")],
                    ),
                ],
            ),
            found_dir(".wh.subtest3", vec![]),
        ],
    );
    let mut parent = dir("");
    parse_directory_into_tree(&found, &mut parent);
    let tree = parent.prettyfy();
    assert_eq!(printed(&tree), printed(&construct_tree()));
    assert_eq!(
        printed(&tree),
        "Directory</>: Add\n\
         \x20 Directory</subtest>: Add\n\
         \x20   File</subtest/subtestfile>: Add\n\
         \x20   Directory</subtest/subsubtest>: Add\n\
         \x20     File</subtest/subsubtest/subsubtestfile>: Add\n\
         \x20   Directory</subtest/subsubtest2>: Add\n\
         \x20 Directory</subtest2>: Add\n\
         \x20   File</subtest2/whatever>: Remove\n\
         \x20   File</subtest2/subfile2>: Add\n\
         \x20   Directory</subtest2/subsubtest2>: Add\n\
         \x20     File</subtest2/subsubtest2/subsubfile2>: Add\n\
         \x20 Directory</subtest3>: Remove\n"
    );
}

#[test]
fn a_found_entry_without_metadata_is_passed_over() {
    let mut parent = dir("");
    let lost = DiskEntry { rel_path: String::from("lost"), metadata: None, listing: None };
    parse_directory_into_tree(&lost, &mut parent);
    assert!(parent.is_leaf());

    let found = found_dir("a", vec![lost_entry("a/lost"), found_file("a/kept")]);
    parse_directory_into_tree(&found, &mut parent);
    assert_eq!(printed(&parent), "Directory<>: Add\n  Directory</a>: Add\n    File</a/kept>: Add\n");
}

fn lost_entry(rel_path: &str) -> DiskEntry {
    DiskEntry { rel_path: String::from(rel_path), metadata: None, listing: None }
}

#[test]
fn a_found_directory_without_a_listing_has_no_children() {
    let mut parent = dir("");
    let closed = DiskEntry {
        rel_path: String::from("closed"),
        metadata: reported(false, false, true),
        listing: None,
    };
    parse_directory_into_tree(&closed, &mut parent);
    assert_eq!(printed(&parent), "Directory<>: Add\n  Directory</closed>: Add\n");
}

#[test]
fn a_walk_over_found_entries_stays_above_links_and_files() {
    let mut parent = dir("");
    let link = DiskEntry {
        rel_path: String::from("link"),
        metadata: reported(true, false, true),
        listing: Some(vec![found_file("link/inside")]),
    };
    let plain = DiskEntry {
        rel_path: String::from("plain"),
        metadata: reported(false, true, false),
        listing: Some(vec![found_file("plain/inside")]),
    };
    let odd = DiskEntry {
        rel_path: String::from("odd"),
        metadata: reported(false, false, false),
        listing: Some(vec![found_file("odd/inside")]),
    };
    parse_directory_into_tree(&link, &mut parent);
    parse_directory_into_tree(&plain, &mut parent);
    parse_directory_into_tree(&odd, &mut parent);
    assert_eq!(
        printed(&parent),
        "Directory<>: Add\n  Symlink</link>: Add\n  File</plain>: Add\n  Badfile</odd>: Add\n"
    );
}
