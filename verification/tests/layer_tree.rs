use freightview::docker_file_tree::{DDiveFileType, FileOp};
use freightview::exceptions::GUIError;
use freightview::file_tree::{
    join, parse_name, perm_str_from_u32, EntryMetadata, FileTree, FileTreeNode, FileTreeNodeData,
};
use freightview::tree_builder::{DirEntryInfo, TreeBuilder};

fn dir_meta() -> EntryMetadata {
    EntryMetadata { is_symlink: false, is_file: false, is_dir: true, mode: Some(0o755), size: 4096 }
}

fn file_meta(size: u64) -> EntryMetadata {
    EntryMetadata { is_symlink: false, is_file: true, is_dir: false, mode: Some(0o644), size }
}

fn entry(name: &str, metadata: EntryMetadata) -> DirEntryInfo {
    DirEntryInfo { name: name.to_string(), metadata: Some(metadata) }
}

/// What the directories of the layer hold, as the file system lists them:
/// in no particular order.
fn listing_of(path: &str) -> Option<Vec<DirEntryInfo>> {
    match path {
        "/" => Some(vec![
            entry("subtest2", dir_meta()),
            entry(".wh.subtest3", dir_meta()),
            entry("subtest", dir_meta()),
        ]),
        "/subtest" => Some(vec![entry("subtestfile", file_meta(12)), entry("subsubtest", dir_meta())]),
        "/subtest/subsubtest" => Some(vec![entry("subsubtestfile", file_meta(7))]),
        "/subtest2" => Some(vec![
            entry("subsubtest2", dir_meta()),
            entry(".wh.whatever", file_meta(0)),
            entry("subfile2", file_meta(3)),
        ]),
        "/subtest2/subsubtest2" => Some(vec![entry("subsubfile2", file_meta(5))]),
        "/.wh.subtest3" => Some(vec![]),
        _ => None,
    }
}

fn construct_tree() -> FileTree {
    let mut walk = TreeBuilder::new("/layers/test-files", &dir_meta());
    while let Some(path) = walk.next_directory() {
        walk.add_listing(listing_of(&path));
    }
    walk.finish()
}

#[test]
fn tree() {
    let tree = construct_tree();
    let mut seen = 0;
    for node in tree.iter().to_vec() {
        if node.name() == "subtest3" {
            assert_eq!(node.ftype(), DDiveFileType::Directory);
            assert_eq!(node.fop(), FileOp::Remove);
            assert_eq!(node.disk_path(), "/.wh.subtest3");
            assert_eq!(node.path(), "/subtest3");
            seen += 1;
        }
        if node.name() == "subsubtest" {
            assert_eq!(node.ftype(), DDiveFileType::Directory);
            assert_eq!(node.fop(), FileOp::Add);
            assert_eq!(node.disk_path(), "/subtest/subsubtest");
            assert_eq!(node.path(), "/subtest/subsubtest");
            seen += 1;
        }
        if node.name() == "subtestfile" {
            assert_eq!(node.ftype(), DDiveFileType::File);
            assert_eq!(node.fop(), FileOp::Add);
            assert_eq!(node.disk_path(), "/subtest/subtestfile");
            assert_eq!(node.path(), "/subtest/subtestfile");
            seen += 1;
        }
        if node.name() == "whatever" {
            assert_eq!(node.ftype(), DDiveFileType::File);
            assert_eq!(node.fop(), FileOp::Remove);
            assert_eq!(node.disk_path(), "/subtest2/.wh.whatever");
            assert_eq!(node.path(), "/subtest2/whatever");
            seen += 1;
        }
    }
    assert_eq!(seen, 4);
}

#[test]
fn tree_ser_deser() {
    let tree = construct_tree();
    let serialised = tree.to_json().unwrap();
    let deserialised = FileTree::from_json(&serialised).unwrap();
    assert_eq!(tree.root(), deserialised.root());
    assert_eq!(tree, deserialised);
}

#[test]
fn tree_filter() {
    let tree = construct_tree();
    let (filtered_tree, err) = tree.filter_tree_full_path("subtest");
    assert!(matches!(err, None));
    // First three nodes should be subtest, subtest2 and subtest3
    let root = filtered_tree.root();
    let names = root.get_children_names();

    for name in names.iter() {
        println!("Name: {}", name);
    }

    assert_eq!(names.len(), 3);
    assert_eq!(names[0], "subtest");
    assert_eq!(names[1], "subtest2");
    assert_eq!(names[2], "subtest3");

    // Check that after filter children are present
    let subtest_node = tree.get_node_by_name("subtest");
    assert!(matches!(subtest_node, Some(_)));
    let subtest_node = subtest_node.unwrap();
    let subtest_children = subtest_node.get_children_names();
    assert_eq!(subtest_children.len(), 2);
    assert_eq!(subtest_children[0], "subsubtest");
    assert_eq!(subtest_children[1], "subtestfile");

    for name in subtest_children.iter() {
        println!("Name: {}", name);
    }

    // the children of the narrowed tree are those of the tree itself
    let kept = filtered_tree.root().get_child(0).unwrap();
    assert_eq!(kept, subtest_node);
}

#[test]
fn tree_filter_long() {
    let tree = construct_tree();
    let (filtered_tree, err) = tree.filter_tree_full_path("subtest/subsub");
    assert!(matches!(err, None));
    // First three nodes should be subtest, subtest2 and subtest3
    let root = filtered_tree.root();
    let names = root.get_children_names();

    for name in names.iter() {
        println!("Name: {}", name);
    }

    assert_eq!(names.len(), 1);
    assert_eq!(names[0], "subtest");

    // Check that after filter children are present
    let subtest_node = tree.get_node_by_name("subtest");
    assert!(matches!(subtest_node, Some(_)));
    let subtest_node = subtest_node.unwrap();
    let subtest_children = subtest_node.get_children_names();
    assert_eq!(subtest_children.len(), 2);
    assert_eq!(subtest_children[0], "subsubtest");
    assert_eq!(subtest_children[1], "subtestfile");

    for name in subtest_children.iter() {
        println!("Name: {}", name);
    }

    // below the root only subtest is left, and below it only subsubtest,
    // with all that lies below it
    let subtest = filtered_tree.root().get_child(0).unwrap();
    assert_eq!(subtest.get_children_names(), vec!["subsubtest"]);
    let subsubtest = subtest.get_child(0).unwrap();
    assert_eq!(subsubtest.get_children_names(), vec!["subsubtestfile"]);
    assert_eq!(subsubtest, subtest_node.get_child(0).unwrap());
}

#[test]
fn real_life_tree() {
    // a tree file as the cache holds it, members in the order in which
    // the trees of earlier versions were written
    let file = |name: &str, dir: &str| {
        format!(
            "{{\"children\":[],\"data\":{{\"name\":\"{n}\",\"ftype\":\"File\",\"fop\":\"Add\",\"permissions\":\"rw-r--r--\",\"disk_rel_path\":\"{d}/{n}\",\"vis_rel_path\":\"{d}/{n}\",\"size\":1167}}}}",
            n = name,
            d = dir
        )
    };
    let dir = |name: &str, path: &str, children: Vec<String>| {
        format!(
            "{{\"children\":[{c}],\"data\":{{\"name\":\"{n}\",\"ftype\":\"Directory\",\"fop\":\"Add\",\"permissions\":\"rwxr-xr-x\",\"disk_rel_path\":\"{p}\",\"vis_rel_path\":\"{p}\",\"size\":0}}}}",
            c = children.join(","),
            n = name,
            p = path
        )
    };
    let trusted = dir(
        "trusted.gpg.d",
        "/etc/apt/trusted.gpg.d",
        vec![
            file("ubuntu-keyring-2012-cdimage.gpg", "/etc/apt/trusted.gpg.d"),
            file("ubuntu-keyring-2018-archive.gpg", "/etc/apt/trusted.gpg.d"),
        ],
    );
    let apt = dir("apt", "/etc/apt", vec![file("sources.list", "/etc/apt"), trusted]);
    let etc = dir("etc", "/etc", vec![file("adduser.conf", "/etc"), apt, file("hosts", "/etc")]);
    let usr = dir("usr", "/usr", vec![]);
    let root = dir("/", "/", vec![etc, usr]);
    let text = format!("{{\"parent_node\":{},\"path_to_parent_node\":\"/tmp/layer.dir\"}}", root);

    let layer_tree = FileTree::from_json(&text).unwrap();
    let (filtered_tree, error) = layer_tree.filter_tree_full_path("/etc/");
    assert!(matches!(error, None));
    let root = filtered_tree.root();
    let children_names = root.get_children_names();
    assert_eq!(children_names.len(), 1);
    assert_eq!(children_names[0], "etc");
    let etc_node = root.get_child(0).unwrap();
    assert!(etc_node.get_n_children() > 0);
    let etc_children = etc_node.get_children_names();
    let apt_cache_name = etc_children.iter().position(|name| name == "apt").unwrap();
    let apt_node = etc_node.get_child(apt_cache_name).unwrap();
    let trusted = apt_node
        .get_children_names()
        .iter()
        .position(|name| name == "trusted.gpg.d")
        .unwrap();
    let trusted_node = apt_node.get_child(trusted).unwrap();
    assert_eq!(trusted_node.get_n_children(), 2);
    assert_eq!(layer_tree.source(), "/tmp/layer.dir");
}

#[test]
fn no_match_gives_the_tree_back_with_an_error() {
    let tree = construct_tree();
    let (same, err) = tree.filter_tree_full_path("subtest/zzz");
    assert_eq!(err, Some(GUIError::CantFilterTree));
    assert_eq!(same, tree);
    // a segment that is no exact name of a child, in front of the last
    let (same, err) = tree.filter_tree_full_path("subte/subsub");
    assert_eq!(err, Some(GUIError::CantFilterTree));
    assert_eq!(same, tree);
}

#[test]
fn empty_filter_gives_the_tree_back_without_error() {
    let tree = construct_tree();
    for filter in ["", "/", "//", "///"] {
        let (same, err) = tree.filter_tree_full_path(filter);
        assert_eq!(err, None);
        assert_eq!(same, tree);
    }
}

#[test]
fn filter_leaves_the_tree_as_it_is() {
    let tree = construct_tree();
    let before = tree.clone();
    let _ = tree.filter_tree_full_path("subtest2/sub");
    assert_eq!(tree, before);
}

#[test]
fn last_segment_is_a_prefix_even_where_it_is_a_whole_name() {
    let tree = construct_tree();
    let (narrowed, err) = tree.filter_tree_full_path("/subtest2/subsubtest2");
    assert_eq!(err, None);
    let subtest2 = narrowed.root().get_child(0).unwrap();
    assert_eq!(subtest2.get_children_names(), vec!["subsubtest2"]);
    let (narrowed, err) = tree.filter_tree_full_path("/subtest2/sub");
    assert_eq!(err, None);
    let subtest2 = narrowed.root().get_child(0).unwrap();
    assert_eq!(subtest2.get_children_names(), vec!["subfile2", "subsubtest2"]);
    assert_eq!(subtest2.get_children_paths(), vec!["/subtest2/subfile2", "/subtest2/subsubtest2"]);
}

#[test]
fn children_are_sorted_by_the_name_on_disk() {
    let tree = construct_tree();
    let root = tree.root();
    assert_eq!(root.name(), "/");
    assert_eq!(root.path(), "/");
    assert_eq!(root.disk_path(), "/");
    assert_eq!(root.ftype(), DDiveFileType::Directory);
    assert_eq!(root.size(), 0);
    assert_eq!(root.permissions(), "rwxr-xr-x");
    assert_eq!(root.get_children_names(), vec!["subtest3", "subtest", "subtest2"]);
    let subtest2 = root.get_child(2).unwrap();
    assert_eq!(subtest2.get_children_names(), vec!["whatever", "subfile2", "subsubtest2"]);
    assert_eq!(subtest2.size(), 0);
    assert_eq!(subtest2.get_child(1).unwrap().size(), 3);
    assert!(root.get_child(3).is_none());
    assert_eq!(tree.source(), "/layers/test-files");
}

#[test]
fn the_order_of_a_listing_does_not_show_in_the_tree() {
    let mut first = TreeBuilder::new("/l", &dir_meta());
    let mut second = TreeBuilder::new("/l", &dir_meta());
    assert_eq!(first.next_directory(), Some("/".to_string()));
    first.add_listing(Some(vec![
        entry("b", file_meta(1)),
        entry("a", dir_meta()),
        entry(".wh.c", file_meta(0)),
    ]));
    second.add_listing(Some(vec![
        entry(".wh.c", file_meta(0)),
        entry("b", file_meta(1)),
        entry("a", dir_meta()),
    ]));
    assert_eq!(first.next_directory(), Some("/a".to_string()));
    first.add_listing(Some(vec![entry("y", file_meta(1)), entry("x", file_meta(1))]));
    second.add_listing(Some(vec![entry("x", file_meta(1)), entry("y", file_meta(1))]));
    assert!(first.is_done());
    assert_eq!(first.next_directory(), None);
    assert_eq!(first.finish(), second.finish());
}

#[test]
fn a_layer_with_a_file_and_a_whiteout() {
    let mut walk = TreeBuilder::new("/layer", &dir_meta());
    assert_eq!(walk.next_directory(), Some("/".to_string()));
    walk.add_listing(Some(vec![entry("a", dir_meta())]));
    assert_eq!(walk.next_directory(), Some("/a".to_string()));
    walk.add_listing(Some(vec![entry("b", file_meta(10)), entry(".wh.c", file_meta(0))]));
    assert_eq!(walk.next_directory(), None);
    let tree = walk.finish();
    let root = tree.root();
    assert_eq!(root.get_n_children(), 1);
    let a = root.get_child(0).unwrap();
    assert_eq!((a.name(), a.fop(), a.ftype()), ("a".to_string(), FileOp::Add, DDiveFileType::Directory));
    // the names on disk are `.wh.c` and `b`, in this order
    assert_eq!(a.get_children_names(), vec!["c", "b"]);
    let c = a.get_child(0).unwrap();
    assert_eq!((c.fop(), c.ftype(), c.get_n_children()), (FileOp::Remove, DDiveFileType::File, 0));
    assert_eq!(c.path(), "/a/c");
    assert_eq!(c.disk_path(), "/a/.wh.c");
    let b = a.get_child(1).unwrap();
    assert_eq!((b.fop(), b.ftype(), b.get_n_children()), (FileOp::Add, DDiveFileType::File, 0));
    assert_eq!(b.size(), 10);
}

#[test]
fn a_directory_that_cannot_be_listed_stays_without_children() {
    let mut walk = TreeBuilder::new("/layer", &dir_meta());
    walk.add_listing(Some(vec![entry("locked", dir_meta()), entry("open", dir_meta())]));
    assert_eq!(walk.next_directory(), Some("/locked".to_string()));
    walk.add_listing(None);
    assert_eq!(walk.next_directory(), Some("/open".to_string()));
    walk.add_listing(Some(vec![entry("f", file_meta(1))]));
    assert!(walk.is_done());
    let tree = walk.finish();
    assert_eq!(tree.root().get_child(0).unwrap().get_n_children(), 0);
    assert_eq!(tree.root().get_child(1).unwrap().get_children_names(), vec!["f"]);
}

#[test]
fn an_entry_without_metadata_is_left_out() {
    let mut walk = TreeBuilder::new("/layer", &dir_meta());
    walk.add_listing(Some(vec![
        entry("z", file_meta(1)),
        DirEntryInfo { name: "broken".to_string(), metadata: None },
        entry("a", file_meta(1)),
    ]));
    let tree = walk.finish();
    assert_eq!(tree.root().get_children_names(), vec!["a", "z"]);
}

#[test]
fn the_walk_does_not_go_below_links_and_bad_files() {
    let link = EntryMetadata { is_symlink: true, is_file: false, is_dir: true, mode: Some(0o777), size: 9 };
    let fifo = EntryMetadata { is_symlink: false, is_file: false, is_dir: false, mode: None, size: 0 };
    let mut walk = TreeBuilder::new("/layer", &dir_meta());
    walk.add_listing(Some(vec![entry("link", link), entry("fifo", fifo), entry("f", file_meta(2))]));
    assert!(walk.is_done());
    assert_eq!(walk.next_directory(), None);
    // a listing that nobody asked for changes nothing
    walk.add_listing(Some(vec![entry("stray", file_meta(1))]));
    let tree = walk.finish();
    let root = tree.root();
    assert_eq!(root.get_children_names(), vec!["f", "fifo", "link"]);
    assert_eq!(root.get_child(1).unwrap().ftype(), DDiveFileType::Badfile);
    assert_eq!(root.get_child(1).unwrap().permissions(), "");
    assert_eq!(root.get_child(2).unwrap().ftype(), DDiveFileType::Symlink);
    assert_eq!(root.get_child(2).unwrap().permissions(), "rwxrwxrwx");
    assert_eq!(root.get_child(2).unwrap().size(), 9);
    assert_eq!(tree.iter().to_vec().len(), 4);
}

#[test]
fn a_walk_that_is_cut_short_gives_what_it_has() {
    let mut walk = TreeBuilder::new("/layer", &dir_meta());
    walk.add_listing(Some(vec![entry("a", dir_meta()), entry("b", dir_meta())]));
    assert!(!walk.is_done());
    let tree = walk.finish();
    assert_eq!(tree.root().get_children_names(), vec!["a", "b"]);
}

#[test]
fn breadth_first_walk_of_the_layer() {
    let tree = construct_tree();
    let names: Vec<String> = tree.iter().to_vec().iter().map(|n| n.name()).collect();
    assert_eq!(
        names,
        vec![
            "/",
            "subtest3",
            "subtest",
            "subtest2",
            "subsubtest",
            "subtestfile",
            "whatever",
            "subfile2",
            "subsubtest2",
            "subsubtestfile",
            "subsubfile2"
        ]
    );
    let mut walk = tree.iter();
    assert_eq!(walk.next().unwrap().name(), "/");
    assert_eq!(walk.next().unwrap().name(), "subtest3");
    assert_eq!(walk.to_vec().len(), 9);
    assert!(tree.get_node_by_name("nowhere").is_none());
    assert_eq!(tree.get_node_by_name("subsubtest2").unwrap().path(), "/subtest2/subsubtest2");
}

#[test]
fn whiteout_parsing() {
    assert_eq!(parse_name(".wh.foo"), ("foo".to_string(), FileOp::Remove));
    assert_eq!(parse_name("foo"), ("foo".to_string(), FileOp::Add));
    assert_eq!(parse_name(".wh..wh..opq"), (".wh..opq".to_string(), FileOp::Remove));
    assert_eq!(parse_name(".wh."), ("".to_string(), FileOp::Remove));
    assert_eq!(parse_name(".wh"), (".wh".to_string(), FileOp::Add));
    assert_eq!(parse_name("a.wh.b"), ("a.wh.b".to_string(), FileOp::Add));
    assert_eq!(parse_name(""), ("".to_string(), FileOp::Add));
    assert_eq!(parse_name(".wh.né"), ("né".to_string(), FileOp::Remove));
}

#[test]
fn entries_are_classified_links_first() {
    assert_eq!(DDiveFileType::from_ftype(true, true, true), DDiveFileType::Symlink);
    assert_eq!(DDiveFileType::from_ftype(true, false, true), DDiveFileType::Symlink);
    assert_eq!(DDiveFileType::from_ftype(false, true, false), DDiveFileType::File);
    assert_eq!(DDiveFileType::from_ftype(false, true, true), DDiveFileType::File);
    assert_eq!(DDiveFileType::from_ftype(false, false, true), DDiveFileType::Directory);
    assert_eq!(DDiveFileType::from_ftype(false, false, false), DDiveFileType::Badfile);
    assert_eq!(DDiveFileType::Badfile.label(), "Badfile");
    assert_eq!(FileOp::Remove.to_string(), "Remove");
    assert_eq!(FileOp::Add.label(), "Add");
}

#[test]
fn permission_strings() {
    assert_eq!(perm_str_from_u32(0o755), "rwxr-xr-x");
    assert_eq!(perm_str_from_u32(0o644), "rw-r--r--");
    assert_eq!(perm_str_from_u32(0), "---------");
    assert_eq!(perm_str_from_u32(0o777), "rwxrwxrwx");
    assert_eq!(perm_str_from_u32(0o100421), "r---w---x");
    assert_eq!(perm_str_from_u32(0o4000), "---------");
}

#[test]
fn paths_are_joined_with_one_separator() {
    assert_eq!(join("/", "a"), "/a");
    assert_eq!(join("/a", "b"), "/a/b");
    assert_eq!(join("/a/", "b"), "/a/b");
    assert_eq!(join("", "b"), "b");
    assert_eq!(join("/a", ""), "/a/");
}

#[test]
fn nodes_from_paths_inside_the_layer() {
    let node = FileTreeNode::from("/a/.wh.b", &file_meta(4)).unwrap();
    assert_eq!(node.name(), "b");
    assert_eq!(node.fop(), FileOp::Remove);
    assert_eq!(node.disk_path(), "/a/.wh.b");
    assert_eq!(node.path(), "/a/b");
    assert_eq!(node.size(), 4);
    assert_eq!(node.permissions(), "rw-r--r--");
    assert_eq!(node.get_n_children(), 0);

    let root = FileTreeNode::from("/", &dir_meta()).unwrap();
    assert_eq!(root.name(), "/");
    assert_eq!(root.path(), "/");
    assert_eq!(root.fop(), FileOp::Add);
    assert_eq!(root.size(), 0);

    let top = FileTreeNode::from("/top", &dir_meta()).unwrap();
    assert_eq!(top.path(), "/top");
    assert_eq!(top.name(), "top");
}

#[test]
fn nodes_from_data() {
    let data = FileTreeNodeData::new(
        "n".to_string(),
        DDiveFileType::File,
        FileOp::Add,
        "rw-------".to_string(),
        "/n".to_string(),
        "/n".to_string(),
        5,
    );
    let mut node = FileTreeNode::from_data(&data);
    assert_eq!(node.data(), &data);
    assert_eq!(node.get_n_children(), 0);
    node.add_child(FileTreeNode::from_data(&data));
    node.add_child(FileTreeNode::from("/n/m", &file_meta(1)).unwrap());
    assert_eq!(node.get_children_names(), vec!["n", "m"]);
    let tree = FileTree::new_from_node(node.clone());
    assert_eq!(tree.root(), &node);
    assert_eq!(tree.source(), "/");
    let child = FileTreeNodeData::for_child(&data, ".wh.x", &file_meta(2));
    assert_eq!(child.name(), "x");
    assert_eq!(child.path(), "/n/x");
    assert_eq!(child.disk_path(), "/n/.wh.x");
    assert_eq!(child.fop(), FileOp::Remove);
}
