use freightview::docker_file_tree::{DDiveFileType, FileOp};
use freightview::docker_image_utils::{
    get_img_cache_dir, get_layer_commands, get_manifest_config_file, layer_blob_name,
    layer_command, trim, with_tag, CacheIndex, HistoryEntry, ImageLayer,
};
use freightview::exceptions::{GUIError, ImageParcingError};
use freightview::file_tree::{EntryMetadata, FileTree, FileTreeNode};
use freightview::json::{data_from_document, data_to_document, node_from_document, JsonField, JsonValue};

fn small_tree() -> FileTree {
    let dir = EntryMetadata { is_symlink: false, is_file: false, is_dir: true, mode: Some(0o755), size: 0 };
    let file = EntryMetadata { is_symlink: false, is_file: true, is_dir: false, mode: Some(0o600), size: 42 };
    let mut root = FileTreeNode::from("/", &dir).unwrap();
    let mut etc = FileTreeNode::from("/etc", &dir).unwrap();
    etc.add_child(FileTreeNode::from("/etc/.wh.passwd", &file).unwrap());
    etc.add_child(FileTreeNode::from("/etc/quote\"and\\slash", &file).unwrap());
    root.add_child(etc);
    root.add_child(FileTreeNode::from("/é ü", &file).unwrap());
    FileTree::with_source(root, "/tmp/x.dir".to_string())
}

fn history(created_by: Option<&str>, empty_layer: Option<bool>) -> HistoryEntry {
    HistoryEntry { created_by: created_by.map(|s| s.to_string()), empty_layer }
}

#[test]
fn get_config_file_from_manifest() {
    let configs =
        vec!["blobs/sha256/0d99781172fa4757fb472183792b0d6e1df6d180d6361ea0ae5872ee4adc1f1c".to_string()];
    let config_file = get_manifest_config_file(&configs).unwrap();
    assert_eq!(
        config_file,
        "blobs/sha256/0d99781172fa4757fb472183792b0d6e1df6d180d6361ea0ae5872ee4adc1f1c"
    );
}

#[test]
fn a_manifest_must_hold_one_image() {
    assert_eq!(get_manifest_config_file(&vec![]), Err(ImageParcingError::LayerParsingError));
    assert_eq!(
        get_manifest_config_file(&vec!["a".to_string(), "b".to_string()]),
        Err(ImageParcingError::LayerParsingError)
    );
}

#[test]
fn read_config_file() {
    let steps = vec![
        history(
            Some("/bin/sh -c #(nop) ADD file:1b6c8c9518be42fa2afe5e241ca31677fce58d27cdfa88baa91a65a259be3637 in / "),
            None,
        ),
        history(Some("/bin/sh -c #(nop)  CMD [\"/bin/bash\"]"), Some(true)),
        history(Some("RUN /bin/sh -c mkdir -p /home/georgii # buildkit"), None),
        history(
            Some("RUN /bin/sh -c echo \"Hello, Georgii!\" > /home/georgii/hello.txt # buildkit"),
            Some(false),
        ),
        history(
            Some("RUN /bin/sh -c echo \"Hello, Georgii2!\" > /home/georgii/hello2.txt # buildkit"),
            None,
        ),
        history(Some("RUN /bin/sh -c rm /home/georgii/hello.txt # buildkit\n"), None),
    ];
    let commands = get_layer_commands(&steps);
    println!("{:?}", commands);
    assert_eq!(commands.len(), 5);
    assert_eq!(
        commands[0],
        "/bin/sh -c #(nop) ADD file:1b6c8c9518be42fa2afe5e241ca31677fce58d27cdfa88baa91a65a259be3637 in /"
    );
    assert_eq!(
        commands[1],
        "RUN /bin/sh -c mkdir -p /home/georgii # buildkit"
    );
    assert_eq!(
        commands[2],
        "RUN /bin/sh -c echo \"Hello, Georgii!\" > /home/georgii/hello.txt # buildkit"
    );
    assert_eq!(
        commands[3],
        "RUN /bin/sh -c echo \"Hello, Georgii2!\" > /home/georgii/hello2.txt # buildkit"
    );
    assert_eq!(
        commands[4],
        "RUN /bin/sh -c rm /home/georgii/hello.txt # buildkit"
    );
}

#[test]
fn a_step_without_a_command_is_unknown() {
    let commands = get_layer_commands(&vec![history(None, None), history(None, Some(true))]);
    assert_eq!(commands, vec!["Unknown command"]);
}

#[test]
fn trimming_takes_the_white_space_off_both_ends() {
    assert_eq!(trim("  a b \t\n"), "a b");
    assert_eq!(trim(""), "");
    assert_eq!(trim(" \u{a0}\u{3000}\u{2003}"), "");
    assert_eq!(trim("\u{85}x\u{2028}y\u{202f}"), "x\u{2028}y");
    assert_eq!(trim("\u{200b}x"), "\u{200b}x");
    for text in ["  a b \t\n", "\u{1680}é\u{205f}", "x", " \r\u{b}\u{c}é  ü\u{2029} ", "\u{1f}a\u{1f}"] {
        assert_eq!(trim(text), text.trim());
    }
}

#[test]
fn cache_paths() {
    assert_eq!(
        ImageLayer::get_layer_path_wstr("/home/u/.cache/freightview", "sha256:abc"),
        "/home/u/.cache/freightview/sha256:abc.json"
    );
    assert_eq!(
        ImageLayer::get_layer_path_cmd_wstr("/home/u/.cache/freightview/", "sha256:abc"),
        "/home/u/.cache/freightview/sha256:abc.cmd"
    );
    let layer = ImageLayer::new("sha256:1".to_string(), small_tree(), "RUN x".to_string());
    assert_eq!(layer.get_layer_path("/c"), "/c/sha256:1.json");
    assert_eq!(layer.get_layer_path_cmd("/c"), "/c/sha256:1.cmd");
    assert_eq!(ImageLayer::get_cache_dir(Some("/home/u")), Ok("/home/u/.cache/freightview".to_string()));
    assert_eq!(ImageLayer::get_cache_dir(None), Err(ImageParcingError::CantGetAHomeDir));
}

#[test]
fn a_layer_is_cached_once_both_files_are_there() {
    let none = CacheIndex::new(vec![]);
    assert!(!ImageLayer::check_cache(&none, "sha256:a"));
    let tree_only = CacheIndex::new(vec!["sha256:a.json".to_string()]);
    assert!(!ImageLayer::check_cache(&tree_only, "sha256:a"));
    let command_only = CacheIndex::new(vec!["sha256:a.cmd".to_string()]);
    assert!(!ImageLayer::check_cache(&command_only, "sha256:a"));
    let both = CacheIndex::new(vec!["sha256:a.cmd".to_string(), "x".to_string(), "sha256:a.json".to_string()]);
    assert!(ImageLayer::check_cache(&both, "sha256:a"));
    assert!(!ImageLayer::check_cache(&both, "sha256:b"));
    assert!(both.has_file("x"));
    assert!(!both.has_file("y"));
}

#[test]
fn save_then_load_gives_the_layer_back() {
    let layer = ImageLayer::new("sha256:d1".to_string(), small_tree(), "RUN make  ".to_string());
    let mut index = CacheIndex::new(vec![]);
    assert!(!ImageLayer::check_cache(&index, "sha256:d1"));
    let files = layer.save("/cache", &mut index).unwrap();
    assert!(ImageLayer::check_cache(&index, "sha256:d1"));
    assert_eq!(files.len(), 2);
    assert_eq!(files[0].path, "/cache/sha256:d1.json");
    assert_eq!(files[1].path, "/cache/sha256:d1.cmd");
    assert_eq!(files[1].content, "RUN make  ");
    let loaded = ImageLayer::load("sha256:d1", &files[0].content, files[1].content.clone()).unwrap();
    assert_eq!(loaded, layer);
    // saving once more changes nothing about it
    let again = layer.save("/cache", &mut index).unwrap();
    assert_eq!(again, files);
    assert!(ImageLayer::check_cache(&index, "sha256:d1"));
}

#[test]
fn loading_what_is_no_tree_fails() {
    for text in ["", "{", "[]", "{}", "{\"parent_node\":{},\"path_to_parent_node\":\"/\"}", "null", "12"] {
        assert_eq!(
            ImageLayer::load("sha256:x", text, String::new()),
            Err(ImageParcingError::JSONError),
            "{}",
            text
        );
    }
    let layer = ImageLayer::new("d".to_string(), small_tree(), String::new());
    let good = layer.tree.to_json().unwrap();
    let bad = good.replace("\"Directory\"", "\"Folder\"");
    assert_eq!(FileTree::from_json(&bad), Err(ImageParcingError::JSONError));
    let bad = good.replace(":42", ":-42");
    assert_eq!(FileTree::from_json(&bad), Err(ImageParcingError::JSONError));
    let bad = good.replace(":42", ":4.2");
    assert_eq!(FileTree::from_json(&bad), Err(ImageParcingError::JSONError));
    let bad = good.replace("\"fop\"", "\"op\"");
    assert_eq!(FileTree::from_json(&bad), Err(ImageParcingError::JSONError));
    assert!(FileTree::from_json(&good).is_ok());
}

#[test]
fn the_tree_file_is_json_with_the_members_of_a_node() {
    let text = small_tree().to_json().unwrap();
    assert!(text.starts_with("{\"parent_node\":{\"children\":[{\"children\":["));
    assert!(text.contains("\"name\":\"passwd\""));
    assert!(text.contains("\"fop\":\"Remove\""));
    assert!(text.contains("\"disk_rel_path\":\"/etc/.wh.passwd\""));
    assert!(text.contains("\"vis_rel_path\":\"/etc/passwd\""));
    assert!(text.contains("\"permissions\":\"rw-------\""));
    assert!(text.contains("\"size\":42"));
    assert!(text.contains("quote\\\"and\\\\slash"));
    assert!(text.ends_with("\"path_to_parent_node\":\"/tmp/x.dir\"}"));
    // white space and the order of the members do not matter to the reader
    let spaced = text.replace(",", " ,\n ").replace("{", "{ ");
    assert_eq!(FileTree::from_json(&spaced), Ok(small_tree()));
}

#[test]
fn documents_of_nodes_and_data() {
    let tree = small_tree();
    let etc = tree.root().get_child(0).unwrap();
    let doc = freightview::json::node_to_document(etc);
    assert_eq!(node_from_document(&doc).as_ref(), Some(etc));
    let data = data_to_document(etc.data());
    assert_eq!(data_from_document(&data).as_ref(), Some(etc.data()));
    match &data {
        JsonValue::Object(fields) => {
            assert_eq!(fields.len(), 7);
            assert_eq!(fields[0], JsonField { name: "name".to_string(), value: JsonValue::Text("etc".to_string()) });
            assert_eq!(fields[6], JsonField { name: "size".to_string(), value: JsonValue::Number(0) });
        }
        _ => panic!("the document of a node's data is an object"),
    }
    assert_eq!(data_from_document(&JsonValue::Null), None);
    assert_eq!(node_from_document(&JsonValue::List(vec![])), None);
    assert_eq!(FileTree::from_document(&JsonValue::Unreadable), None);
    assert_eq!(FileTree::from_document(&tree.to_document()), Some(small_tree()));
    // the first of two members with one name counts
    let twice = JsonValue::Object(vec![
        JsonField { name: "parent_node".to_string(), value: freightview::json::node_to_document(tree.root()) },
        JsonField { name: "path_to_parent_node".to_string(), value: JsonValue::Text("/a".to_string()) },
        JsonField { name: "path_to_parent_node".to_string(), value: JsonValue::Text("/b".to_string()) },
    ]);
    assert_eq!(FileTree::from_document(&twice).unwrap().source(), "/a");
    assert_eq!(FileTree::from_parsed(None), Err(ImageParcingError::JSONError));
}

#[test]
fn partition_keeps_the_order_of_the_digests() {
    let mut index = CacheIndex::new(vec![]);
    let d2 = ImageLayer::new("d2".to_string(), small_tree(), "c2".to_string());
    d2.save("/cache", &mut index).unwrap();
    let mut layers = vec!["d1".to_string(), "d2".to_string(), "d3".to_string()];
    let cached = ImageLayer::filter_cached_layers(&index, &mut layers);
    assert_eq!(cached, vec!["d2"]);
    assert_eq!(layers, vec!["d1", "d3"]);

    let d5 = ImageLayer::new("d5".to_string(), small_tree(), "c5".to_string());
    d5.save("/cache", &mut index).unwrap();
    let mut layers: Vec<String> = ["d5", "d1", "d2", "d4", "d2", "d9"].iter().map(|s| s.to_string()).collect();
    let cached = ImageLayer::filter_cached_layers(&index, &mut layers);
    assert_eq!(cached, vec!["d5", "d2", "d2"]);
    assert_eq!(layers, vec!["d1", "d4", "d9"]);

    let mut nothing: Vec<String> = vec![];
    assert!(ImageLayer::filter_cached_layers(&index, &mut nothing).is_empty());
    assert!(nothing.is_empty());
}

#[test]
fn image_names_and_directories() {
    assert_eq!(with_tag("ubuntu"), "ubuntu:latest");
    assert_eq!(with_tag("ubuntu:22.04"), "ubuntu:22.04");
    assert_eq!(with_tag("reg:5000/img"), "reg:5000/img");
    assert_eq!(with_tag(""), ":latest");
    assert_eq!(
        get_img_cache_dir("/home/u", "ubuntu:22.04"),
        "/home/u/.cache/freightview/image_cache/ubuntu_tagged_22.04"
    );
    assert_eq!(
        get_img_cache_dir("/home/u/", "a:b:c"),
        "/home/u/.cache/freightview/image_cache/a_tagged_b_tagged_c"
    );
    assert_eq!(get_img_cache_dir("/h", "é"), "/h/.cache/freightview/image_cache/é");
    assert_eq!(layer_blob_name("sha256:0123abcd"), Some("0123abcd".to_string()));
    assert_eq!(layer_blob_name("sha256:"), Some("".to_string()));
    assert_eq!(layer_blob_name("sha25"), None);
}

#[test]
fn the_command_of_a_layer() {
    let layers: Vec<String> = ["a", "b", "a", "c"].iter().map(|s| s.to_string()).collect();
    let commands: Vec<String> = ["1", "2", "3"].iter().map(|s| s.to_string()).collect();
    assert_eq!(layer_command(&layers, &commands, "b"), "2");
    assert_eq!(layer_command(&layers, &commands, "a"), "3");
    assert_eq!(layer_command(&layers, &commands, "c"), "Not available");
    assert_eq!(layer_command(&layers, &commands, "z"), "Not available");
    assert_eq!(layer_command(&vec![], &commands, "a"), "Not available");
}

#[test]
fn errors_are_shown_by_their_names() {
    assert_eq!(ImageParcingError::CantDownloadImage.message(), "CantDownloadImage");
    assert_eq!(ImageParcingError::CantGetAHomeDir.message(), "CantGetAHomeDir");
    assert_eq!(ImageParcingError::FilesystemError.message(), "FilesystemError");
    assert_eq!(ImageParcingError::JSONError.message(), "JSONError");
    assert_eq!(ImageParcingError::DockerAPIError.message(), "DockerAPIError");
    assert_eq!(ImageParcingError::LayerParsingError.message(), "LayerParsingError");
    assert_eq!(ImageParcingError::NonUnixFileSystem.message(), "NonUnixFileSystem");
    assert_eq!(ImageParcingError::UnparceableFileName.message(), "UnparceableFileName");
    assert_eq!(GUIError::CantFilterTree.message(), "CantFilterTree");
    assert_eq!(DDiveFileType::Symlink.label(), "Symlink");
    assert_eq!(FileOp::Add.to_string(), "Add");
}
