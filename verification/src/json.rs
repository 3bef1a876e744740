//! The tree artifact of the layer cache: a JSON document.
//!
//! The library decides the shape of the document and reads it back; the
//! text of a document is written and read by `serde_json`. What that crate
//! returns is named here, not described: `json_text` is the text it writes
//! for a document, `json_parsed` the document it reads from a text.

use crate::docker_file_tree::{DDiveFileType, FileOp};
use crate::exceptions::ImageParcingError;
use crate::file_tree::{DataModel, FileTree, FileTreeNode, FileTreeNodeData, NodeModel};
use crate::text::{same_chars, to_chars};
use vstd::prelude::*;
use vstd::string::StringExecFns;

verus! {

/// The error type of `serde_json`. Nothing is known of a value of it.
#[verifier::external_type_specification]
#[verifier::external_body]
pub struct ExJsonError(serde_json::Error);

/// The value type of `serde_json`. Nothing is known of a value of it.
#[verifier::external_type_specification]
#[verifier::external_body]
pub struct ExJsonOutside(serde_json::Value);

/// One member of a JSON object.
#[derive(Debug, PartialEq, Eq)]
pub struct JsonField {
    pub name: String,
    pub value: JsonValue,
}

/// A JSON document. `Unreadable` stands for a number that is no unsigned
/// 64-bit integer; no document that the library writes holds one.
#[derive(Debug, PartialEq, Eq)]
pub enum JsonValue {
    Null,
    Bool(bool),
    Number(u64),
    Unreadable,
    Text(String),
    List(Vec<JsonValue>),
    Object(Vec<JsonField>),
}

/// A JSON document, as mathematical values.
pub enum JsonModel {
    Null,
    Bool(bool),
    Number(u64),
    Unreadable,
    Text(Seq<char>),
    List(Seq<JsonModel>),
    Object(Seq<(Seq<char>, JsonModel)>),
}

impl JsonField {
    /// The member as mathematical values: its name and its value.
    pub open spec fn model(&self) -> (Seq<char>, JsonModel)
        decreases self,
    {
        (self.name@, self.value.model())
    }
}

impl JsonValue {
    /// The document as mathematical values.
    pub open spec fn model(&self) -> JsonModel
        decreases self,
    {
        match self {
            JsonValue::Null => JsonModel::Null,
            JsonValue::Bool(b) => JsonModel::Bool(*b),
            JsonValue::Number(n) => JsonModel::Number(*n),
            JsonValue::Unreadable => JsonModel::Unreadable,
            JsonValue::Text(s) => JsonModel::Text(s@),
            JsonValue::List(items) => JsonModel::List(
                Seq::new(
                    items@.len(),
                    |i: int|
                        if 0 <= i < items@.len() {
                            items@[i].model()
                        } else {
                            arbitrary()
                        },
                ),
            ),
            JsonValue::Object(fields) => JsonModel::Object(
                Seq::new(
                    fields@.len(),
                    |i: int|
                        if 0 <= i < fields@.len() {
                            fields@[i].model()
                        } else {
                            arbitrary()
                        },
                ),
            ),
        }
    }
}

impl View for JsonValue {
    type V = JsonModel;

    open spec fn view(&self) -> JsonModel {
        self.model()
    }
}

/// Whether the document holds no `Unreadable`.
pub open spec fn writable(doc: JsonModel) -> bool
    decreases doc,
{
    match doc {
        JsonModel::Unreadable => false,
        JsonModel::List(items) => forall|i: int| 0 <= i < items.len() ==> writable(#[trigger] items[i]),
        JsonModel::Object(fields) => forall|i: int|
            0 <= i < fields.len() ==> writable((#[trigger] fields[i]).1),
        _ => true,
    }
}

/// The text that `serde_json::to_string` writes for a document, or `None`
/// where it fails.
pub uninterp spec fn json_text(doc: JsonModel) -> Option<Seq<char>>;

/// The document that `serde_json::from_str` reads from a text, or `None`
/// where it takes the text for no JSON.
pub uninterp spec fn json_parsed(text: Seq<char>) -> Option<JsonModel>;

/// The `serde_json::Value` with what `doc` holds: each variant becomes the
/// variant of the same kind, the members of an object go into a
/// `serde_json::Map` one after the other. Nothing is claimed of the result.
#[verifier::external_body]
fn outside_value(doc: &JsonValue) -> serde_json::Value {
    match doc {
        JsonValue::Null | JsonValue::Unreadable => serde_json::Value::Null,
        JsonValue::Bool(b) => serde_json::Value::Bool(*b),
        JsonValue::Number(n) => serde_json::Value::from(*n),
        JsonValue::Text(s) => serde_json::Value::String(s.clone()),
        JsonValue::List(items) => serde_json::Value::Array(items.iter().map(outside_value).collect()),
        JsonValue::Object(fields) => serde_json::Value::Object(
            fields.iter().map(|f| (f.name.clone(), outside_value(&f.value))).collect(),
        ),
    }
}

/// The document with what a `serde_json::Value` holds, variant by variant;
/// a number goes by `Number::as_u64`. Nothing is claimed of the result.
#[verifier::external_body]
fn inside_value(value: serde_json::Value) -> JsonValue {
    match value {
        serde_json::Value::Null => JsonValue::Null,
        serde_json::Value::Bool(b) => JsonValue::Bool(b),
        serde_json::Value::Number(n) => n.as_u64().map_or(JsonValue::Unreadable, JsonValue::Number),
        serde_json::Value::String(s) => JsonValue::Text(s),
        serde_json::Value::Array(items) => JsonValue::List(items.into_iter().map(inside_value).collect()),
        serde_json::Value::Object(fields) => JsonValue::Object(
            fields.into_iter().map(|(name, v)| JsonField { name, value: inside_value(v) }).collect(),
        ),
    }
}

/// `serde_json::to_string` on the value for `doc`: the text it writes is
/// `json_text` of the document, and it fails where `json_text` is `None`.
#[verifier::external_body]
fn render_json(doc: &JsonValue) -> (out: Result<String, serde_json::Error>)
    requires
        writable(doc@),
    ensures
        match out {
            Ok(text) => json_text(doc@) == Some(text@),
            Err(_) => json_text(doc@) is None,
        },
{
    serde_json::to_string(&outside_value(doc))
}

/// `serde_json::from_str` for a `serde_json::Value`: the document it reads
/// is `json_parsed` of the text, and it fails where `json_parsed` is `None`.
#[verifier::external_body]
fn parse_json(text: &str) -> (out: Result<JsonValue, serde_json::Error>)
    ensures
        match out {
            Ok(doc) => json_parsed(text@) == Some(doc@),
            Err(_) => json_parsed(text@) is None,
        },
{
    serde_json::from_str::<serde_json::Value>(text).map(inside_value)
}

/// The position of the first member of `fields` with the name `key`, or -1.
pub open spec fn field_index(fields: Seq<(Seq<char>, JsonModel)>, key: Seq<char>) -> int
    decreases fields.len(),
{
    if fields.len() == 0 {
        -1
    } else if fields.last().0 == key && field_index(fields.drop_last(), key) < 0 {
        fields.len() - 1
    } else {
        field_index(fields.drop_last(), key)
    }
}

/// The value of the first member of `fields` with the name `key`.
pub open spec fn field_of(fields: Seq<(Seq<char>, JsonModel)>, key: Seq<char>) -> Option<JsonModel> {
    let i = field_index(fields, key);
    if 0 <= i < fields.len() {
        Some(fields[i].1)
    } else {
        None
    }
}

/// `field_index` gives the first position with the name, and -1 only
/// where no member has it.
pub proof fn lemma_field_index(fields: Seq<(Seq<char>, JsonModel)>, key: Seq<char>)
    ensures
        -1 <= field_index(fields, key) < fields.len(),
        field_index(fields, key) >= 0 ==> fields[field_index(fields, key)].0 == key,
        forall|j: int|
            0 <= j < fields.len() && (j < field_index(fields, key) || field_index(fields, key) < 0)
                ==> (#[trigger] fields[j]).0 != key,
    decreases fields.len(),
{
    if fields.len() > 0 {
        lemma_field_index(fields.drop_last(), key);
        assert forall|j: int|
            0 <= j < fields.len() && (j < field_index(fields, key) || field_index(fields, key)
                < 0) implies (#[trigger] fields[j]).0 != key by {
            if j < fields.len() - 1 {
                assert(fields.drop_last()[j] == fields[j]);
            }
        }
    }
}

/// The member at position `i` is the one that `field_of` finds, where no
/// member in front of it has the name.
pub proof fn lemma_field_at(fields: Seq<(Seq<char>, JsonModel)>, key: Seq<char>, i: int)
    requires
        0 <= i < fields.len(),
        fields[i].0 == key,
        forall|j: int| 0 <= j < i ==> (#[trigger] fields[j]).0 != key,
    ensures
        field_index(fields, key) == i,
        field_of(fields, key) == Some(fields[i].1),
{
    lemma_field_index(fields, key);
}

/// The text of a member that holds a text.
pub open spec fn text_field(fields: Seq<(Seq<char>, JsonModel)>, key: Seq<char>) -> Option<Seq<char>> {
    match field_of(fields, key) {
        Some(JsonModel::Text(s)) => Some(s),
        _ => None,
    }
}

/// The kind with the given name.
pub open spec fn kind_named(name: Seq<char>) -> Option<DDiveFileType> {
    if name == DDiveFileType::Directory.label_text() {
        Some(DDiveFileType::Directory)
    } else if name == DDiveFileType::File.label_text() {
        Some(DDiveFileType::File)
    } else if name == DDiveFileType::Symlink.label_text() {
        Some(DDiveFileType::Symlink)
    } else if name == DDiveFileType::Badfile.label_text() {
        Some(DDiveFileType::Badfile)
    } else {
        None
    }
}

/// The operation with the given name.
pub open spec fn op_named(name: Seq<char>) -> Option<FileOp> {
    if name == FileOp::Add.label_text() {
        Some(FileOp::Add)
    } else if name == FileOp::Remove.label_text() {
        Some(FileOp::Remove)
    } else {
        None
    }
}

/// The document for the data of a node: an object with one member for
/// each part of the data.
pub open spec fn data_document(data: DataModel) -> JsonModel {
    JsonModel::Object(
        seq![
            ("name"@, JsonModel::Text(data.name)),
            ("ftype"@, JsonModel::Text(data.ftype.label_text())),
            ("fop"@, JsonModel::Text(data.fop.label_text())),
            ("permissions"@, JsonModel::Text(data.permissions)),
            ("disk_rel_path"@, JsonModel::Text(data.disk_rel_path)),
            ("vis_rel_path"@, JsonModel::Text(data.vis_rel_path)),
            ("size"@, JsonModel::Number(data.size)),
        ],
    )
}

/// The data that a document holds, where it is an object with a member
/// of the right kind for each part of the data.
pub open spec fn data_in(doc: JsonModel) -> Option<DataModel> {
    match doc {
        JsonModel::Object(fields) => {
            match (
                text_field(fields, "name"@),
                text_field(fields, "ftype"@),
                text_field(fields, "fop"@),
                text_field(fields, "permissions"@),
                text_field(fields, "disk_rel_path"@),
                text_field(fields, "vis_rel_path"@),
                field_of(fields, "size"@),
            ) {
                (
                    Some(name),
                    Some(kind),
                    Some(op),
                    Some(permissions),
                    Some(disk_rel_path),
                    Some(vis_rel_path),
                    Some(JsonModel::Number(size)),
                ) => {
                    match (kind_named(kind), op_named(op)) {
                        (Some(ftype), Some(fop)) => Some(
                            DataModel {
                                name,
                                ftype,
                                fop,
                                permissions,
                                disk_rel_path,
                                vis_rel_path,
                                size,
                            },
                        ),
                        _ => None,
                    }
                },
                _ => None,
            }
        },
        _ => None,
    }
}

/// The document for a node: an object with the documents of the children,
/// in their order, and the document of the node's data.
pub open spec fn node_document(node: NodeModel) -> JsonModel
    decreases node,
{
    JsonModel::Object(
        seq![
            ("children"@, JsonModel::List(node_documents(node.children))),
            ("data"@, data_document(node.data)),
        ],
    )
}

/// The documents for a run of nodes.
pub open spec fn node_documents(nodes: Seq<NodeModel>) -> Seq<JsonModel>
    decreases nodes,
{
    if nodes.len() == 0 {
        Seq::empty()
    } else {
        node_documents(nodes.drop_last()).push(node_document(nodes.last()))
    }
}

/// The node that a document holds: the document must be an object whose
/// members `children` and `data` hold a list of nodes and the data of a node.
pub open spec fn node_in(doc: JsonModel) -> Option<NodeModel>
    decreases doc,
{
    match doc {
        JsonModel::Object(fields) => {
            let c = field_index(fields, "children"@);
            let d = field_index(fields, "data"@);
            if 0 <= c < fields.len() && 0 <= d < fields.len() {
                match fields[c].1 {
                    JsonModel::List(items) => {
                        match (nodes_in(items), data_in(fields[d].1)) {
                            (Some(children), Some(data)) => Some(NodeModel { data, children }),
                            _ => None,
                        }
                    },
                    _ => None,
                }
            } else {
                None
            }
        },
        _ => None,
    }
}

/// The nodes that a run of documents holds, where each holds one.
pub open spec fn nodes_in(docs: Seq<JsonModel>) -> Option<Seq<NodeModel>>
    decreases docs,
{
    if docs.len() == 0 {
        Some(Seq::empty())
    } else {
        match (nodes_in(docs.drop_last()), node_in(docs.last())) {
            (Some(front), Some(last)) => Some(front.push(last)),
            _ => None,
        }
    }
}

/// The document for a tree: the document of its root, and the directory
/// that the tree was built from.
pub open spec fn tree_document(root: NodeModel, source: Seq<char>) -> JsonModel {
    JsonModel::Object(
        seq![
            ("parent_node"@, node_document(root)),
            ("path_to_parent_node"@, JsonModel::Text(source)),
        ],
    )
}

/// The tree that a document holds: its root and the directory it was built from.
pub open spec fn tree_in(doc: JsonModel) -> Option<(NodeModel, Seq<char>)> {
    match doc {
        JsonModel::Object(fields) => {
            match (field_of(fields, "parent_node"@), text_field(fields, "path_to_parent_node"@)) {
                (Some(node), Some(source)) => match node_in(node) {
                    Some(root) => Some((root, source)),
                    None => None,
                },
                _ => None,
            }
        },
        _ => None,
    }
}

/// The names of the members of the documents are what they read, and no
/// two names of one object are the same.
proof fn lemma_names()
    ensures
        "name"@.len() == 4 && "name"@[0] == 'n',
        "ftype"@.len() == 5,
        "fop"@.len() == 3,
        "permissions"@.len() == 11,
        "disk_rel_path"@.len() == 13,
        "vis_rel_path"@.len() == 12,
        "size"@.len() == 4 && "size"@[0] == 's',
        "children"@.len() == 8,
        "data"@.len() == 4,
        "parent_node"@.len() == 11,
        "path_to_parent_node"@.len() == 19,
        "Directory"@.len() == 9,
        "File"@.len() == 4,
        "Symlink"@.len() == 7 && "Symlink"@[0] == 'S',
        "Badfile"@.len() == 7 && "Badfile"@[0] == 'B',
        "Add"@.len() == 3,
        "Remove"@.len() == 6,
{
    reveal_strlit("name");
    reveal_strlit("ftype");
    reveal_strlit("fop");
    reveal_strlit("permissions");
    reveal_strlit("disk_rel_path");
    reveal_strlit("vis_rel_path");
    reveal_strlit("size");
    reveal_strlit("children");
    reveal_strlit("data");
    reveal_strlit("parent_node");
    reveal_strlit("path_to_parent_node");
    reveal_strlit("Directory");
    reveal_strlit("File");
    reveal_strlit("Symlink");
    reveal_strlit("Badfile");
    reveal_strlit("Add");
    reveal_strlit("Remove");
}

/// A kind is had back from its name, and an operation from its.
pub proof fn lemma_names_round_trip(ftype: DDiveFileType, fop: FileOp)
    ensures
        kind_named(ftype.label_text()) == Some(ftype),
        op_named(fop.label_text()) == Some(fop),
{
    lemma_names();
}

/// The data of a node is had back from its document.
pub proof fn lemma_data_round_trip(data: DataModel)
    ensures
        data_in(data_document(data)) == Some(data),
        writable(data_document(data)),
{
    lemma_names();
    lemma_names_round_trip(data.ftype, data.fop);
    let fields = data_document(data)->Object_0;
    lemma_field_at(fields, "name"@, 0);
    lemma_field_at(fields, "ftype"@, 1);
    lemma_field_at(fields, "fop"@, 2);
    lemma_field_at(fields, "permissions"@, 3);
    lemma_field_at(fields, "disk_rel_path"@, 4);
    lemma_field_at(fields, "vis_rel_path"@, 5);
    lemma_field_at(fields, "size"@, 6);
    assert forall|i: int| 0 <= i < fields.len() implies writable((#[trigger] fields[i]).1) by {
        if i == 0 {
        } else if i == 1 {
        } else if i == 2 {
        } else if i == 3 {
        } else if i == 4 {
        } else if i == 5 {
        } else {
            assert(fields[i].1 == JsonModel::Number(data.size));
        }
    }
}

/// A node, with all that lies below it, is had back from its document.
pub proof fn lemma_node_round_trip(node: NodeModel)
    ensures
        node_in(node_document(node)) == Some(node),
        writable(node_document(node)),
    decreases node,
{
    lemma_names();
    lemma_nodes_round_trip(node.children);
    lemma_data_round_trip(node.data);
    let fields = node_document(node)->Object_0;
    lemma_field_at(fields, "children"@, 0);
    lemma_field_at(fields, "data"@, 1);
    assert(writable(fields[0].1));
    assert forall|i: int| 0 <= i < fields.len() implies writable((#[trigger] fields[i]).1) by {
        if i == 0 {
        } else {
            assert(fields[i].1 == data_document(node.data));
        }
    }
}

/// A run of nodes is had back from its documents.
pub proof fn lemma_nodes_round_trip(nodes: Seq<NodeModel>)
    ensures
        nodes_in(node_documents(nodes)) == Some(nodes),
        node_documents(nodes).len() == nodes.len(),
        forall|i: int| 0 <= i < nodes.len() ==> writable(#[trigger] node_documents(nodes)[i]),
    decreases nodes,
{
    if nodes.len() > 0 {
        lemma_nodes_round_trip(nodes.drop_last());
        lemma_node_round_trip(nodes.last());
        let docs = node_documents(nodes);
        assert(docs.drop_last() =~= node_documents(nodes.drop_last()));
        assert(nodes.drop_last().push(nodes.last()) =~= nodes);
        assert forall|i: int| 0 <= i < nodes.len() implies writable(#[trigger] docs[i]) by {
            if i < nodes.len() - 1 {
                assert(docs[i] == node_documents(nodes.drop_last())[i]);
            }
        }
    }
}

/// A tree is had back from the document that is written for it: root
/// node, children in their order, every part of every node's data, and
/// the directory that the tree was built from.
pub proof fn lemma_tree_round_trip(root: NodeModel, source: Seq<char>)
    ensures
        tree_in(tree_document(root, source)) == Some((root, source)),
        writable(tree_document(root, source)),
{
    lemma_names();
    lemma_node_round_trip(root);
    let fields = tree_document(root, source)->Object_0;
    lemma_field_at(fields, "parent_node"@, 0);
    lemma_field_at(fields, "path_to_parent_node"@, 1);
    assert forall|i: int| 0 <= i < fields.len() implies writable((#[trigger] fields[i]).1) by {
        if i == 0 {
            assert(fields[i].1 == node_document(root));
        }
    }
}

/// The members of an object, as mathematical values.
pub open spec fn fields_model(fields: Seq<JsonField>) -> Seq<(Seq<char>, JsonModel)> {
    Seq::new(fields.len(), |i: int| (fields[i].name@, fields[i].value@))
}

/// The items of a list, as mathematical values.
pub open spec fn items_model(items: Seq<JsonValue>) -> Seq<JsonModel> {
    Seq::new(items.len(), |i: int| items[i]@)
}

proof fn lemma_object_model(doc: &JsonValue)
    ensures
        match *doc {
            JsonValue::Null => doc@ == JsonModel::Null,
            JsonValue::Bool(b) => doc@ == JsonModel::Bool(b),
            JsonValue::Number(n) => doc@ == JsonModel::Number(n),
            JsonValue::Unreadable => doc@ == JsonModel::Unreadable,
            JsonValue::Text(s) => doc@ == JsonModel::Text(s@),
            JsonValue::List(items) => doc@ == JsonModel::List(items_model(items@)),
            JsonValue::Object(fields) => doc@ == JsonModel::Object(fields_model(fields@)),
        },
{
    match *doc {
        JsonValue::List(items) => {
            assert(doc@->List_0 =~= items_model(items@));
        },
        JsonValue::Object(fields) => {
            assert forall|i: int| 0 <= i < fields@.len() implies doc@->Object_0[i]
                == fields_model(fields@)[i] by {
                assert(fields@[i].model() == (fields@[i].name@, fields@[i].value@));
            }
            assert(doc@->Object_0 =~= fields_model(fields@));
        },
        _ => {},
    }
}

fn make_text(text: &str) -> (doc: JsonValue)
    ensures
        doc@ == JsonModel::Text(text@),
{
    JsonValue::Text(String::from_str(text))
}

fn make_field(name: &str, value: JsonValue) -> (field: JsonField)
    ensures
        field.name@ == name@,
        field.value@ == value@,
{
    JsonField { name: String::from_str(name), value }
}

fn make_object(fields: Vec<JsonField>) -> (doc: JsonValue)
    ensures
        doc@ == JsonModel::Object(fields_model(fields@)),
{
    let doc = JsonValue::Object(fields);
    proof {
        lemma_object_model(&doc);
    }
    doc
}

fn make_list(items: Vec<JsonValue>) -> (doc: JsonValue)
    ensures
        doc@ == JsonModel::List(items_model(items@)),
{
    let doc = JsonValue::List(items);
    proof {
        lemma_object_model(&doc);
    }
    doc
}

/// Whether `text` reads `literal`.
fn reads(text: &str, literal: &str) -> (same: bool)
    ensures
        same == (text@ == literal@),
{
    let a = to_chars(text);
    let b = to_chars(literal);
    same_chars(&a, &b)
}

/// The position of the first member of `fields` with the name `key`.
fn find_field(fields: &Vec<JsonField>, key: &str) -> (found: Option<usize>)
    ensures
        match found {
            Some(i) => i < fields@.len() && field_index(fields_model(fields@), key@) == i,
            None => field_index(fields_model(fields@), key@) < 0,
        },
{
    let ghost members = fields_model(fields@);
    let mut i: usize = 0;
    while i < fields.len()
        invariant
            i <= fields.len(),
            members == fields_model(fields@),
            forall|j: int| 0 <= j < i ==> (#[trigger] members[j]).0 != key@,
        decreases fields.len() - i,
    {
        assert(members[i as int].0 == fields@[i as int].name@);
        if reads(fields[i].name.as_str(), key) {
            proof {
                lemma_field_at(members, key@, i as int);
            }
            return Some(i);
        }
        i += 1;
    }
    proof {
        lemma_field_index(members, key@);
    }
    None
}

/// The text of the first member of `fields` with the name `key`, where
/// that member holds a text.
fn find_text<'a>(fields: &'a Vec<JsonField>, key: &str) -> (found: Option<&'a String>)
    ensures
        match found {
            Some(text) => text_field(fields_model(fields@), key@) == Some(text@),
            None => text_field(fields_model(fields@), key@) is None,
        },
{
    match find_field(fields, key) {
        Some(i) => {
            proof {
                lemma_object_model(&fields@[i as int].value);
            }
            match &fields[i].value {
                JsonValue::Text(text) => Some(text),
                _ => None,
            }
        },
        None => None,
    }
}

/// The kind with the given name.
fn kind_from(name: &str) -> (kind: Option<DDiveFileType>)
    ensures
        kind == kind_named(name@),
{
    if reads(name, "Directory") {
        Some(DDiveFileType::Directory)
    } else if reads(name, "File") {
        Some(DDiveFileType::File)
    } else if reads(name, "Symlink") {
        Some(DDiveFileType::Symlink)
    } else if reads(name, "Badfile") {
        Some(DDiveFileType::Badfile)
    } else {
        None
    }
}

/// The operation with the given name.
fn op_from(name: &str) -> (op: Option<FileOp>)
    ensures
        op == op_named(name@),
{
    if reads(name, "Add") {
        Some(FileOp::Add)
    } else if reads(name, "Remove") {
        Some(FileOp::Remove)
    } else {
        None
    }
}

/// The document for the data of a node.
pub fn data_to_document(data: &FileTreeNodeData) -> (doc: JsonValue)
    ensures
        doc@ == data_document(data@),
{
    let mut fields: Vec<JsonField> = Vec::new();
    fields.push(make_field("name", make_text(data.name().as_str())));
    fields.push(make_field("ftype", make_text(data.ftype().label())));
    fields.push(make_field("fop", make_text(data.fop().label())));
    fields.push(make_field("permissions", make_text(data.permissions().as_str())));
    fields.push(make_field("disk_rel_path", make_text(data.disk_path().as_str())));
    fields.push(make_field("vis_rel_path", make_text(data.path().as_str())));
    fields.push(make_field("size", JsonValue::Number(data.size())));
    proof {
        lemma_object_model(&fields@[6].value);
        assert(fields_model(fields@) =~= data_document(data@)->Object_0);
    }
    make_object(fields)
}

/// The data that a document holds, where it holds the data of a node.
pub fn data_from_document(doc: &JsonValue) -> (data: Option<FileTreeNodeData>)
    ensures
        match data {
            Some(d) => data_in(doc@) == Some(d@),
            None => data_in(doc@) is None,
        },
{
    proof {
        lemma_object_model(doc);
    }
    match doc {
        JsonValue::Object(fields) => {
            let name = find_text(fields, "name");
            let kind = find_text(fields, "ftype");
            let op = find_text(fields, "fop");
            let permissions = find_text(fields, "permissions");
            let disk_rel_path = find_text(fields, "disk_rel_path");
            let vis_rel_path = find_text(fields, "vis_rel_path");
            let size = find_field(fields, "size");
            match (name, kind, op, permissions, disk_rel_path, vis_rel_path, size) {
                (Some(name), Some(kind), Some(op), Some(permissions), Some(disk), Some(vis), Some(at)) => {
                    proof {
                        lemma_object_model(&fields@[at as int].value);
                    }
                    match &fields[at].value {
                        JsonValue::Number(size) => {
                            match (kind_from(kind.as_str()), op_from(op.as_str())) {
                                (Some(ftype), Some(fop)) => Some(
                                    FileTreeNodeData::new(
                                        name.clone(),
                                        ftype,
                                        fop,
                                        permissions.clone(),
                                        disk.clone(),
                                        vis.clone(),
                                        *size,
                                    ),
                                ),
                                _ => None,
                            }
                        },
                        _ => None,
                    }
                },
                _ => None,
            }
        },
        _ => None,
    }
}

/// The document for a node and all that lies below it.
pub fn node_to_document(node: &FileTreeNode) -> (doc: JsonValue)
    ensures
        doc@ == node_document(node@),
    decreases node@,
{
    let n = node.get_n_children();
    let mut items: Vec<JsonValue> = Vec::new();
    let mut i: usize = 0;
    assert(node@.children.take(0) =~= Seq::<NodeModel>::empty());
    assert(items_model(items@) =~= node_documents(node@.children.take(0)));
    while i < n
        invariant
            i <= n,
            n == node@.children.len(),
            items_model(items@) == node_documents(node@.children.take(i as int)),
        decreases n - i,
    {
        let ghost before = items_model(items@);
        match node.get_child(i) {
            Some(child) => {
                let doc = node_to_document(child);
                items.push(doc);
                proof {
                    let upto = node@.children.take(i + 1);
                    assert(upto.drop_last() =~= node@.children.take(i as int));
                    assert(upto.last() == node@.children[i as int]);
                    assert(items_model(items@) =~= before.push(node_document(child@)));
                }
            },
            None => {
                assert(false);
            },
        }
        i += 1;
    }
    proof {
        assert(node@.children.take(i as int) =~= node@.children);
    }
    let mut fields: Vec<JsonField> = Vec::new();
    fields.push(make_field("children", make_list(items)));
    fields.push(make_field("data", data_to_document(node.data())));
    proof {
        assert(fields_model(fields@) =~= node_document(node@)->Object_0);
    }
    make_object(fields)
}

/// The node that a document holds, where it holds one.
pub fn node_from_document(doc: &JsonValue) -> (node: Option<FileTreeNode>)
    ensures
        match node {
            Some(n) => node_in(doc@) == Some(n@),
            None => node_in(doc@) is None,
        },
    decreases doc@,
{
    proof {
        lemma_object_model(doc);
    }
    match doc {
        JsonValue::Object(fields) => {
            let ghost members = fields_model(fields@);
            match (find_field(fields, "children"), find_field(fields, "data")) {
                (Some(c), Some(d)) => {
                    proof {
                        lemma_object_model(&fields@[c as int].value);
                        assert(members[c as int].1 == fields@[c as int].value@);
                        assert(members[d as int].1 == fields@[d as int].value@);
                    }
                    match &fields[c].value {
                        JsonValue::List(items) => {
                            let ghost docs = items_model(items@);
                            let mut children: Vec<FileTreeNode> = Vec::new();
                            let mut i: usize = 0;
                            let ghost mut made: Seq<NodeModel> = Seq::empty();
                            assert(docs.take(0) =~= Seq::<JsonModel>::empty());
                            assert(nodes_in(docs) is None ==> node_in(doc@) is None);
                            while i < items.len()
                                invariant
                                    i <= items.len(),
                                    docs == items_model(items@),
                                    doc@ == JsonModel::Object(members),
                                    0 <= c < members.len(),
                                    members[c as int].1 == JsonModel::List(docs),
                                    nodes_in(docs) is None ==> node_in(doc@) is None,
                                    children@.len() == i,
                                    nodes_in(docs.take(i as int)) == Some(made),
                                    made.len() == i,
                                    forall|k: int|
                                        0 <= k < i ==> (#[trigger] children@[k])@ == made[k],
                                decreases items.len() - i,
                            {
                                proof {
                                    assert(docs.take(i + 1).drop_last() =~= docs.take(i as int));
                                    assert(docs.take(i + 1).last() == items@[i as int]@);
                                    assert(items@[i as int]@ == docs[i as int]);
                                    assert(decreases_to!(doc@ => doc@->Object_0));
                                    assert(decreases_to!(members => members[c as int]));
                                    assert(decreases_to!(members[c as int] => members[c as int].1));
                                    assert(decreases_to!(members[c as int].1 => members[c as int].1->List_0));
                                    assert(decreases_to!(docs => docs[i as int]));
                                }
                                match node_from_document(&items[i]) {
                                    Some(child) => {
                                        proof {
                                            made = made.push(child@);
                                        }
                                        children.push(child);
                                    },
                                    None => {
                                        proof {
                                            assert(nodes_in(docs.take(i + 1)) is None);
                                            lemma_nodes_in_prefix(docs, i + 1);
                                            assert(docs.take(docs.len() as int) =~= docs);
                                        }
                                        return None;
                                    },
                                }
                                i += 1;
                            }
                            proof {
                                assert(docs.take(i as int) =~= docs);
                            }
                            match data_from_document(&fields[d].value) {
                                Some(data) => {
                                    let node = FileTreeNode::with_children(data, children);
                                    proof {
                                        assert forall|k: int|
                                            0 <= k < made.len() implies node@.children[k]
                                            == made[k] by {
                                            assert(node@.children[k] == children@[k]@);
                                        }
                                        assert(node@.children =~= made);
                                    }
                                    Some(node)
                                },
                                None => None,
                            }
                        },
                        _ => None,
                    }
                },
                _ => None,
            }
        },
        _ => None,
    }
}

/// Where a front part of a run of documents holds no run of nodes, the
/// whole run holds none.
proof fn lemma_nodes_in_prefix(docs: Seq<JsonModel>, k: int)
    requires
        0 <= k <= docs.len(),
        nodes_in(docs.take(k)) is None,
    ensures
        nodes_in(docs) is None,
    decreases docs.len() - k,
{
    if k < docs.len() {
        assert(docs.take(k + 1).drop_last() =~= docs.take(k));
        lemma_nodes_in_prefix(docs, k + 1);
    } else {
        assert(docs.take(k) =~= docs);
    }
}

impl FileTree {
    /// The document for the tree.
    pub fn to_document(&self) -> (doc: JsonValue)
        ensures
            doc@ == tree_document(self@, self.source_path()),
    {
        let mut fields: Vec<JsonField> = Vec::new();
        fields.push(make_field("parent_node", node_to_document(self.root())));
        fields.push(make_field("path_to_parent_node", make_text(self.source().as_str())));
        proof {
            assert(fields_model(fields@) =~= tree_document(self@, self.source_path())->Object_0);
        }
        make_object(fields)
    }

    /// The tree that a document holds, where it holds one.
    pub fn from_document(doc: &JsonValue) -> (tree: Option<FileTree>)
        ensures
            match tree {
                Some(t) => tree_in(doc@) == Some((t@, t.source_path())),
                None => tree_in(doc@) is None,
            },
    {
        proof {
            lemma_object_model(doc);
        }
        match doc {
            JsonValue::Object(fields) => {
                let ghost members = fields_model(fields@);
                match (find_field(fields, "parent_node"), find_text(fields, "path_to_parent_node")) {
                    (Some(at), Some(source)) => {
                        proof {
                            assert(members[at as int].1 == fields@[at as int].value@);
                        }
                        match node_from_document(&fields[at].value) {
                            Some(root) => Some(FileTree::with_source(root, source.clone())),
                            None => None,
                        }
                    },
                    _ => None,
                }
            },
            _ => None,
        }
    }

    /// The text of the tree's document, as the cache holds it.
    pub fn to_json(&self) -> (out: Result<String, ImageParcingError>)
        ensures
            match out {
                Ok(text) => json_text(tree_document(self@, self.source_path())) == Some(text@),
                Err(e) => e == ImageParcingError::JSONError && json_text(
                    tree_document(self@, self.source_path()),
                ) is None,
            },
    {
        let doc = self.to_document();
        proof {
            lemma_tree_round_trip(self@, self.source_path());
        }
        match render_json(&doc) {
            Ok(text) => Ok(text),
            Err(_) => Err(ImageParcingError::JSONError),
        }
    }

    /// The tree that `document` holds, once it has been read.
    pub fn from_parsed(document: Option<JsonValue>) -> (out: Result<FileTree, ImageParcingError>)
        ensures
            match out {
                Ok(tree) => document matches Some(doc) && tree_in(doc@) == Some(
                    (tree@, tree.source_path()),
                ),
                Err(e) => e == ImageParcingError::JSONError && (document matches Some(doc)
                    ==> tree_in(doc@) is None),
            },
    {
        match document {
            Some(doc) => match FileTree::from_document(&doc) {
                Some(tree) => Ok(tree),
                None => Err(ImageParcingError::JSONError),
            },
            None => Err(ImageParcingError::JSONError),
        }
    }

    /// The tree that a text holds: the text must be JSON, and the document
    /// that it stands for must hold a tree.
    pub fn from_json(text: &str) -> (out: Result<FileTree, ImageParcingError>)
        ensures
            match out {
                Ok(tree) => json_parsed(text@) matches Some(doc) && tree_in(doc) == Some(
                    (tree@, tree.source_path()),
                ),
                Err(e) => e == ImageParcingError::JSONError && (json_parsed(text@) matches Some(
                    doc,
                ) ==> tree_in(doc) is None),
            },
    {
        let parsed = match parse_json(text) {
            Ok(doc) => Some(doc),
            Err(_) => None,
        };
        FileTree::from_parsed(parsed)
    }
}

} // verus!
