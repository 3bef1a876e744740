//! The tree of one layer's entries.
//!
//! A node owns its children. What a node is, is stated over `NodeModel`, the
//! view of `FileTreeNode`: the node's data and the models of its children in
//! order.

use crate::docker_file_tree::{DDiveFileType, FileOp};
use crate::exceptions::{GUIError, ImageParcingError};
use crate::sorting::{
    arrange, as_ints, comes_before, lemma_sort_order_stable, sorted_order, stable_order,
};
use crate::text::{
    name_le, path_components, same_chars, split_path, starts_with, to_chars, views,
};
use std::collections::VecDeque;
use vstd::prelude::*;
use vstd::string::{StrSliceExecFns, StringExecFns};

verus! {

/// What the file system reports about one entry, without following a
/// symbolic link. `mode` holds the permission bits where the host has them.
#[derive(Clone, Copy, Debug, PartialEq, Eq, Structural)]
pub struct EntryMetadata {
    pub is_symlink: bool,
    pub is_file: bool,
    pub is_dir: bool,
    pub mode: Option<u32>,
    pub size: u64,
}

/// The data of one node, as mathematical values.
pub struct DataModel {
    pub name: Seq<char>,
    pub ftype: DDiveFileType,
    pub fop: FileOp,
    pub permissions: Seq<char>,
    pub disk_rel_path: Seq<char>,
    pub vis_rel_path: Seq<char>,
    pub size: u64,
}

/// A node and all that lies below it, as mathematical values.
pub struct NodeModel {
    pub data: DataModel,
    pub children: Seq<NodeModel>,
}

/// The marker in front of the name of an entry that a layer removes.
pub open spec fn whiteout_prefix() -> Seq<char> {
    seq!['.', 'w', 'h', '.']
}

/// The name under which an entry is shown: the name on disk, without the
/// marker where it has one.
pub open spec fn visible_name(raw: Seq<char>) -> Seq<char> {
    if whiteout_prefix().is_prefix_of(raw) {
        raw.skip(4)
    } else {
        raw
    }
}

/// What the layer does to the entry with this name on disk.
pub open spec fn name_op(raw: Seq<char>) -> FileOp {
    if whiteout_prefix().is_prefix_of(raw) {
        FileOp::Remove
    } else {
        FileOp::Add
    }
}

/// The name on disk of an entry that is shown as `name` and has operation `fop`.
pub open spec fn raw_name(name: Seq<char>, fop: FileOp) -> Seq<char> {
    match fop {
        FileOp::Add => name,
        FileOp::Remove => whiteout_prefix() + name,
    }
}

/// The name on disk is had back from the visible name and the operation.
pub proof fn lemma_raw_name_of_parsed(raw: Seq<char>)
    ensures
        raw_name(visible_name(raw), name_op(raw)) == raw,
{
    if whiteout_prefix().is_prefix_of(raw) {
        assert(whiteout_prefix() + raw.skip(4) =~= raw);
    }
}

/// The position of the last separator in `path`, or -1 where it has none.
pub open spec fn last_separator(path: Seq<char>) -> int
    decreases path.len(),
{
    if path.len() == 0 {
        -1
    } else if path.last() == '/' {
        path.len() - 1
    } else {
        last_separator(path.drop_last())
    }
}

/// The last separator stands inside the path, and is a separator.
pub proof fn lemma_last_separator(path: Seq<char>)
    ensures
        -1 <= last_separator(path) < path.len(),
        last_separator(path) >= 0 ==> path[last_separator(path)] == '/',
    decreases path.len(),
{
    if path.len() > 0 && path.last() != '/' {
        lemma_last_separator(path.drop_last());
    }
}

/// What follows the last separator of `path`.
pub open spec fn base_name(path: Seq<char>) -> Seq<char> {
    path.skip(last_separator(path) + 1)
}

/// What stands before the last separator of `path`: `/` where that is the
/// first character, nothing where `path` has no separator.
pub open spec fn parent_path(path: Seq<char>) -> Seq<char> {
    let k = last_separator(path);
    if k < 0 {
        Seq::empty()
    } else if k == 0 {
        seq!['/']
    } else {
        path.take(k)
    }
}

/// The path of the entry `name` in the directory `parent`.
pub open spec fn join_path(parent: Seq<char>, name: Seq<char>) -> Seq<char> {
    if parent.len() == 0 {
        name
    } else if parent.last() == '/' {
        parent + name
    } else {
        parent + seq!['/'] + name
    }
}

/// One of the three permission letters: the letter where `mode` has one of
/// the bits of `mask`, a dash where it has none.
pub open spec fn perm_char(mode: u32, mask: u32, letter: char) -> char {
    if mode & mask != 0 {
        letter
    } else {
        '-'
    }
}

/// The nine permission letters of `mode`: read, write and execute for the
/// owner, the group and all others.
pub open spec fn perm_chars(mode: u32) -> Seq<char> {
    seq![
        perm_char(mode, 0o400, 'r'),
        perm_char(mode, 0o200, 'w'),
        perm_char(mode, 0o100, 'x'),
        perm_char(mode, 0o040, 'r'),
        perm_char(mode, 0o020, 'w'),
        perm_char(mode, 0o010, 'x'),
        perm_char(mode, 0o004, 'r'),
        perm_char(mode, 0o002, 'w'),
        perm_char(mode, 0o001, 'x'),
    ]
}

/// The permission string of an entry: the nine letters, or nothing on a host
/// without permission bits.
pub open spec fn permissions_of(metadata: EntryMetadata) -> Seq<char> {
    match metadata.mode {
        Some(mode) => perm_chars(mode),
        None => Seq::empty(),
    }
}

/// The kind of the entry that `metadata` describes.
pub open spec fn kind_of(metadata: EntryMetadata) -> DDiveFileType {
    DDiveFileType::classify(metadata.is_symlink, metadata.is_file, metadata.is_dir)
}

/// The size recorded for an entry: its length in bytes, and 0 for a directory.
pub open spec fn size_of(metadata: EntryMetadata) -> u64 {
    if kind_of(metadata) == DDiveFileType::Directory {
        0
    } else {
        metadata.size
    }
}

/// The data of the node for the entry at `relpath`, a path inside the layer
/// that starts at the layer's root `/`. The name is what follows the last
/// separator; a path that ends in a separator names the root.
pub open spec fn data_at(relpath: Seq<char>, metadata: EntryMetadata) -> DataModel {
    let raw = base_name(relpath);
    if raw.len() == 0 {
        DataModel {
            name: seq!['/'],
            ftype: kind_of(metadata),
            fop: FileOp::Add,
            permissions: permissions_of(metadata),
            disk_rel_path: relpath,
            vis_rel_path: seq!['/'],
            size: size_of(metadata),
        }
    } else {
        DataModel {
            name: visible_name(raw),
            ftype: kind_of(metadata),
            fop: name_op(raw),
            permissions: permissions_of(metadata),
            disk_rel_path: relpath,
            vis_rel_path: join_path(parent_path(relpath), visible_name(raw)),
            size: size_of(metadata),
        }
    }
}

/// The data of the node for the entry that a directory lists under the name
/// `raw`: its two paths continue those of the directory's node.
pub open spec fn child_data(parent: DataModel, raw: Seq<char>, metadata: EntryMetadata) -> DataModel {
    DataModel {
        name: visible_name(raw),
        ftype: kind_of(metadata),
        fop: name_op(raw),
        permissions: permissions_of(metadata),
        disk_rel_path: join_path(parent.disk_rel_path, raw),
        vis_rel_path: join_path(parent.vis_rel_path, visible_name(raw)),
        size: size_of(metadata),
    }
}

/// A node without children.
pub open spec fn leaf(data: DataModel) -> NodeModel {
    NodeModel { data, children: Seq::empty() }
}

/// The visible names of a run of nodes.
pub open spec fn names_of(nodes: Seq<NodeModel>) -> Seq<Seq<char>> {
    nodes.map_values(|n: NodeModel| n.data.name)
}

/// How many nodes a tree holds.
pub open spec fn node_count(n: NodeModel) -> nat
    decreases n,
{
    1 + forest_count(n.children)
}

/// How many nodes a run of trees holds.
pub open spec fn forest_count(f: Seq<NodeModel>) -> nat
    decreases f,
{
    if f.len() == 0 {
        0
    } else {
        forest_count(f.drop_last()) + node_count(f.last())
    }
}

/// The nodes of two forests put side by side are counted forest by forest.
pub proof fn lemma_forest_count_concat(a: Seq<NodeModel>, b: Seq<NodeModel>)
    ensures
        forest_count(a + b) == forest_count(a) + forest_count(b),
    decreases b.len(),
{
    if b.len() == 0 {
        assert(a + b =~= a);
    } else {
        assert((a + b).drop_last() =~= a + b.drop_last());
        assert((a + b).last() == b.last());
        lemma_forest_count_concat(a, b.drop_last());
    }
}

/// A forest holds the nodes of its first tree and those of the others.
pub proof fn lemma_forest_count_first(f: Seq<NodeModel>)
    requires
        f.len() > 0,
    ensures
        forest_count(f) == node_count(f[0]) + forest_count(f.drop_first()),
{
    assert(f =~= seq![f[0]] + f.drop_first());
    lemma_forest_count_concat(seq![f[0]], f.drop_first());
    assert(seq![f[0]].drop_last() =~= Seq::<NodeModel>::empty());
    assert(forest_count(seq![f[0]]) == forest_count(seq![f[0]].drop_last()) + node_count(f[0]));
}

/// The nodes that a breadth-first walk visits when `queue` holds the nodes
/// that wait, in order: the first of them, then what the walk visits once
/// that node's children have joined the end of the queue.
pub open spec fn level_order(queue: Seq<NodeModel>) -> Seq<NodeModel>
    decreases forest_count(queue),
    via level_order_decreases
{
    if queue.len() == 0 {
        Seq::empty()
    } else {
        seq![queue[0]] + level_order(queue.drop_first() + queue[0].children)
    }
}

#[via_fn]
proof fn level_order_decreases(queue: Seq<NodeModel>) {
    if queue.len() > 0 {
        lemma_forest_count_first(queue);
        lemma_forest_count_concat(queue.drop_first(), queue[0].children);
    }
}

/// The data of one node: its names, its kind, and where it stands.
#[derive(Debug, PartialEq, Eq, Hash)]
pub struct FileTreeNodeData {
    name: String,
    ftype: DDiveFileType,
    fop: FileOp,
    permissions: String,
    disk_rel_path: String,
    vis_rel_path: String,
    size: u64,
}

impl View for FileTreeNodeData {
    type V = DataModel;

    closed spec fn view(&self) -> DataModel {
        DataModel {
            name: self.name@,
            ftype: self.ftype,
            fop: self.fop,
            permissions: self.permissions@,
            disk_rel_path: self.disk_rel_path@,
            vis_rel_path: self.vis_rel_path@,
            size: self.size,
        }
    }
}

impl Clone for FileTreeNodeData {
    fn clone(&self) -> (copy: Self)
        ensures
            copy@ == self@,
    {
        FileTreeNodeData {
            name: self.name.clone(),
            ftype: self.ftype,
            fop: self.fop,
            permissions: self.permissions.clone(),
            disk_rel_path: self.disk_rel_path.clone(),
            vis_rel_path: self.vis_rel_path.clone(),
            size: self.size,
        }
    }
}

impl FileTreeNodeData {
    /// The data of a node, from its parts.
    pub fn new(
        name: String,
        ftype: DDiveFileType,
        fop: FileOp,
        permissions: String,
        disk_rel_path: String,
        vis_rel_path: String,
        size: u64,
    ) -> (data: FileTreeNodeData)
        ensures
            data@ == (DataModel {
                name: name@,
                ftype,
                fop,
                permissions: permissions@,
                disk_rel_path: disk_rel_path@,
                vis_rel_path: vis_rel_path@,
                size,
            }),
    {
        FileTreeNodeData { name, ftype, fop, permissions, disk_rel_path, vis_rel_path, size }
    }

    /// The data of the node for the entry that the directory with the data
    /// `parent` lists under the name `raw_name`.
    pub fn for_child(
        parent: &FileTreeNodeData,
        raw_name: &str,
        metadata: &EntryMetadata,
    ) -> (data: FileTreeNodeData)
        ensures
            data@ == child_data(parent@, raw_name@, *metadata),
    {
        let (name, fop) = parse_name(raw_name);
        let ftype = DDiveFileType::from_ftype(
            metadata.is_symlink,
            metadata.is_file,
            metadata.is_dir,
        );
        let disk_rel_path = join(parent.disk_rel_path.as_str(), raw_name);
        let vis_rel_path = join(parent.vis_rel_path.as_str(), name.as_str());
        FileTreeNodeData {
            name,
            ftype,
            fop,
            permissions: permissions_from(metadata),
            disk_rel_path,
            vis_rel_path,
            size: recorded_size(metadata),
        }
    }

    /// The name that is shown, without a whiteout marker.
    pub fn name(&self) -> (name: &String)
        ensures
            name@ == self@.name,
    {
        &self.name
    }

    /// The kind of the entry.
    pub fn ftype(&self) -> (ftype: DDiveFileType)
        ensures
            ftype == self@.ftype,
    {
        self.ftype
    }

    /// What the layer does to the entry.
    pub fn fop(&self) -> (fop: FileOp)
        ensures
            fop == self@.fop,
    {
        self.fop
    }

    /// The permissions, nine characters, or the placeholder where none are known.
    pub fn permissions(&self) -> (permissions: &String)
        ensures
            permissions@ == self@.permissions,
    {
        &self.permissions
    }

    /// The path below the root as the entry is named on disk.
    pub fn disk_path(&self) -> (path: &String)
        ensures
            path@ == self@.disk_rel_path,
    {
        &self.disk_rel_path
    }

    /// The path below the root as the entry is shown.
    pub fn path(&self) -> (path: &String)
        ensures
            path@ == self@.vis_rel_path,
    {
        &self.vis_rel_path
    }

    /// The size in bytes; a directory has none.
    pub fn size(&self) -> (size: u64)
        ensures
            size == self@.size,
    {
        self.size
    }
}

/// The visible name of the entry with the name `name` on disk, and what the
/// layer does to it: an entry whose name on disk starts with `.wh.` is
/// removed, and shown under what follows the marker.
pub fn parse_name(name: &str) -> (parsed: (String, FileOp))
    ensures
        parsed.0@ == visible_name(name@),
        parsed.1 == name_op(name@),
{
    let chars = to_chars(name);
    let n = chars.len();
    if n >= 4 && chars[0] == '.' && chars[1] == 'w' && chars[2] == 'h' && chars[3] == '.' {
        assert(whiteout_prefix() =~= name@.subrange(0, 4));
        assert(name@.skip(4) =~= name@.subrange(4, n as int));
        (String::from_str(name.substring_char(4, n)), FileOp::Remove)
    } else {
        assert(!whiteout_prefix().is_prefix_of(name@)) by {
            if whiteout_prefix().is_prefix_of(name@) {
                assert(name@[0] == whiteout_prefix()[0]);
                assert(name@[1] == whiteout_prefix()[1]);
                assert(name@[2] == whiteout_prefix()[2]);
                assert(name@[3] == whiteout_prefix()[3]);
            }
        }
        (String::from_str(name), FileOp::Add)
    }
}

/// The path of the entry `name` in the directory `parent`.
pub fn join(parent: &str, name: &str) -> (path: String)
    ensures
        path@ == join_path(parent@, name@),
{
    let chars = to_chars(parent);
    let n = chars.len();
    if n == 0 {
        String::from_str(name)
    } else if chars[n - 1] == '/' {
        String::from_str(parent).concat(name)
    } else {
        proof {
            reveal_strlit("/");
            assert("/"@ =~= seq!['/']);
        }
        String::from_str(parent).concat("/").concat(name)
    }
}

fn perm_letter(out: &mut String, mode: u32, mask: u32, letter: &str)
    requires
        letter@.len() == 1,
    ensures
        final(out)@ == old(out)@.push(perm_char(mode, mask, letter@[0])),
{
    if mode & mask != 0 {
        assert(old(out)@ + letter@ =~= old(out)@.push(letter@[0]));
        out.append(letter);
    } else {
        proof {
            reveal_strlit("-");
            assert(old(out)@ + "-"@ =~= old(out)@.push('-'));
        }
        out.append("-");
    }
}

/// The nine permission letters of `perm`.
pub fn perm_str_from_u32(perm: u32) -> (text: String)
    ensures
        text@ == perm_chars(perm),
{
    proof {
        reveal_strlit("r");
        reveal_strlit("w");
        reveal_strlit("x");
    }
    let mut text = String::new();
    perm_letter(&mut text, perm, 0o400, "r");
    perm_letter(&mut text, perm, 0o200, "w");
    perm_letter(&mut text, perm, 0o100, "x");
    perm_letter(&mut text, perm, 0o040, "r");
    perm_letter(&mut text, perm, 0o020, "w");
    perm_letter(&mut text, perm, 0o010, "x");
    perm_letter(&mut text, perm, 0o004, "r");
    perm_letter(&mut text, perm, 0o002, "w");
    perm_letter(&mut text, perm, 0o001, "x");
    assert(text@ =~= perm_chars(perm));
    text
}

/// The permission string of the entry that `metadata` describes.
pub fn permissions_from(metadata: &EntryMetadata) -> (text: String)
    ensures
        text@ == permissions_of(*metadata),
{
    match metadata.mode {
        Some(mode) => perm_str_from_u32(mode),
        None => String::new(),
    }
}

/// The size recorded for the entry that `metadata` describes.
pub fn recorded_size(metadata: &EntryMetadata) -> (size: u64)
    ensures
        size == size_of(*metadata),
{
    match DDiveFileType::from_ftype(metadata.is_symlink, metadata.is_file, metadata.is_dir) {
        DDiveFileType::Directory => 0,
        _ => metadata.size,
    }
}

/// The position of the last separator among `chars`.
fn find_last_separator(chars: &Vec<char>) -> (found: Option<usize>)
    ensures
        match found {
            Some(k) => k < chars@.len() && k == last_separator(chars@),
            None => last_separator(chars@) == -1,
        },
{
    let mut i: usize = chars.len();
    assert(chars@.take(i as int) =~= chars@);
    while i > 0
        invariant
            i <= chars.len(),
            last_separator(chars@) == last_separator(chars@.take(i as int)),
        decreases i,
    {
        if chars[i - 1] == '/' {
            return Some(i - 1);
        }
        assert(chars@.take(i as int).drop_last() =~= chars@.take(i - 1));
        i -= 1;
    }
    None
}

/// What follows the last separator of `path`, as characters.
pub fn file_name_chars(path: &str) -> (name: Vec<char>)
    ensures
        name@ == base_name(path@),
{
    let chars = to_chars(path);
    let n = chars.len();
    let start: usize = match find_last_separator(&chars) {
        Some(k) => k + 1,
        None => 0,
    };
    let mut name: Vec<char> = Vec::new();
    let mut i: usize = start;
    while i < n
        invariant
            start <= i <= n,
            n == chars@.len(),
            name@ == chars@.subrange(start as int, i as int),
        decreases n - i,
    {
        name.push(chars[i]);
        assert(chars@.subrange(start as int, i + 1) =~= chars@.subrange(start as int, i as int).push(
            chars@[i as int],
        ));
        i += 1;
    }
    assert(chars@.subrange(start as int, n as int) =~= chars@.skip(start as int));
    name
}

/// One entry of a layer, with the entries below it.
#[derive(Debug, PartialEq, Eq)]
pub struct FileTreeNode {
    children: Vec<FileTreeNode>,
    data: FileTreeNodeData,
}

impl FileTreeNode {
    /// The node as mathematical values: its data, and its children in order.
    pub closed spec fn model(&self) -> NodeModel
        decreases self,
    {
        NodeModel {
            data: self.data@,
            children: Seq::new(
                self.children@.len(),
                |i: int|
                    if 0 <= i < self.children@.len() {
                        self.children@[i].model()
                    } else {
                        arbitrary()
                    },
            ),
        }
    }

    proof fn lemma_model(&self)
        ensures
            self@.data == self.data@,
            self@.children.len() == self.children@.len(),
            forall|k: int|
                0 <= k < self.children@.len() ==> self@.children[k] == (#[trigger] self.children@[k])@,
    {
    }
}

impl View for FileTreeNode {
    type V = NodeModel;

    closed spec fn view(&self) -> NodeModel {
        self.model()
    }
}

impl Clone for FileTreeNode {
    /// A copy of the node and of all that lies below it.
    fn clone(&self) -> (copy: Self)
        ensures
            copy@ == self@,
        decreases self,
    {
        let mut children: Vec<FileTreeNode> = Vec::new();
        let mut i: usize = 0;
        while i < self.children.len()
            invariant
                i <= self.children.len(),
                children@.len() == i,
                forall|k: int| 0 <= k < i ==> (#[trigger] children@[k])@ == self.children@[k]@,
            decreases self.children.len() - i,
        {
            children.push(self.children[i].clone());
            i += 1;
        }
        let copy = FileTreeNode { children, data: self.data.clone() };
        proof {
            copy.lemma_model();
            self.lemma_model();
            assert(copy@.children =~= self@.children);
        }
        copy
    }
}

impl FileTreeNode {
    /// The node for the entry at `relpath`, a path inside the layer that
    /// starts at the layer's root `/`. It has no children yet.
    pub fn from(relpath: &str, metadata: &EntryMetadata) -> (made: Result<
        FileTreeNode,
        ImageParcingError,
    >)
        ensures
            made matches Ok(node) && node@ == leaf(data_at(relpath@, *metadata)),
    {
        let ftype = DDiveFileType::from_ftype(
            metadata.is_symlink,
            metadata.is_file,
            metadata.is_dir,
        );
        let permissions = permissions_from(metadata);
        let size = recorded_size(metadata);
        let chars = to_chars(relpath);
        let n = chars.len();
        let found = find_last_separator(&chars);
        let start: usize = match found {
            Some(k) => k + 1,
            None => 0,
        };
        assert(base_name(relpath@) =~= relpath@.subrange(start as int, n as int));
        let data = if start == n {
            proof {
                reveal_strlit("/");
                assert("/"@ =~= seq!['/']);
            }
            FileTreeNodeData {
                name: String::from_str("/"),
                ftype,
                fop: FileOp::Add,
                permissions,
                disk_rel_path: String::from_str(relpath),
                vis_rel_path: String::from_str("/"),
                size,
            }
        } else {
            let (name, fop) = parse_name(relpath.substring_char(start, n));
            let vis_rel_path = match found {
                None => join("", name.as_str()),
                Some(k) => {
                    if k == 0 {
                        join("/", name.as_str())
                    } else {
                        assert(relpath@.take(k as int) =~= relpath@.subrange(0, k as int));
                        join(relpath.substring_char(0, k), name.as_str())
                    }
                },
            };
            proof {
                reveal_strlit("/");
                reveal_strlit("");
                assert("/"@ =~= seq!['/']);
                assert(""@ =~= Seq::<char>::empty());
            }
            FileTreeNodeData {
                name,
                ftype,
                fop,
                permissions,
                disk_rel_path: String::from_str(relpath),
                vis_rel_path,
                size,
            }
        };
        let node = FileTreeNode { children: Vec::new(), data };
        proof {
            node.lemma_model();
            assert(node@.children =~= Seq::<NodeModel>::empty());
        }
        Ok(node)
    }

    /// A node with the given data and no children.
    pub fn from_data(data: &FileTreeNodeData) -> (node: FileTreeNode)
        ensures
            node@ == leaf(data@),
    {
        let node = FileTreeNode { children: Vec::new(), data: data.clone() };
        proof {
            node.lemma_model();
            assert(node@.children =~= Seq::<NodeModel>::empty());
        }
        node
    }

    /// A node with the given data and the given children, in their order.
    pub fn with_children(data: FileTreeNodeData, children: Vec<FileTreeNode>) -> (node:
        FileTreeNode)
        ensures
            node@.data == data@,
            node@.children.len() == children@.len(),
            forall|k: int|
                0 <= k < children@.len() ==> node@.children[k] == (#[trigger] children@[k])@,
    {
        let node = FileTreeNode { children, data };
        proof {
            node.lemma_model();
        }
        node
    }

    /// The child at position `i`, where there is one.
    pub fn get_child(&self, i: usize) -> (child: Option<&FileTreeNode>)
        ensures
            match child {
                Some(c) => i < self@.children.len() && c@ == self@.children[i as int],
                None => i >= self@.children.len(),
            },
    {
        proof {
            self.lemma_model();
        }
        if i < self.children.len() {
            Some(&self.children[i])
        } else {
            None
        }
    }

    /// Puts `child` behind the children that the node has.
    pub fn add_child(&mut self, child: FileTreeNode)
        ensures
            final(self)@ == (NodeModel {
                data: old(self)@.data,
                children: old(self)@.children.push(child@),
            }),
    {
        proof {
            self.lemma_model();
        }
        self.children.push(child);
        proof {
            self.lemma_model();
            assert(self@.children =~= old(self)@.children.push(child@));
        }
    }

    /// The visible names of the children, in their order.
    pub fn get_children_names(&self) -> (names: Vec<String>)
        ensures
            names@.len() == self@.children.len(),
            forall|k: int|
                0 <= k < names@.len() ==> (#[trigger] names@[k])@ == self@.children[k].data.name,
    {
        proof {
            self.lemma_model();
        }
        let mut names: Vec<String> = Vec::new();
        let mut i: usize = 0;
        while i < self.children.len()
            invariant
                i <= self.children.len(),
                names@.len() == i,
                self@.children.len() == self.children@.len(),
                forall|k: int|
                    0 <= k < self.children@.len() ==> self@.children[k] == (
                    #[trigger] self.children@[k])@,
                forall|k: int| 0 <= k < i ==> (#[trigger] names@[k])@ == self@.children[k].data.name,
            decreases self.children.len() - i,
        {
            proof {
                self.children@[i as int].lemma_model();
            }
            names.push(self.children[i].data.name.clone());
            i += 1;
        }
        names
    }

    /// The visible paths of the children, in their order.
    pub fn get_children_paths(&self) -> (paths: Vec<String>)
        ensures
            paths@.len() == self@.children.len(),
            forall|k: int|
                0 <= k < paths@.len() ==> (#[trigger] paths@[k])@
                    == self@.children[k].data.vis_rel_path,
    {
        proof {
            self.lemma_model();
        }
        let mut paths: Vec<String> = Vec::new();
        let mut i: usize = 0;
        while i < self.children.len()
            invariant
                i <= self.children.len(),
                paths@.len() == i,
                self@.children.len() == self.children@.len(),
                forall|k: int|
                    0 <= k < self.children@.len() ==> self@.children[k] == (
                    #[trigger] self.children@[k])@,
                forall|k: int|
                    0 <= k < i ==> (#[trigger] paths@[k])@ == self@.children[k].data.vis_rel_path,
            decreases self.children.len() - i,
        {
            proof {
                self.children@[i as int].lemma_model();
            }
            paths.push(self.children[i].data.vis_rel_path.clone());
            i += 1;
        }
        paths
    }

    /// How many children the node has.
    pub fn get_n_children(&self) -> (n: usize)
        ensures
            n == self@.children.len(),
    {
        proof {
            self.lemma_model();
        }
        self.children.len()
    }

    /// The node's data.
    pub fn data(&self) -> (data: &FileTreeNodeData)
        ensures
            data@ == self@.data,
    {
        proof {
            self.lemma_model();
        }
        &self.data
    }

    /// The visible name.
    pub fn name(&self) -> (name: String)
        ensures
            name@ == self@.data.name,
    {
        proof {
            self.lemma_model();
        }
        self.data.name.clone()
    }

    /// What the layer does to the entry.
    pub fn fop(&self) -> (fop: FileOp)
        ensures
            fop == self@.data.fop,
    {
        proof {
            self.lemma_model();
        }
        self.data.fop
    }

    /// The kind of the entry.
    pub fn ftype(&self) -> (ftype: DDiveFileType)
        ensures
            ftype == self@.data.ftype,
    {
        proof {
            self.lemma_model();
        }
        self.data.ftype
    }

    /// The visible path.
    pub fn path(&self) -> (path: String)
        ensures
            path@ == self@.data.vis_rel_path,
    {
        proof {
            self.lemma_model();
        }
        self.data.vis_rel_path.clone()
    }

    /// The path on disk, inside the layer.
    pub fn disk_path(&self) -> (path: String)
        ensures
            path@ == self@.data.disk_rel_path,
    {
        proof {
            self.lemma_model();
        }
        self.data.disk_rel_path.clone()
    }

    /// The permission string.
    pub fn permissions(&self) -> (permissions: String)
        ensures
            permissions@ == self@.data.permissions,
    {
        proof {
            self.lemma_model();
        }
        self.data.permissions.clone()
    }

    /// The recorded size in bytes.
    pub fn size(&self) -> (size: u64)
        ensures
            size == self@.data.size,
    {
        proof {
            self.lemma_model();
        }
        self.data.size
    }
}

/// The models of the nodes that a run of references points at.
pub open spec fn models_of(nodes: Seq<&FileTreeNode>) -> Seq<NodeModel> {
    nodes.map_values(|n: &FileTreeNode| n@)
}

/// A breadth-first walk over a tree: level by level, and within a level in
/// the order of the children.
pub struct BreadthFirstIterator<'a> {
    queue: VecDeque<&'a FileTreeNode>,
}

impl<'a> BreadthFirstIterator<'a> {
    /// The nodes that wait in the queue, in order.
    pub closed spec fn pending(&self) -> Seq<NodeModel> {
        models_of(self.queue@)
    }

    /// The nodes that the walk has still to visit, in order.
    pub open spec fn remaining(&self) -> Seq<NodeModel> {
        level_order(self.pending())
    }

    /// A walk that starts at `root_node`.
    pub fn new(root_node: &'a FileTreeNode) -> (walk: Self)
        ensures
            walk.pending() == seq![root_node@],
    {
        let mut queue: VecDeque<&'a FileTreeNode> = VecDeque::new();
        queue.push_back(root_node);
        assert(models_of(queue@) =~= seq![root_node@]);
        BreadthFirstIterator { queue }
    }

    /// The next node of the walk, where one is left. Its children join the
    /// end of the queue.
    pub fn next(&mut self) -> (visited: Option<&'a FileTreeNode>)
        ensures
            match visited {
                Some(node) => {
                    &&& old(self).pending().len() > 0
                    &&& node@ == old(self).pending()[0]
                    &&& final(self).pending() == old(self).pending().drop_first()
                        + node@.children
                    &&& old(self).remaining().len() > 0
                    &&& node@ == old(self).remaining()[0]
                    &&& final(self).remaining() == old(self).remaining().drop_first()
                },
                None => {
                    &&& old(self).pending().len() == 0
                    &&& old(self).remaining().len() == 0
                    &&& final(self).pending() == old(self).pending()
                },
            },
    {
        let ghost before = self.pending();
        match self.queue.pop_front() {
            Some(node) => {
                proof {
                    node.lemma_model();
                    assert(models_of(self.queue@) =~= before.drop_first());
                }
                let mut i: usize = 0;
                while i < node.children.len()
                    invariant
                        i <= node.children.len(),
                        node@.children.len() == node.children@.len(),
                        forall|k: int|
                            0 <= k < node.children@.len() ==> node@.children[k] == (
                            #[trigger] node.children@[k])@,
                        models_of(self.queue@) == before.drop_first() + node@.children.take(
                            i as int,
                        ),
                    decreases node.children.len() - i,
                {
                    let ghost queued = models_of(self.queue@);
                    self.queue.push_back(&node.children[i]);
                    proof {
                        assert(models_of(self.queue@) =~= queued.push(node@.children[i as int]));
                        assert(node@.children.take(i + 1) =~= node@.children.take(i as int).push(
                            node@.children[i as int],
                        ));
                        assert(queued.push(node@.children[i as int]) =~= before.drop_first()
                            + node@.children.take(i + 1));
                    }
                    i += 1;
                }
                proof {
                    assert(node@.children.take(i as int) =~= node@.children);
                    assert(level_order(before) == seq![before[0]] + level_order(
                        before.drop_first() + before[0].children,
                    ));
                    assert((seq![before[0]] + level_order(
                        before.drop_first() + before[0].children,
                    )).drop_first() =~= level_order(before.drop_first() + before[0].children));
                }
                Some(node)
            },
            None => {
                assert(before.len() == 0);
                None
            },
        }
    }

    /// All the nodes that the walk has still to visit, in order.
    pub fn to_vec(self) -> (nodes: Vec<&'a FileTreeNode>)
        ensures
            models_of(nodes@) == self.remaining(),
    {
        let ghost all = self.remaining();
        let mut walk = self;
        let mut nodes: Vec<&'a FileTreeNode> = Vec::new();
        assert(models_of(nodes@) + walk.remaining() =~= all);
        loop
            invariant
                models_of(nodes@) + walk.remaining() == all,
            ensures
                models_of(nodes@) == all,
            decreases walk.remaining().len(),
        {
            let ghost left = walk.remaining();
            let ghost done = models_of(nodes@);
            match walk.next() {
                Some(node) => {
                    nodes.push(node);
                    proof {
                        assert(models_of(nodes@) =~= done.push(left[0]));
                        assert(done.push(left[0]) + left.drop_first() =~= done + left);
                    }
                },
                None => {
                    assert(done + left =~= done);
                    break ;
                },
            }
        }
        nodes
    }
}

/// The tree of one layer, and the directory it was built from.
#[derive(Debug, PartialEq, Eq)]
pub struct FileTree {
    parent_node: FileTreeNode,
    path_to_parent_node: String,
}

impl View for FileTree {
    type V = NodeModel;

    /// The root node and all that lies below it.
    closed spec fn view(&self) -> NodeModel {
        self.parent_node@
    }
}

impl Clone for FileTree {
    fn clone(&self) -> (copy: Self)
        ensures
            copy@ == self@,
            copy.source_path() == self.source_path(),
    {
        FileTree {
            parent_node: self.parent_node.clone(),
            path_to_parent_node: self.path_to_parent_node.clone(),
        }
    }
}

/// The position of the first of `children` with the visible name `name`,
/// or -1 where none has it.
pub open spec fn first_named(children: Seq<NodeModel>, name: Seq<char>) -> int
    decreases children.len(),
{
    if children.len() == 0 {
        -1
    } else {
        let before = first_named(children.drop_last(), name);
        if before >= 0 {
            before
        } else if children.last().data.name == name {
            children.len() - 1
        } else {
            -1
        }
    }
}

/// `first_named` gives the first position with the name, and -1 only where
/// no position has it.
pub proof fn lemma_first_named(children: Seq<NodeModel>, name: Seq<char>)
    ensures
        -1 <= first_named(children, name) < children.len(),
        first_named(children, name) >= 0 ==> children[first_named(children, name)].data.name
            == name,
        forall|j: int|
            0 <= j < children.len() && (j < first_named(children, name) || first_named(
                children,
                name,
            ) < 0) ==> (#[trigger] children[j]).data.name != name,
    decreases children.len(),
{
    if children.len() > 0 {
        lemma_first_named(children.drop_last(), name);
        assert forall|j: int|
            0 <= j < children.len() && (j < first_named(children, name) || first_named(
                children,
                name,
            ) < 0) implies (#[trigger] children[j]).data.name != name by {
            if j < children.len() - 1 {
                assert(children.drop_last()[j] == children[j]);
            }
        }
    }
}

/// Whether a node's visible name starts with `prefix`.
pub open spec fn has_prefix(prefix: Seq<char>) -> spec_fn(NodeModel) -> bool {
    |n: NodeModel| prefix.is_prefix_of(n.data.name)
}

/// `nodes`, stably sorted by visible name.
pub open spec fn sorted_by_name(nodes: Seq<NodeModel>) -> Seq<NodeModel> {
    arrange(nodes, sorted_order(names_of(nodes)))
}

/// `node` narrowed along `segments`, or `None` where the segments do not
/// lead anywhere. Every segment but the last must be the exact name of a
/// child: of the children only the first with that name stays, narrowed by
/// the segments that follow. For the last segment all children stay whose
/// name starts with it, each with all that lies below it, sorted by name.
pub open spec fn narrowed(node: NodeModel, segments: Seq<Seq<char>>) -> Option<NodeModel>
    decreases segments.len(),
{
    if segments.len() == 0 {
        None
    } else if segments.len() == 1 {
        let kept = node.children.filter(has_prefix(segments[0]));
        if kept.len() == 0 {
            None
        } else {
            Some(NodeModel { data: node.data, children: sorted_by_name(kept) })
        }
    } else {
        let k = first_named(node.children, segments[0]);
        if k < 0 {
            None
        } else {
            match narrowed(node.children[k], segments.drop_first()) {
                Some(below) => Some(NodeModel { data: node.data, children: seq![below] }),
                None => None,
            }
        }
    }
}

/// What filtering the tree `root` by the typed path `filter` gives: the
/// tree itself where the path has no segment; the narrowed tree where the
/// segments lead somewhere; the tree itself and an error where they do not.
pub open spec fn filtered(root: NodeModel, filter: Seq<char>) -> (NodeModel, Option<GUIError>) {
    let segments = path_components(filter);
    if segments.len() == 0 {
        (root, None)
    } else {
        match narrowed(root, segments) {
            Some(tree) => (tree, None),
            None => (root, Some(GUIError::CantFilterTree)),
        }
    }
}

/// Narrowing by a single segment keeps the node as it is, and of its
/// children exactly those whose name starts with the segment, each with
/// all that lies below it, in the order of their names. It leads nowhere
/// only where no child's name starts with the segment.
pub proof fn lemma_last_segment(node: NodeModel, prefix: Seq<char>)
    ensures
        match narrowed(node, seq![prefix]) {
            Some(kept) => {
                &&& kept.data == node.data
                &&& forall|e: NodeModel|
                    kept.children.contains(e) <==> node.children.contains(e) && prefix.is_prefix_of(
                        e.data.name,
                    )
                &&& forall|p: int, q: int|
                    0 <= p < q < kept.children.len() ==> name_le(
                        (#[trigger] kept.children[p]).data.name,
                        (#[trigger] kept.children[q]).data.name,
                    )
            },
            None => forall|j: int|
                0 <= j < node.children.len() ==> !prefix.is_prefix_of(
                    (#[trigger] node.children[j]).data.name,
                ),
        },
{
    let pred = has_prefix(prefix);
    let found = node.children.filter(pred);
    let names = names_of(found);
    let order = sorted_order(names);
    let sorted = sorted_by_name(found);
    lemma_sort_order_stable(names, names.len() as int);
    assert forall|j: int| 0 <= j < node.children.len() && pred(node.children[j]) implies found.len()
        > 0 by {
        node.children.lemma_filter_contains(pred, j);
    }
    if found.len() > 0 {
        assert forall|e: NodeModel| sorted.contains(e) implies node.children.contains(e)
            && prefix.is_prefix_of(e.data.name) by {
            let k = choose|k: int| 0 <= k < sorted.len() && sorted[k] == e;
            assert(found[order[k]] == e);
            node.children.lemma_filter_pred(pred, order[k]);
            assert(found.contains(e));
            node.children.lemma_filter_contains_rev(pred, e);
        }
        assert forall|e: NodeModel|
            node.children.contains(e) && prefix.is_prefix_of(e.data.name) implies sorted.contains(
            e,
        ) by {
            let j = choose|j: int| 0 <= j < node.children.len() && node.children[j] == e;
            node.children.lemma_filter_contains(pred, j);
            let i = choose|i: int| 0 <= i < found.len() && found[i] == e;
            assert(order.contains(i));
            let k = choose|k: int| 0 <= k < order.len() && order[k] == i;
            assert(sorted[k] == e);
        }
        assert forall|p: int, q: int| 0 <= p < q < sorted.len() implies name_le(
            (#[trigger] sorted[p]).data.name,
            (#[trigger] sorted[q]).data.name,
        ) by {
            assert(comes_before(names, order[p], order[q]));
            assert(names[order[p]] == found[order[p]].data.name);
            assert(names[order[q]] == found[order[q]].data.name);
        }
    }
}

/// Narrowing by a segment that others follow keeps the node as it is, and
/// of its children only the first with that very name, narrowed by the
/// segments that follow. It leads nowhere where no child has the name, or
/// where the segments that follow lead nowhere below that child.
pub proof fn lemma_leading_segment(node: NodeModel, segments: Seq<Seq<char>>)
    requires
        segments.len() > 1,
    ensures
        match narrowed(node, segments) {
            Some(kept) => {
                &&& kept.data == node.data
                &&& kept.children.len() == 1
                &&& exists|k: int|
                    {
                        &&& 0 <= k < node.children.len()
                        &&& (#[trigger] node.children[k]).data.name == segments[0]
                        &&& forall|j: int|
                            0 <= j < k ==> (#[trigger] node.children[j]).data.name != segments[0]
                        &&& narrowed(node.children[k], segments.drop_first()) == Some(
                            kept.children[0],
                        )
                    }
            },
            None => forall|k: int|
                {
                    &&& 0 <= k < node.children.len()
                    &&& (#[trigger] node.children[k]).data.name == segments[0]
                    &&& forall|j: int|
                        0 <= j < k ==> (#[trigger] node.children[j]).data.name != segments[0]
                } ==> narrowed(node.children[k], segments.drop_first()) is None,
        },
{
    lemma_first_named(node.children, segments[0]);
    let first = first_named(node.children, segments[0]);
    match narrowed(node, segments) {
        Some(kept) => {
            assert(node.children[first].data.name == segments[0]);
        },
        None => {
            assert forall|k: int|
                {
                    &&& 0 <= k < node.children.len()
                    &&& (#[trigger] node.children[k]).data.name == segments[0]
                    &&& forall|j: int|
                        0 <= j < k ==> (#[trigger] node.children[j]).data.name != segments[0]
                } implies narrowed(node.children[k], segments.drop_first()) is None by {
                if first >= 0 && first != k {
                    if first < k {
                        assert(node.children[first].data.name != segments[0]);
                    }
                }
            }
        },
    }
}

/// A filter without a segment gives the tree back as it is; one whose
/// segments lead nowhere gives it back as it is too, with the error; and
/// no other filter gives an error.
pub proof fn lemma_filter_outcomes(root: NodeModel, filter: Seq<char>)
    ensures
        path_components(filter).len() == 0 ==> filtered(root, filter) == (root, None::<GUIError>),
        filtered(root, filter).1 is Some <==> path_components(filter).len() > 0 && narrowed(
            root,
            path_components(filter),
        ) is None,
        filtered(root, filter).1 is Some ==> filtered(root, filter).0 == root,
        filtered(root, filter).0.data == root.data,
{
    let segments = path_components(filter);
    if segments.len() == 1 {
        assert(segments =~= seq![segments[0]]);
        lemma_last_segment(root, segments[0]);
    } else if segments.len() > 1 {
        lemma_leading_segment(root, segments);
    }
}

/// The visible names of the children of `node`, as characters.
fn child_names(node: &FileTreeNode) -> (names: Vec<Vec<char>>)
    ensures
        views(names@) == names_of(node@.children),
{
    proof {
        node.lemma_model();
    }
    let mut names: Vec<Vec<char>> = Vec::new();
    let mut i: usize = 0;
    assert(views(names@) =~= names_of(node@.children.take(0)));
    while i < node.children.len()
        invariant
            i <= node.children.len(),
            node@.children.len() == node.children@.len(),
            forall|k: int|
                0 <= k < node.children@.len() ==> node@.children[k] == (
                #[trigger] node.children@[k])@,
            views(names@) == names_of(node@.children.take(i as int)),
        decreases node.children.len() - i,
    {
        proof {
            node.children@[i as int].lemma_model();
        }
        let ghost before = views(names@);
        names.push(to_chars(node.children[i].data.name.as_str()));
        proof {
            assert(node@.children.take(i + 1) =~= node@.children.take(i as int).push(
                node@.children[i as int],
            ));
            assert(views(names@) =~= before.push(node@.children[i as int].data.name));
            assert(names_of(node@.children.take(i + 1)) =~= before.push(
                node@.children[i as int].data.name,
            ));
        }
        i += 1;
    }
    assert(node@.children.take(i as int) =~= node@.children);
    names
}

/// The position of the first of the children of `node` named `name`.
fn find_named(node: &FileTreeNode, name: &Vec<char>) -> (found: Option<usize>)
    ensures
        match found {
            Some(k) => k < node@.children.len() && k == first_named(node@.children, name@),
            None => first_named(node@.children, name@) < 0,
        },
{
    let names = child_names(node);
    let ghost children = node@.children;
    let mut i: usize = 0;
    assert(views(names@).len() == names@.len());
    assert(names_of(children).len() == children.len());
    while i < names.len()
        invariant
            i <= names.len(),
            names@.len() == children.len(),
            children == node@.children,
            views(names@) == names_of(children),
            forall|j: int| 0 <= j < i ==> (#[trigger] children[j]).data.name != name@,
        decreases names.len() - i,
    {
        assert(views(names@)[i as int] == names@[i as int]@);
        assert(names_of(children)[i as int] == children[i as int].data.name);
        if same_chars(&names[i], name) {
            proof {
                lemma_first_named(children, name@);
            }
            return Some(i);
        }
        i += 1;
    }
    proof {
        lemma_first_named(children, name@);
    }
    None
}

impl FileTree {
    /// The directory that the tree was built from.
    pub closed spec fn source_path(&self) -> Seq<char> {
        self.path_to_parent_node@
    }

    /// The tree with the root `node`, built from the directory `/`.
    pub fn new_from_node(node: FileTreeNode) -> (tree: FileTree)
        ensures
            tree@ == node@,
            tree.source_path() == seq!['/'],
    {
        proof {
            reveal_strlit("/");
            assert("/"@ =~= seq!['/']);
        }
        FileTree { parent_node: node, path_to_parent_node: String::from_str("/") }
    }

    /// The tree with the root `node`, built from the directory `source`.
    pub fn with_source(node: FileTreeNode, source: String) -> (tree: FileTree)
        ensures
            tree@ == node@,
            tree.source_path() == source@,
    {
        FileTree { parent_node: node, path_to_parent_node: source }
    }

    /// The root node.
    pub fn root(&self) -> (root: &FileTreeNode)
        ensures
            root@ == self@,
    {
        &self.parent_node
    }

    /// The directory that the tree was built from.
    pub fn source(&self) -> (source: &String)
        ensures
            source@ == self.source_path(),
    {
        &self.path_to_parent_node
    }

    /// A breadth-first walk over the tree, from the root.
    pub fn iter(&self) -> (walk: BreadthFirstIterator<'_>)
        ensures
            walk.pending() == seq![self@],
            walk.remaining() == level_order(seq![self@]),
    {
        BreadthFirstIterator::new(&self.parent_node)
    }

    /// The first node in breadth-first order with the visible name `name`.
    pub fn get_node_by_name(&self, name: &str) -> (found: Option<&FileTreeNode>)
        ensures
            match found {
                Some(node) => exists|i: int|
                    {
                        &&& 0 <= i < level_order(seq![self@]).len()
                        &&& #[trigger] level_order(seq![self@])[i] == node@
                        &&& node@.data.name == name@
                        &&& forall|j: int|
                            0 <= j < i ==> (#[trigger] level_order(seq![self@])[j]).data.name
                                != name@
                    },
                None => forall|j: int|
                    0 <= j < level_order(seq![self@]).len() ==> (#[trigger] level_order(
                        seq![self@],
                    )[j]).data.name != name@,
            },
    {
        let target = to_chars(name);
        let ghost all = level_order(seq![self@]);
        let ghost mut seen: int = 0;
        let mut walk = self.iter();
        assert(all.skip(0) =~= all);
        loop
            invariant
                0 <= seen <= all.len(),
                all == level_order(seq![self@]),
                walk.remaining() == all.skip(seen),
                target@ == name@,
                forall|j: int| 0 <= j < seen ==> (#[trigger] all[j]).data.name != name@,
            decreases all.len() - seen,
        {
            match walk.next() {
                Some(node) => {
                    proof {
                        node.lemma_model();
                        assert(all.skip(seen)[0] == all[seen]);
                        assert(all.skip(seen).drop_first() =~= all.skip(seen + 1));
                    }
                    let chars = to_chars(node.data.name.as_str());
                    if same_chars(&chars, &target) {
                        return Some(node);
                    }
                    proof {
                        seen = seen + 1;
                    }
                },
                None => {
                    return None;
                },
            }
        }
    }
}

/// `node` with, of its children, those whose visible name starts with
/// `prefix`, sorted by name; `None` where no child has such a name.
fn narrow_last(node: &FileTreeNode, prefix: &Vec<char>) -> (made: Option<FileTreeNode>)
    ensures
        match made {
            Some(kept) => narrowed(node@, seq![prefix@]) == Some(kept@),
            None => narrowed(node@, seq![prefix@]) is None,
        },
{
    proof {
        node.lemma_model();
    }
    let names = child_names(node);
    let ghost children = node@.children;
    let ghost pred = has_prefix(prefix@);
    let mut matched: Vec<&FileTreeNode> = Vec::new();
    let mut matched_names: Vec<Vec<char>> = Vec::new();
    let mut i: usize = 0;
    proof {
        reveal(Seq::filter);
        assert(children.take(0).filter(pred) =~= Seq::<NodeModel>::empty());
        assert(models_of(matched@) =~= Seq::<NodeModel>::empty());
        assert(views(matched_names@) =~= names_of(models_of(matched@)));
        assert(views(names@).len() == names@.len());
        assert(names_of(children).len() == children.len());
    }
    while i < node.children.len()
        invariant
            i <= node.children.len(),
            names@.len() == children.len(),
            children == node@.children,
            pred == has_prefix(prefix@),
            children.len() == node.children@.len(),
            forall|k: int|
                0 <= k < node.children@.len() ==> children[k] == (#[trigger] node.children@[k])@,
            views(names@) == names_of(children),
            models_of(matched@) == children.take(i as int).filter(pred),
            views(matched_names@) == names_of(models_of(matched@)),
        decreases node.children.len() - i,
    {
        proof {
            reveal(Seq::filter);
            assert(children.take(i + 1).drop_last() =~= children.take(i as int));
            assert(children.take(i + 1).last() == children[i as int]);
            assert(views(names@)[i as int] == names@[i as int]@);
            assert(names_of(children)[i as int] == children[i as int].data.name);
        }
        if starts_with(&names[i], prefix) {
            let ghost before = models_of(matched@);
            let ghost before_names = views(matched_names@);
            matched.push(&node.children[i]);
            matched_names.push(to_chars(node.children[i].data.name.as_str()));
            proof {
                node.children@[i as int].lemma_model();
                assert(models_of(matched@) =~= before.push(children[i as int]));
                assert(views(matched_names@) =~= before_names.push(children[i as int].data.name));
                assert(names_of(before.push(children[i as int])) =~= before_names.push(
                    children[i as int].data.name,
                ));
            }
        }
        i += 1;
    }
    assert(children.take(i as int) =~= children);
    let ghost kept = models_of(matched@);
    assert(kept.len() == matched@.len());
    if matched.len() == 0 {
        return None;
    }
    let order = stable_order(&matched_names);
    let ghost positions = as_ints(order@);
    assert(views(matched_names@).len() == matched_names@.len());
    assert(names_of(kept).len() == kept.len());
    let mut kids: Vec<FileTreeNode> = Vec::new();
    let mut k: usize = 0;
    while k < order.len()
        invariant
            k <= order.len(),
            positions == as_ints(order@),
            positions == sorted_order(names_of(kept)),
            kept == models_of(matched@),
            order@.len() == matched@.len(),
            forall|j: int| 0 <= j < positions.len() ==> 0 <= #[trigger] positions[j] < matched@.len(),
            kids@.len() == k,
            forall|j: int| 0 <= j < k ==> (#[trigger] kids@[j])@ == kept[positions[j]],
        decreases order.len() - k,
    {
        assert(positions[k as int] == order@[k as int] as int);
        let at = order[k];
        kids.push(matched[at].clone());
        k += 1;
    }
    let made = FileTreeNode::with_children(node.data.clone(), kids);
    proof {
        assert(sorted_by_name(kept).len() == positions.len());
        assert forall|j: int| 0 <= j < made@.children.len() implies made@.children[j]
            == sorted_by_name(kept)[j] by {
            assert(made@.children[j] == kids@[j]@);
        }
        assert(made@.children =~= sorted_by_name(kept));
    }
    Some(made)
}

impl FileTree {
    /// The tree narrowed to what the typed path `filter` leads to. The tree
    /// itself stays as it is: the result is a tree of its own, and where
    /// the path matches nothing, a copy of the whole tree with an error.
    pub fn filter_tree_full_path(&self, filter: &str) -> (result: (FileTree, Option<GUIError>))
        ensures
            result.0@ == filtered(self@, filter@).0,
            result.1 == filtered(self@, filter@).1,
            result.0.source_path() == self.source_path(),
    {
        let segments = split_path(filter);
        let ghost segs = views(segments@);
        assert(segs.len() == segments@.len());
        if segments.len() == 0 {
            return (self.clone(), None);
        }
        let last: usize = segments.len() - 1;
        let mut chain: Vec<&FileTreeNode> = Vec::new();
        chain.push(&self.parent_node);
        let mut d: usize = 0;
        assert(segs.skip(0) =~= segs);
        while d < last
            invariant
                d <= last,
                last == segments@.len() - 1,
                segs == views(segments@),
                segs == path_components(filter@),
                segs.len() == segments@.len(),
                chain@.len() == d + 1,
                chain@[0]@ == self@,
                forall|j: int|
                    0 <= j < d ==> {
                        &&& first_named((#[trigger] chain@[j])@.children, segs[j]) >= 0
                        &&& chain@[j + 1]@ == chain@[j]@.children[first_named(
                            chain@[j]@.children,
                            segs[j],
                        )]
                    },
                narrowed(chain@[d as int]@, segs.skip(d as int)) is None ==> narrowed(
                    self@,
                    segs,
                ) is None,
            decreases last - d,
        {
            let cursor = chain[d];
            proof {
                assert(segs[d as int] == segments@[d as int]@);
                assert(segs.skip(d as int)[0] == segs[d as int]);
                assert(segs.skip(d as int).drop_first() =~= segs.skip(d + 1));
                cursor.lemma_model();
            }
            match find_named(cursor, &segments[d]) {
                None => {
                    proof {
                        assert(segs.skip(d as int).len() >= 2);
                        assert(narrowed(cursor@, segs.skip(d as int)) is None);
                    }
                    return (self.clone(), Some(GUIError::CantFilterTree));
                },
                Some(k) => {
                    let ghost before = chain@;
                    chain.push(&cursor.children[k]);
                    proof {
                        assert forall|j: int| 0 <= j < d + 1 implies {
                            &&& first_named((#[trigger] chain@[j])@.children, segs[j]) >= 0
                            &&& chain@[j + 1]@ == chain@[j]@.children[first_named(
                                chain@[j]@.children,
                                segs[j],
                            )]
                        } by {
                            assert(chain@[j] == before[j]);
                            if j < d {
                                assert(chain@[j + 1] == before[j + 1]);
                            }
                        }
                    }
                    d += 1;
                },
            }
        }
        let cursor = chain[last];
        proof {
            assert(segs[last as int] == segments@[last as int]@);
            assert(segs.skip(last as int) =~= seq![segs[last as int]]);
        }
        match narrow_last(cursor, &segments[last]) {
            None => (self.clone(), Some(GUIError::CantFilterTree)),
            Some(bottom) => {
                let mut current = bottom;
                let mut j: usize = last;
                while j > 0
                    invariant
                        j <= last,
                        last == segments@.len() - 1,
                        segs == views(segments@),
                        segs.len() == segments@.len(),
                        chain@.len() == last + 1,
                        forall|j: int|
                            0 <= j < last ==> {
                                &&& first_named((#[trigger] chain@[j])@.children, segs[j]) >= 0
                                &&& chain@[j + 1]@ == chain@[j]@.children[first_named(
                                    chain@[j]@.children,
                                    segs[j],
                                )]
                            },
                        narrowed(chain@[j as int]@, segs.skip(j as int)) == Some(current@),
                    decreases j,
                {
                    j -= 1;
                    let above = chain[j];
                    let ghost below = current@;
                    let mut kids: Vec<FileTreeNode> = Vec::new();
                    kids.push(current);
                    assert(kids@.len() == 1 && kids@[0]@ == below);
                    current = FileTreeNode::with_children(above.data.clone(), kids);
                    proof {
                        above.lemma_model();
                        assert(current@.children =~= seq![below]);
                        assert(segs.skip(j as int)[0] == segs[j as int]);
                        assert(segs.skip(j as int).drop_first() =~= segs.skip(j + 1));
                        assert(chain@[j + 1]@ == chain@[j as int]@.children[first_named(
                            chain@[j as int]@.children,
                            segs[j as int],
                        )]);
                    }
                }
                proof {
                    assert(segs.skip(0) =~= segs);
                }
                (
                    FileTree {
                        parent_node: current,
                        path_to_parent_node: self.path_to_parent_node.clone(),
                    },
                    None,
                )
            },
        }
    }
}

} // verus!
