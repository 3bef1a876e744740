//! The kinds of entry in a layer, what a layer does to them, and the bare
//! form of a layer's tree: nodes that know their path, kind and operation.

use crate::file_tree::{
    base_name, file_name_chars, first_named, forest_count, has_prefix, last_separator,
    lemma_first_named, lemma_forest_count_concat, lemma_forest_count_first, lemma_last_separator,
    level_order, name_op, names_of, narrowed, parent_path, parse_name, sorted_by_name,
    visible_name, DataModel, EntryMetadata, NodeModel,
};
use crate::sorting::{as_ints, sorted_order, stable_order};
use crate::text::{path_components, same_chars, split_path, starts_with, to_chars, views};
use std::collections::VecDeque;
use vstd::prelude::*;
use vstd::string::{StrSliceExecFns, StringExecFns};

verus! {

/// What kind of entry a path in a layer is. `Badfile` stands for all that is
/// neither a directory, a regular file nor a symbolic link.
#[derive(Clone, Copy, Debug, PartialEq, Eq, Hash, Structural)]
pub enum DDiveFileType {
    Directory,
    File,
    Symlink,
    Badfile,
}

/// What a layer does to a path: it adds the entry, or it removes an entry
/// that a lower layer held.
#[derive(Clone, Copy, Debug, PartialEq, Eq, Hash, Structural)]
pub enum FileOp {
    Add,
    Remove,
}

impl DDiveFileType {
    /// The kind of an entry whose metadata answers the three questions as
    /// given. A symbolic link is told first: one that points at a directory
    /// must not pass for a directory, or a walk would follow it out of the
    /// layer.
    pub open spec fn classify(is_symlink: bool, is_file: bool, is_dir: bool) -> DDiveFileType {
        if is_symlink {
            DDiveFileType::Symlink
        } else if is_file {
            DDiveFileType::File
        } else if is_dir {
            DDiveFileType::Directory
        } else {
            DDiveFileType::Badfile
        }
    }

    /// The kind of an entry whose metadata answers the three questions as given.
    pub fn from_ftype(is_symlink: bool, is_file: bool, is_dir: bool) -> (kind: DDiveFileType)
        ensures
            kind == Self::classify(is_symlink, is_file, is_dir),
    {
        if is_symlink {
            DDiveFileType::Symlink
        } else if is_file {
            DDiveFileType::File
        } else if is_dir {
            DDiveFileType::Directory
        } else {
            DDiveFileType::Badfile
        }
    }

    /// The kind's name.
    pub open spec fn label_text(self) -> Seq<char> {
        match self {
            DDiveFileType::Directory => "Directory"@,
            DDiveFileType::File => "File"@,
            DDiveFileType::Symlink => "Symlink"@,
            DDiveFileType::Badfile => "Badfile"@,
        }
    }

    /// The kind's name.
    pub fn label(&self) -> (text: &'static str)
        ensures
            text@ == self.label_text(),
    {
        match self {
            DDiveFileType::Directory => "Directory",
            DDiveFileType::File => "File",
            DDiveFileType::Symlink => "Symlink",
            DDiveFileType::Badfile => "Badfile",
        }
    }
}

impl FileOp {
    /// The operation's name.
    pub open spec fn label_text(self) -> Seq<char> {
        match self {
            FileOp::Add => "Add"@,
            FileOp::Remove => "Remove"@,
        }
    }

    /// The operation's name.
    pub fn label(&self) -> (text: &'static str)
        ensures
            text@ == self.label_text(),
    {
        match self {
            FileOp::Add => "Add",
            FileOp::Remove => "Remove",
        }
    }

    /// The operation's name, as an owned string.
    pub fn to_string(&self) -> (text: String)
        ensures
            text@ == self.label_text(),
    {
        String::from_str(self.label())
    }
}

/// The data of a node of which only the path, the kind and the operation
/// are known. Its name is what follows the last separator of the path.
pub open spec fn bare_data(path: Seq<char>, ftype: DDiveFileType, fop: FileOp) -> DataModel {
    DataModel {
        name: base_name(path),
        ftype,
        fop,
        permissions: Seq::empty(),
        disk_rel_path: path,
        vis_rel_path: path,
        size: 0,
    }
}

/// An entry of a layer in its bare form: the path under which it is shown,
/// its kind, what the layer does to it, and the entries below it.
#[derive(Debug, PartialEq, Eq, Hash)]
pub struct TreeNode {
    path: String,
    ftype: DDiveFileType,
    fop: FileOp,
    kids: Vec<TreeNode>,
}

impl TreeNode {
    /// The node as mathematical values.
    pub closed spec fn model(&self) -> NodeModel
        decreases self,
    {
        NodeModel {
            data: bare_data(self.path@, self.ftype, self.fop),
            children: Seq::new(
                self.kids@.len(),
                |i: int|
                    if 0 <= i < self.kids@.len() {
                        self.kids@[i].model()
                    } else {
                        arbitrary()
                    },
            ),
        }
    }

    proof fn lemma_model(&self)
        ensures
            self@.data == bare_data(self.path@, self.ftype, self.fop),
            self@.children.len() == self.kids@.len(),
            forall|k: int| 0 <= k < self.kids@.len() ==> self@.children[k] == (#[trigger] self.kids@[k])@,
    {
    }
}

impl View for TreeNode {
    type V = NodeModel;

    closed spec fn view(&self) -> NodeModel {
        self.model()
    }
}

impl Clone for TreeNode {
    /// A copy of the node and of all that lies below it.
    fn clone(&self) -> (copy: Self)
        ensures
            copy@ == self@,
        decreases self,
    {
        let mut kids: Vec<TreeNode> = Vec::new();
        let mut i: usize = 0;
        while i < self.kids.len()
            invariant
                i <= self.kids.len(),
                kids@.len() == i,
                forall|k: int| 0 <= k < i ==> (#[trigger] kids@[k])@ == self.kids@[k]@,
            decreases self.kids.len() - i,
        {
            kids.push(self.kids[i].clone());
            i += 1;
        }
        let copy = TreeNode { path: self.path.clone(), ftype: self.ftype, fop: self.fop, kids };
        proof {
            copy.lemma_model();
            self.lemma_model();
            assert(copy@.children =~= self@.children);
        }
        copy
    }
}

/// The models of the nodes that a run of references points at.
pub open spec fn bare_models(nodes: Seq<&TreeNode>) -> Seq<NodeModel> {
    nodes.map_values(|n: &TreeNode| n@)
}

/// The indentation of a line at the given depth: two spaces for each level.
pub open spec fn indent_text(depth: nat) -> Seq<char>
    decreases depth,
{
    if depth == 0 {
        Seq::empty()
    } else {
        indent_text((depth - 1) as nat) + seq![' ', ' ']
    }
}

/// The line that shows one node: kind, path and operation.
pub open spec fn line_text(data: DataModel, depth: nat) -> Seq<char> {
    indent_text(depth) + data.ftype.label_text() + seq!['<'] + data.vis_rel_path + seq!['>', ':', ' ']
        + data.fop.label_text() + seq!['\n']
}

/// The lines that show a tree: the node's own line, then the lines of its
/// children, one level deeper, in their order.
pub open spec fn rendered(node: NodeModel, depth: nat) -> Seq<char>
    decreases node,
{
    line_text(node.data, depth) + rendered_all(node.children, depth + 1)
}

/// The lines that show a run of trees, one after the other.
pub open spec fn rendered_all(nodes: Seq<NodeModel>, depth: nat) -> Seq<char>
    decreases nodes,
{
    if nodes.len() == 0 {
        Seq::empty()
    } else {
        rendered_all(nodes.drop_last(), depth) + rendered(nodes.last(), depth)
    }
}

/// What `prettyfy` makes of a tree: its only child, shown under `/` where
/// the child has no path; the tree itself where it has no child or several.
pub open spec fn prettified(node: NodeModel) -> NodeModel {
    if node.children.len() == 1 {
        let kid = node.children[0];
        if kid.data.vis_rel_path.len() == 0 {
            NodeModel {
                data: bare_data(seq!['/'], kid.data.ftype, kid.data.fop),
                children: kid.children,
            }
        } else {
            kid
        }
    } else {
        node
    }
}

/// The path under which the entry at `rel_path`, a path relative to the
/// layer's directory, is shown: the directory part between two separators,
/// then the visible name.
pub open spec fn shown_path(rel_path: Seq<char>) -> Seq<char> {
    let dir = parent_path(rel_path);
    let rooted = if dir.len() > 0 && dir[0] == '/' {
        dir
    } else {
        seq!['/'] + dir
    };
    let closed = if rooted.last() == '/' {
        rooted
    } else {
        rooted + seq!['/']
    };
    closed + visible_name(base_name(rel_path))
}

/// The visible names of the children of `node`, as characters.
fn kid_names(node: &TreeNode) -> (names: Vec<Vec<char>>)
    ensures
        views(names@) == names_of(node@.children),
{
    proof {
        node.lemma_model();
    }
    let mut names: Vec<Vec<char>> = Vec::new();
    let mut i: usize = 0;
    assert(views(names@) =~= names_of(node@.children.take(0)));
    while i < node.kids.len()
        invariant
            i <= node.kids.len(),
            node@.children.len() == node.kids@.len(),
            forall|k: int|
                0 <= k < node.kids@.len() ==> node@.children[k] == (
                #[trigger] node.kids@[k])@,
            views(names@) == names_of(node@.children.take(i as int)),
        decreases node.kids.len() - i,
    {
        proof {
            node.kids@[i as int].lemma_model();
        }
        let ghost before = views(names@);
        names.push(file_name_chars(node.kids[i].path.as_str()));
        proof {
            assert(node@.children.take(i + 1) =~= node@.children.take(i as int).push(
                node@.children[i as int],
            ));
            assert(views(names@) =~= before.push(node@.children[i as int].data.name));
            assert(names_of(node@.children.take(i + 1)) =~= before.push(
                node@.children[i as int].data.name,
            ));
        }
        i += 1;
    }
    assert(node@.children.take(i as int) =~= node@.children);
    names
}

/// The position of the first of the children of `node` named `name`.
fn find_kid(node: &TreeNode, name: &Vec<char>) -> (found: Option<usize>)
    ensures
        match found {
            Some(k) => k < node@.children.len() && k == first_named(node@.children, name@),
            None => first_named(node@.children, name@) < 0,
        },
{
    let names = kid_names(node);
    let ghost children = node@.children;
    let mut i: usize = 0;
    assert(views(names@).len() == names@.len());
    assert(names_of(children).len() == children.len());
    while i < names.len()
        invariant
            i <= names.len(),
            names@.len() == children.len(),
            children == node@.children,
            views(names@) == names_of(children),
            forall|j: int| 0 <= j < i ==> (#[trigger] children[j]).data.name != name@,
        decreases names.len() - i,
    {
        assert(views(names@)[i as int] == names@[i as int]@);
        assert(names_of(children)[i as int] == children[i as int].data.name);
        if same_chars(&names[i], name) {
            proof {
                lemma_first_named(children, name@);
            }
            return Some(i);
        }
        i += 1;
    }
    proof {
        lemma_first_named(children, name@);
    }
    None
}

/// `node` with, of its children, those whose name starts with `prefix`,
/// sorted by name; `None` where no child has such a name.
fn narrow_kids(node: &TreeNode, prefix: &Vec<char>) -> (made: Option<TreeNode>)
    ensures
        match made {
            Some(kept) => narrowed(node@, seq![prefix@]) == Some(kept@),
            None => narrowed(node@, seq![prefix@]) is None,
        },
{
    proof {
        node.lemma_model();
    }
    let names = kid_names(node);
    let ghost children = node@.children;
    let ghost pred = has_prefix(prefix@);
    let mut matched: Vec<&TreeNode> = Vec::new();
    let mut matched_names: Vec<Vec<char>> = Vec::new();
    let mut i: usize = 0;
    proof {
        reveal(Seq::filter);
        assert(children.take(0).filter(pred) =~= Seq::<NodeModel>::empty());
        assert(bare_models(matched@) =~= Seq::<NodeModel>::empty());
        assert(views(matched_names@) =~= names_of(bare_models(matched@)));
        assert(views(names@).len() == names@.len());
        assert(names_of(children).len() == children.len());
    }
    while i < node.kids.len()
        invariant
            i <= node.kids.len(),
            names@.len() == children.len(),
            children == node@.children,
            pred == has_prefix(prefix@),
            children.len() == node.kids@.len(),
            forall|k: int|
                0 <= k < node.kids@.len() ==> children[k] == (#[trigger] node.kids@[k])@,
            views(names@) == names_of(children),
            bare_models(matched@) == children.take(i as int).filter(pred),
            views(matched_names@) == names_of(bare_models(matched@)),
        decreases node.kids.len() - i,
    {
        proof {
            reveal(Seq::filter);
            assert(children.take(i + 1).drop_last() =~= children.take(i as int));
            assert(children.take(i + 1).last() == children[i as int]);
            assert(views(names@)[i as int] == names@[i as int]@);
            assert(names_of(children)[i as int] == children[i as int].data.name);
        }
        if starts_with(&names[i], prefix) {
            let ghost before = bare_models(matched@);
            let ghost before_names = views(matched_names@);
            matched.push(&node.kids[i]);
            matched_names.push(file_name_chars(node.kids[i].path.as_str()));
            proof {
                node.kids@[i as int].lemma_model();
                assert(bare_models(matched@) =~= before.push(children[i as int]));
                assert(views(matched_names@) =~= before_names.push(children[i as int].data.name));
                assert(names_of(before.push(children[i as int])) =~= before_names.push(
                    children[i as int].data.name,
                ));
            }
        }
        i += 1;
    }
    assert(children.take(i as int) =~= children);
    let ghost kept = bare_models(matched@);
    assert(kept.len() == matched@.len());
    if matched.len() == 0 {
        return None;
    }
    let order = stable_order(&matched_names);
    let ghost positions = as_ints(order@);
    assert(views(matched_names@).len() == matched_names@.len());
    assert(names_of(kept).len() == kept.len());
    let mut kids: Vec<TreeNode> = Vec::new();
    let mut k: usize = 0;
    while k < order.len()
        invariant
            k <= order.len(),
            positions == as_ints(order@),
            positions == sorted_order(names_of(kept)),
            kept == bare_models(matched@),
            order@.len() == matched@.len(),
            forall|j: int| 0 <= j < positions.len() ==> 0 <= #[trigger] positions[j] < matched@.len(),
            kids@.len() == k,
            forall|j: int| 0 <= j < k ==> (#[trigger] kids@[j])@ == kept[positions[j]],
        decreases order.len() - k,
    {
        assert(positions[k as int] == order@[k as int] as int);
        let at = order[k];
        kids.push(matched[at].clone());
        k += 1;
    }
    let made = TreeNode::assemble(node.path.clone(), node.ftype, node.fop, kids);
    proof {
        assert(sorted_by_name(kept).len() == positions.len());
        assert forall|j: int| 0 <= j < made@.children.len() implies made@.children[j]
            == sorted_by_name(kept)[j] by {
            assert(made@.children[j] == kids@[j]@);
        }
        assert(made@.children =~= sorted_by_name(kept));
    }
    Some(made)
}

impl TreeNode {
    fn assemble(path: String, ftype: DDiveFileType, fop: FileOp, kids: Vec<TreeNode>) -> (node:
        TreeNode)
        ensures
            node@.data == bare_data(path@, ftype, fop),
            node@.children.len() == kids@.len(),
            forall|k: int| 0 <= k < kids@.len() ==> node@.children[k] == (#[trigger] kids@[k])@,
    {
        let node = TreeNode { path, ftype, fop, kids };
        proof {
            node.lemma_model();
        }
        node
    }

    /// A node without children.
    pub fn new(ftype: &DDiveFileType, fop: &FileOp, path: &str) -> (node: TreeNode)
        ensures
            node@ == (NodeModel { data: bare_data(path@, *ftype, *fop), children: Seq::empty() }),
    {
        let node = TreeNode {
            path: String::from_str(path),
            ftype: *ftype,
            fop: *fop,
            kids: Vec::new(),
        };
        proof {
            node.lemma_model();
            assert(node@.children =~= Seq::<NodeModel>::empty());
        }
        node
    }

    /// The node for the entry at `rel_path`, a path relative to the layer's
    /// directory: shown under `shown_path`, removed where its name on disk
    /// carries the marker.
    pub fn for_entry(rel_path: &str, ftype: &DDiveFileType) -> (node: TreeNode)
        ensures
            node@ == (NodeModel {
                data: bare_data(shown_path(rel_path@), *ftype, name_op(base_name(rel_path@))),
                children: Seq::empty(),
            }),
    {
        let chars = to_chars(rel_path);
        let raw = file_name_chars(rel_path);
        let n = chars.len();
        proof {
            lemma_last_separator(rel_path@);
        }
        let cut: usize = n - raw.len();
        assert(cut == last_separator(rel_path@) + 1);
        assert(base_name(rel_path@) =~= rel_path@.subrange(cut as int, n as int));
        let (name, fop) = parse_name(rel_path.substring_char(cut, n));
        proof {
            reveal_strlit("/");
            reveal_strlit("");
            assert("/"@ =~= seq!['/']);
            assert(""@ =~= Seq::<char>::empty());
        }
        // the directory part: what stands before the last separator
        let dir: String = if cut == 0 {
            String::from_str("")
        } else if cut == 1 {
            String::from_str("/")
        } else {
            assert(rel_path@.take(cut - 1) =~= rel_path@.subrange(0, cut - 1));
            String::from_str(rel_path.substring_char(0, cut - 1))
        };
        assert(dir@ == parent_path(rel_path@));
        let dir_chars = to_chars(dir.as_str());
        let rooted: String = if dir_chars.len() > 0 && dir_chars[0] == '/' {
            dir
        } else {
            String::from_str("/").concat(dir.as_str())
        };
        let rooted_chars = to_chars(rooted.as_str());
        let closed: String = if rooted_chars[rooted_chars.len() - 1] == '/' {
            rooted
        } else {
            rooted.concat("/")
        };
        let path = closed.concat(name.as_str());
        let node = TreeNode { path, ftype: *ftype, fop, kids: Vec::new() };
        proof {
            node.lemma_model();
            assert(node@.children =~= Seq::<NodeModel>::empty());
        }
        node
    }

    /// The children, in their order.
    pub fn kids(&self) -> (kids: Vec<&TreeNode>)
        ensures
            bare_models(kids@) == self@.children,
    {
        proof {
            self.lemma_model();
        }
        let mut kids: Vec<&TreeNode> = Vec::new();
        let mut i: usize = 0;
        while i < self.kids.len()
            invariant
                i <= self.kids.len(),
                kids@.len() == i,
                forall|k: int| 0 <= k < i ==> (#[trigger] kids@[k])@ == self.kids@[k]@,
            decreases self.kids.len() - i,
        {
            kids.push(&self.kids[i]);
            i += 1;
        }
        assert(bare_models(kids@) =~= self@.children);
        kids
    }

    /// The only child of the node, under the path `/` where it has none;
    /// the node itself where it has no child or several.
    pub fn prettyfy(self) -> (node: TreeNode)
        ensures
            node@ == prettified(self@),
    {
        proof {
            self.lemma_model();
        }
        if self.kids.len() == 1 {
            let mut this = self;
            match this.kids.pop() {
                Some(kid) => {
                    proof {
                        kid.lemma_model();
                    }
                    if kid.path.as_str().is_empty() {
                        proof {
                            reveal_strlit("/");
                            assert("/"@ =~= seq!['/']);
                        }
                        let TreeNode { path: _, ftype, fop, kids } = kid;
                        let node = TreeNode { path: String::from_str("/"), ftype, fop, kids };
                        proof {
                            node.lemma_model();
                            assert(node@.children =~= prettified(self@).children);
                        }
                        node
                    } else {
                        kid
                    }
                },
                None => this,
            }
        } else {
            self
        }
    }

    /// The path under which the entry is shown.
    pub fn path(&self) -> (path: &String)
        ensures
            path@ == self@.data.vis_rel_path,
    {
        proof {
            self.lemma_model();
        }
        &self.path
    }

    /// The kind of the entry.
    pub fn ftype(&self) -> (ftype: &DDiveFileType)
        ensures
            *ftype == self@.data.ftype,
    {
        proof {
            self.lemma_model();
        }
        &self.ftype
    }

    /// What the layer does to the entry.
    pub fn fop(&self) -> (fop: &FileOp)
        ensures
            *fop == self@.data.fop,
    {
        proof {
            self.lemma_model();
        }
        &self.fop
    }

    /// Whether the node has no children.
    pub fn is_leaf(&self) -> (leaf: bool)
        ensures
            leaf == (self@.children.len() == 0),
    {
        proof {
            self.lemma_model();
        }
        self.kids.len() == 0
    }

    /// The nodes of the tree breadth first: level by level, and within a
    /// level in the order of the children.
    pub fn breadth_first(&self) -> (nodes: Vec<&TreeNode>)
        ensures
            bare_models(nodes@) == level_order(seq![self@]),
    {
        let mut nodes: Vec<&TreeNode> = Vec::new();
        let mut queue: VecDeque<&TreeNode> = VecDeque::new();
        queue.push_back(self);
        proof {
            assert(bare_models(queue@) =~= seq![self@]);
            assert(bare_models(nodes@) + level_order(bare_models(queue@)) =~= level_order(
                seq![self@],
            ));
        }
        while queue.len() > 0
            invariant
                bare_models(nodes@) + level_order(bare_models(queue@)) == level_order(seq![self@]),
            decreases forest_count(bare_models(queue@)),
        {
            let ghost before = bare_models(queue@);
            let ghost done = bare_models(nodes@);
            match queue.pop_front() {
                Some(node) => {
                    proof {
                        node.lemma_model();
                        assert(bare_models(queue@) =~= before.drop_first());
                    }
                    let mut i: usize = 0;
                    while i < node.kids.len()
                        invariant
                            i <= node.kids.len(),
                            node@.children.len() == node.kids@.len(),
                            forall|k: int|
                                0 <= k < node.kids@.len() ==> node@.children[k] == (
                                #[trigger] node.kids@[k])@,
                            bare_models(queue@) == before.drop_first() + node@.children.take(
                                i as int,
                            ),
                        decreases node.kids.len() - i,
                    {
                        let ghost queued = bare_models(queue@);
                        queue.push_back(&node.kids[i]);
                        proof {
                            assert(bare_models(queue@) =~= queued.push(node@.children[i as int]));
                            assert(node@.children.take(i + 1) =~= node@.children.take(
                                i as int,
                            ).push(node@.children[i as int]));
                            assert(queued.push(node@.children[i as int]) =~= before.drop_first()
                                + node@.children.take(i + 1));
                        }
                        i += 1;
                    }
                    nodes.push(node);
                    proof {
                        assert(node@.children.take(i as int) =~= node@.children);
                        assert(bare_models(nodes@) =~= done.push(before[0]));
                        let rest = level_order(before.drop_first() + before[0].children);
                        assert(level_order(before) == seq![before[0]] + rest);
                        assert(done.push(before[0]) + rest =~= done + (seq![before[0]] + rest));
                        lemma_forest_count_first(before);
                        lemma_forest_count_concat(before.drop_first(), before[0].children);
                    }
                },
                None => {
                    assert(false);
                },
            }
        }
        proof {
            assert(bare_models(queue@).len() == 0);
            assert(bare_models(nodes@) + Seq::<NodeModel>::empty() =~= bare_models(nodes@));
        }
        nodes
    }

    /// Puts `child` behind the children that the node has.
    pub fn add_child(&mut self, child: TreeNode)
        ensures
            final(self)@ == (NodeModel {
                data: old(self)@.data,
                children: old(self)@.children.push(child@),
            }),
    {
        proof {
            self.lemma_model();
        }
        self.kids.push(child);
        proof {
            self.lemma_model();
            assert(self@.children =~= old(self)@.children.push(child@));
        }
    }

    fn print_indented(&self, indent: &String, output: &mut String, Ghost(depth): Ghost<nat>)
        requires
            indent@ == indent_text(depth),
        ensures
            final(output)@ == old(output)@ + rendered(self@, depth),
        decreases self,
    {
        proof {
            self.lemma_model();
            reveal_strlit("<");
            reveal_strlit(">: ");
            reveal_strlit("\n");
            reveal_strlit("  ");
            assert("<"@ =~= seq!['<']);
            assert(">: "@ =~= seq!['>', ':', ' ']);
            assert("\n"@ =~= seq!['\n']);
            assert("  "@ =~= seq![' ', ' ']);
        }
        output.append(indent.as_str());
        output.append(self.ftype.label());
        output.append("<");
        output.append(self.path.as_str());
        output.append(">: ");
        output.append(self.fop.label());
        output.append("\n");
        assert(output@ =~= old(output)@ + line_text(self@.data, depth));
        let deeper = indent.clone().concat("  ");
        let ghost start = output@;
        let mut i: usize = 0;
        assert(self@.children.take(0) =~= Seq::<NodeModel>::empty());
        assert(output@ =~= start + rendered_all(self@.children.take(0), depth + 1));
        while i < self.kids.len()
            invariant
                i <= self.kids.len(),
                deeper@ == indent_text(depth + 1),
                self@.children.len() == self.kids@.len(),
                forall|k: int|
                    0 <= k < self.kids@.len() ==> self@.children[k] == (#[trigger] self.kids@[k])@,
                output@ == start + rendered_all(self@.children.take(i as int), depth + 1),
            decreases self.kids.len() - i,
        {
            let ghost so_far = output@;
            self.kids[i].print_indented(&deeper, output, Ghost(depth + 1));
            proof {
                let upto = self@.children.take(i + 1);
                assert(upto.drop_last() =~= self@.children.take(i as int));
                assert(upto.last() == self@.children[i as int]);
                assert(output@ =~= start + rendered_all(upto, depth + 1));
            }
            i += 1;
        }
        proof {
            assert(self@.children.take(i as int) =~= self@.children);
            assert(output@ =~= old(output)@ + rendered(self@, depth));
        }
    }

    /// Appends to `output` the lines that show the tree, the node's own
    /// line indented by `depth` levels.
    pub fn print_tree(&self, depth: usize, output: &mut String)
        ensures
            final(output)@ == old(output)@ + rendered(self@, depth as nat),
    {
        let mut indent = String::new();
        let mut d: usize = 0;
        proof {
            reveal_strlit("  ");
            assert("  "@ =~= seq![' ', ' ']);
        }
        while d < depth
            invariant
                d <= depth,
                indent@ == indent_text(d as nat),
                "  "@ == seq![' ', ' '],
            decreases depth - d,
        {
            indent.append("  ");
            d += 1;
        }
        self.print_indented(&indent, output, Ghost(depth as nat));
    }

    fn narrow(&self, segments: &Vec<Vec<char>>, from: usize) -> (made: Option<TreeNode>)
        requires
            from < segments@.len(),
        ensures
            match made {
                Some(tree) => narrowed(self@, views(segments@).skip(from as int)) == Some(tree@),
                None => narrowed(self@, views(segments@).skip(from as int)) is None,
            },
        decreases segments@.len() - from,
    {
        let ghost segs = views(segments@);
        proof {
            assert(segs.len() == segments@.len());
            assert(segs[from as int] == segments@[from as int]@);
            assert(segs.skip(from as int)[0] == segs[from as int]);
            assert(segs.skip(from as int).drop_first() =~= segs.skip(from + 1));
            self.lemma_model();
        }
        assert(from < segments.len());
        if from + 1 == segments.len() {
            assert(segs.skip(from as int) =~= seq![segs[from as int]]);
            narrow_kids(self, &segments[from])
        } else {
            match find_kid(self, &segments[from]) {
                None => None,
                Some(k) => {
                    match self.kids[k].narrow(segments, from + 1) {
                        None => None,
                        Some(below) => {
                            let ghost lower = below@;
                            let mut kids: Vec<TreeNode> = Vec::new();
                            kids.push(below);
                            assert(kids@.len() == 1 && kids@[0]@ == lower);
                            let made = TreeNode::assemble(
                                self.path.clone(),
                                self.ftype,
                                self.fop,
                                kids,
                            );
                            proof {
                                assert(made@.children =~= seq![lower]);
                            }
                            Some(made)
                        },
                    }
                },
            }
        }
    }

    /// The tree narrowed to what the typed path `filter` leads to, or
    /// `None` where the path has no segment or leads nowhere. The tree
    /// itself stays as it is.
    pub fn filter_tree_full_path(&self, filter: &str) -> (made: Option<TreeNode>)
        ensures
            match made {
                Some(tree) => narrowed(self@, path_components(filter@)) == Some(tree@),
                None => narrowed(self@, path_components(filter@)) is None,
            },
    {
        let segments = split_path(filter);
        assert(views(segments@).len() == segments@.len());
        if segments.len() == 0 {
            return None;
        }
        assert(views(segments@).skip(0) =~= views(segments@));
        self.narrow(&segments, 0)
    }
}

/// What was found at one path below a layer's directory: the path
/// relative to that directory, what the file system reports of the entry
/// (`None` where it reports nothing), and what the entry holds where it
/// could be listed.
#[derive(Debug)]
pub struct DiskEntry {
    pub rel_path: String,
    pub metadata: Option<EntryMetadata>,
    pub listing: Option<Vec<DiskEntry>>,
}

/// What was found at one path, as mathematical values.
pub struct DiskModel {
    pub rel_path: Seq<char>,
    pub metadata: Option<EntryMetadata>,
    pub listing: Option<Seq<DiskModel>>,
}

impl DiskEntry {
    /// What was found, as mathematical values.
    pub open spec fn model(&self) -> DiskModel
        decreases self,
    {
        DiskModel {
            rel_path: self.rel_path@,
            metadata: self.metadata,
            listing: match self.listing {
                Some(found) => Some(
                    Seq::new(
                        found@.len(),
                        |i: int|
                            if 0 <= i < found@.len() {
                                found@[i].model()
                            } else {
                                arbitrary()
                            },
                    ),
                ),
                None => None,
            },
        }
    }
}

impl View for DiskEntry {
    type V = DiskModel;

    open spec fn view(&self) -> DiskModel {
        self.model()
    }
}

/// The kind of the entry that `metadata` describes.
pub open spec fn kind_in(metadata: EntryMetadata) -> DDiveFileType {
    DDiveFileType::classify(metadata.is_symlink, metadata.is_file, metadata.is_dir)
}

/// The node for an entry of which the file system reports `metadata`,
/// with all that was found below it. Only a directory has anything below
/// it, and one that could not be listed has nothing.
pub open spec fn found_node(entry: DiskModel, metadata: EntryMetadata) -> NodeModel
    decreases entry, 0nat,
{
    NodeModel {
        data: bare_data(
            shown_path(entry.rel_path),
            kind_in(metadata),
            name_op(base_name(entry.rel_path)),
        ),
        children: match entry.listing {
            Some(found) if kind_in(metadata) == DDiveFileType::Directory => found_nodes(found),
            _ => Seq::empty(),
        },
    }
}

/// The nodes for a run of entries, in their order; an entry of which the
/// file system reports nothing has none.
pub open spec fn found_nodes(entries: Seq<DiskModel>) -> Seq<NodeModel>
    decreases entries, 1nat,
{
    if entries.len() == 0 {
        Seq::empty()
    } else {
        let before = found_nodes(entries.drop_last());
        match entries.last().metadata {
            Some(metadata) => before.push(found_node(entries.last(), metadata)),
            None => before,
        }
    }
}

/// `parent` once the entry has been put below it: behind the children it
/// has, unless the file system reports nothing of the entry.
pub open spec fn with_found(parent: NodeModel, entry: DiskModel) -> NodeModel {
    match entry.metadata {
        Some(metadata) => NodeModel {
            data: parent.data,
            children: parent.children.push(found_node(entry, metadata)),
        },
        None => parent,
    }
}

/// Puts what was found at one path below `parent`: a node for the entry
/// and, where the entry is a directory that could be listed, below it
/// nodes for all that the directory holds. An entry of which the file
/// system reports nothing is passed over.
pub fn parse_directory_into_tree(entry: &DiskEntry, parent: &mut TreeNode)
    ensures
        final(parent)@ == with_found(old(parent)@, entry@),
    decreases entry,
{
    let metadata = match &entry.metadata {
        Some(metadata) => metadata,
        None => {
            return ;
        },
    };
    let ftype = DDiveFileType::from_ftype(metadata.is_symlink, metadata.is_file, metadata.is_dir);
    let mut node = TreeNode::for_entry(entry.rel_path.as_str(), &ftype);
    match ftype {
        DDiveFileType::Directory => {
            match &entry.listing {
                Some(found) => {
                    let ghost below = entry@.listing->Some_0;
                    let mut i: usize = 0;
                    while i < found.len()
                        invariant
                            i <= found.len(),
                            entry.listing == Some(*found),
                            below == entry@.listing->Some_0,
                            below.len() == found@.len(),
                            forall|k: int|
                                0 <= k < found@.len() ==> below[k] == (#[trigger] found@[k])@,
                            node@.data == bare_data(
                                shown_path(entry.rel_path@),
                                ftype,
                                name_op(base_name(entry.rel_path@)),
                            ),
                            node@.children == found_nodes(below.take(i as int)),
                        decreases found.len() - i,
                    {
                        proof {
                            assert(below.take(i + 1).drop_last() =~= below.take(i as int));
                            assert(below.take(i + 1).last() == found@[i as int]@);
                        }
                        parse_directory_into_tree(&found[i], &mut node);
                        i += 1;
                    }
                    proof {
                        assert(below.take(i as int) =~= below);
                    }
                },
                None => {},
            }
        },
        _ => {},
    }
    parent.add_child(node);
}

} // verus!
