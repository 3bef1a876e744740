//! Building a layer's tree from the listings of its directories.
//!
//! The builder reads no disk. It names the directory whose listing it needs
//! next, takes the listing, and names the next one: breadth first, from the
//! layer's root. Whoever drives it lists the directories and hands back what
//! they hold.
//!
//! While it works, the builder keeps the nodes in the order in which the
//! walk met them. The children of a node stand side by side in that order,
//! behind the node itself, so that one number per node, the position behind
//! its last child, describes the whole tree.

use crate::docker_file_tree::{DDiveFileType, FileOp};
use crate::file_tree::{
    child_data, join_path, lemma_raw_name_of_parsed, permissions_from, permissions_of, raw_name,
    DataModel, EntryMetadata, FileTree, FileTreeNode, FileTreeNodeData, NodeModel,
};
use crate::sorting::{
    arrange, as_ints, distinct_names, lemma_sort_forgets_order, same_items, sorted_order,
    stable_order,
};
use crate::text::{name_le, to_chars, views};
use std::collections::VecDeque;
use vstd::prelude::*;
use vstd::string::StringExecFns;

verus! {

/// One line of a directory's listing: the name on disk, and the entry's
/// metadata where it could be read.
#[derive(Debug, PartialEq, Eq)]
pub struct DirEntryInfo {
    pub name: String,
    pub metadata: Option<EntryMetadata>,
}

/// One line of a directory's listing, as mathematical values.
pub struct EntryModel {
    pub name: Seq<char>,
    pub metadata: Option<EntryMetadata>,
}

impl View for DirEntryInfo {
    type V = EntryModel;

    open spec fn view(&self) -> EntryModel {
        EntryModel { name: self.name@, metadata: self.metadata }
    }
}

/// The lines of a listing, as mathematical values.
pub open spec fn entries_of(listing: Seq<DirEntryInfo>) -> Seq<EntryModel> {
    listing.map_values(|e: DirEntryInfo| e@)
}

/// A listing as mathematical values; `None` stands for a directory that
/// could not be listed.
pub open spec fn lines_of(listing: Option<Vec<DirEntryInfo>>) -> Option<Seq<EntryModel>> {
    match listing {
        Some(entries) => Some(entries_of(entries@)),
        None => None,
    }
}

/// The names on disk of a run of entries.
pub open spec fn entry_names(entries: Seq<EntryModel>) -> Seq<Seq<char>> {
    entries.map_values(|e: EntryModel| e.name)
}

/// Whether the entry's metadata could be read.
pub open spec fn is_readable() -> spec_fn(EntryModel) -> bool {
    |e: EntryModel| e.metadata is Some
}

/// The data of the nodes that a directory's node gets for its listing: one
/// for each entry whose metadata could be read, sorted by the name on disk.
pub open spec fn listed_children(parent: DataModel, entries: Seq<EntryModel>) -> Seq<DataModel> {
    let readable = entries.filter(is_readable());
    arrange(readable, sorted_order(entry_names(readable))).map_values(
        |e: EntryModel| child_data(parent, e.name, e.metadata.unwrap()),
    )
}

/// The data of the root node: the directory `/`, with the permissions that
/// the layer's directory has.
pub open spec fn root_data(metadata: EntryMetadata) -> DataModel {
    DataModel {
        name: seq!['/'],
        ftype: DDiveFileType::Directory,
        fop: FileOp::Add,
        permissions: permissions_of(metadata),
        disk_rel_path: seq!['/'],
        vis_rel_path: seq!['/'],
        size: 0,
    }
}

/// The state of a walk: the data of the nodes met so far, in the order of
/// the walk, and for each node that the walk has dealt with the position
/// behind its last child.
pub struct WalkModel {
    pub nodes: Seq<DataModel>,
    pub ends: Seq<int>,
}

/// The position behind the last child of node `i`. A node that the walk has
/// not dealt with yet has no children.
pub open spec fn range_end(m: WalkModel, i: int) -> int {
    if 0 <= i < m.ends.len() {
        m.ends[i]
    } else {
        m.nodes.len() as int
    }
}

/// The position of the first child of node `i`.
pub open spec fn range_start(m: WalkModel, i: int) -> int {
    if i <= 0 {
        1
    } else {
        range_end(m, i - 1)
    }
}

/// The name on disk of the entry that a node stands for.
pub open spec fn disk_name(d: DataModel) -> Seq<char> {
    raw_name(d.name, d.fop)
}

/// The ranges of children follow each other: every node's children stand
/// behind it and behind those of the nodes before it, the nodes end where
/// the last range ends, and a node that is no directory has none.
pub open spec fn ranges_wf(m: WalkModel) -> bool {
    &&& m.nodes.len() >= 1
    &&& m.ends.len() <= m.nodes.len()
    &&& range_start(m, m.ends.len() as int) == m.nodes.len()
    &&& forall|k: int|
        #![trigger m.ends[k]]
        0 <= k < m.ends.len() ==> holds_children(m, k)
    &&& forall|k: int|
        #![trigger m.ends[k]]
        0 <= k < m.ends.len() && m.nodes[k].ftype != DDiveFileType::Directory ==> range_start(
            m,
            k,
        ) == m.ends[k]
}

/// The children of node `k` stand behind it, and among the nodes.
pub open spec fn holds_children(m: WalkModel, k: int) -> bool {
    &&& k + 1 <= range_start(m, k)
    &&& range_start(m, k) <= m.ends[k]
    &&& m.ends[k] <= m.nodes.len()
}

/// The first node is the directory `/`.
pub open spec fn root_wf(m: WalkModel) -> bool {
    &&& m.nodes.len() >= 1
    &&& m.nodes[0].ftype == DDiveFileType::Directory
    &&& m.nodes[0].disk_rel_path == seq!['/']
    &&& m.nodes[0].vis_rel_path == seq!['/']
}

/// The paths of every child continue those of its parent.
pub open spec fn links_wf(m: WalkModel) -> bool {
    forall|k: int, c: int|
        0 <= k < m.ends.len() && range_start(m, k) <= c < m.ends[k] ==> #[trigger] is_child_of(
            m.nodes[k],
            m.nodes[c],
        )
}

/// The children of every node are sorted by their names on disk.
pub open spec fn order_wf(m: WalkModel) -> bool {
    forall|k: int, c: int, d: int|
        0 <= k < m.ends.len() && range_start(m, k) <= c < d < m.ends[k] ==> #[trigger] in_order(
            m.nodes[k],
            m.nodes[c],
            m.nodes[d],
        )
}

/// What holds of the state of every walk.
#[verifier::opaque]
pub open spec fn walk_wf(m: WalkModel) -> bool {
    &&& ranges_wf(m)
    &&& root_wf(m)
    &&& links_wf(m)
    &&& order_wf(m)
}

/// The paths of `child` continue those of `parent`.
pub open spec fn is_child_of(parent: DataModel, child: DataModel) -> bool {
    &&& child.vis_rel_path == join_path(parent.vis_rel_path, child.name)
    &&& child.disk_rel_path == join_path(parent.disk_rel_path, disk_name(child))
}

/// Of two children of `parent`, `first` has the smaller name on disk.
pub open spec fn in_order(parent: DataModel, first: DataModel, second: DataModel) -> bool {
    name_le(disk_name(first), disk_name(second))
}

/// Whether node `i` is a directory.
pub open spec fn is_directory_at(m: WalkModel, i: int) -> bool {
    m.nodes[i].ftype == DDiveFileType::Directory
}

/// The tree below node `i`, the node included.
pub open spec fn subtree(m: WalkModel, i: int) -> NodeModel
    decreases m.nodes.len() - i,
{
    let first = range_start(m, i);
    let end = range_end(m, i);
    if 0 <= i < first <= end <= m.nodes.len() {
        NodeModel {
            data: m.nodes[i],
            children: Seq::new(
                (end - first) as nat,
                |k: int|
                    if 0 <= k < end - first {
                        subtree(m, first + k)
                    } else {
                        arbitrary()
                    },
            ),
        }
    } else {
        NodeModel { data: m.nodes[i], children: Seq::empty() }
    }
}

/// The tree that the walk has built so far.
pub open spec fn built_tree(m: WalkModel) -> NodeModel {
    subtree(m, 0)
}

/// The walk, once it has passed every node in front of the next directory
/// that it has not dealt with: none of them gets children.
pub open spec fn at_next_directory(m: WalkModel) -> WalkModel
    decreases m.nodes.len() - m.ends.len(),
{
    if m.ends.len() < m.nodes.len() && m.nodes[m.ends.len() as int].ftype
        != DDiveFileType::Directory {
        at_next_directory(WalkModel { nodes: m.nodes, ends: m.ends.push(m.nodes.len() as int) })
    } else {
        m
    }
}

/// The path on disk of the directory whose listing the walk needs next,
/// or `None` once no directory is left.
pub open spec fn pending_directory(m: WalkModel) -> Option<Seq<char>> {
    let at = at_next_directory(m);
    if at.ends.len() < at.nodes.len() {
        Some(at.nodes[at.ends.len() as int].disk_rel_path)
    } else {
        None
    }
}

/// The walk after it has taken the listing of the directory it was waiting
/// for. A listing that failed leaves the directory without children. Once
/// no directory is left, a listing changes nothing.
pub open spec fn with_listing(m: WalkModel, listing: Option<Seq<EntryModel>>) -> WalkModel {
    let at = at_next_directory(m);
    if at.ends.len() < at.nodes.len() {
        let children = match listing {
            Some(entries) => listed_children(at.nodes[at.ends.len() as int], entries),
            None => Seq::empty(),
        };
        WalkModel {
            nodes: at.nodes + children,
            ends: at.ends.push((at.nodes.len() + children.len()) as int),
        }
    } else {
        at
    }
}

/// What holds of every tree that a walk has built: the root is the
/// directory `/`, and every node below it is well formed.
pub open spec fn tree_wf(root: NodeModel) -> bool {
    &&& root.data.ftype == DDiveFileType::Directory
    &&& root.data.disk_rel_path == seq!['/']
    &&& root.data.vis_rel_path == seq!['/']
    &&& node_wf(root)
}

/// Only a directory has children; the paths of each child continue those of
/// the node; the children are sorted by their names on disk; and all this
/// holds of every child in turn.
pub open spec fn node_wf(n: NodeModel) -> bool
    decreases n,
{
    &&& n.data.ftype != DDiveFileType::Directory ==> n.children.len() == 0
    &&& forall|c: int|
        0 <= c < n.children.len() ==> is_child_of(n.data, (#[trigger] n.children[c]).data)
    &&& forall|c: int, d: int|
        0 <= c < d < n.children.len() ==> name_le(
            disk_name((#[trigger] n.children[c]).data),
            disk_name((#[trigger] n.children[d]).data),
        )
    &&& forall|c: int| 0 <= c < n.children.len() ==> node_wf(#[trigger] n.children[c])
}

proof fn lemma_subtree_data(m: WalkModel, i: int)
    requires
        0 <= i < m.nodes.len(),
    ensures
        subtree(m, i).data == m.nodes[i],
{
}

/// Every subtree of a walk that is well formed is well formed.
proof fn lemma_subtree_wf(m: WalkModel, i: int)
    requires
        walk_wf(m),
        0 <= i < m.nodes.len(),
    ensures
        node_wf(subtree(m, i)),
    decreases m.nodes.len() - i,
{
    reveal(walk_wf);
    let first = range_start(m, i);
    let end = range_end(m, i);
    let n = subtree(m, i);
    if 0 <= i < first <= end <= m.nodes.len() {
        assert forall|c: int| 0 <= c < n.children.len() implies node_wf(
            #[trigger] n.children[c],
        ) by {
            lemma_subtree_wf(m, first + c);
        }
        if i < m.ends.len() {
            assert(end == m.ends[i]);
            assert forall|c: int| 0 <= c < n.children.len() implies is_child_of(
                n.data,
                (#[trigger] n.children[c]).data,
            ) by {
                lemma_subtree_data(m, first + c);
                assert(is_child_of(m.nodes[i], m.nodes[first + c]));
            }
            assert forall|c: int, d: int| 0 <= c < d < n.children.len() implies name_le(
                disk_name((#[trigger] n.children[c]).data),
                disk_name((#[trigger] n.children[d]).data),
            ) by {
                lemma_subtree_data(m, first + c);
                lemma_subtree_data(m, first + d);
                assert(in_order(m.nodes[i], m.nodes[first + c], m.nodes[first + d]));
            }
        } else {
            assert(first == end);
        }
    }
}

/// The tree that a well-formed walk has built is well formed.
pub proof fn lemma_built_tree_wf(m: WalkModel)
    requires
        walk_wf(m),
    ensures
        tree_wf(built_tree(m)),
{
    reveal(walk_wf);
    lemma_subtree_wf(m, 0);
}

/// Where the ranges of the walk begin once one more node has been dealt
/// with and has got the children `[old end, end)`.
proof fn lemma_range_start_after(m: WalkModel, after: WalkModel, end: int)
    requires
        after.ends == m.ends.push(end),
        after.nodes.len() == end,
    ensures
        forall|k: int|
            0 <= k <= after.ends.len() ==> #[trigger] range_start(after, k) == (if k
                <= m.ends.len() {
                range_start(m, k)
            } else {
                end
            }),
        forall|k: int| 0 <= k < m.ends.len() ==> #[trigger] after.ends[k] == m.ends[k],
        after.ends[m.ends.len() as int] == end,
{
    assert forall|k: int| 0 <= k <= after.ends.len() implies #[trigger] range_start(after, k)
        == (if k <= m.ends.len() {
        range_start(m, k)
    } else {
        end
    }) by {
        if 0 < k <= m.ends.len() {
            assert(after.ends[k - 1] == m.ends[k - 1]);
        }
    }
}

/// Passing a node that is no directory keeps the walk well formed.
proof fn lemma_pass_keeps_wf(m: WalkModel)
    requires
        walk_wf(m),
        m.ends.len() < m.nodes.len(),
    ensures
        walk_wf(WalkModel { nodes: m.nodes, ends: m.ends.push(m.nodes.len() as int) }),
{
    reveal(walk_wf);
    let after = WalkModel { nodes: m.nodes, ends: m.ends.push(m.nodes.len() as int) };
    assert(ranges_wf(m) && root_wf(m) && links_wf(m) && order_wf(m));
    lemma_range_start_after(m, after, m.nodes.len() as int);
    let cursor = m.ends.len() as int;
    assert(ranges_wf(after)) by {
        assert forall|k: int| 0 <= k < after.ends.len() implies holds_children(after, k) by {
            assert(range_start(after, k) == range_start(m, k));
            if k < cursor {
                assert(after.ends[k] == m.ends[k]);
                assert(holds_children(m, k));
            } else {
                assert(after.ends[k] == m.nodes.len());
            }
        }
        assert forall|k: int|
            0 <= k < after.ends.len() && after.nodes[k].ftype
                != DDiveFileType::Directory implies range_start(after, k)
            == #[trigger] after.ends[k] by {
            assert(range_start(after, k) == range_start(m, k));
            if k < cursor {
                assert(after.ends[k] == m.ends[k]);
                assert(range_start(m, k) == m.ends[k]);
            } else {
                assert(after.ends[k] == m.nodes.len());
            }
        }
        assert(range_start(after, after.ends.len() as int) == after.nodes.len());
    }
    assert(links_wf(after)) by {
        assert forall|k: int, c: int|
            0 <= k < after.ends.len() && range_start(after, k) <= c
                < after.ends[k] implies #[trigger] is_child_of(after.nodes[k], after.nodes[c]) by {
            assert(range_start(after, k) == range_start(m, k));
            if k < cursor {
                assert(after.ends[k] == m.ends[k]);
                assert(is_child_of(m.nodes[k], m.nodes[c]));
            } else {
                assert(after.ends[k] == m.nodes.len());
            }
        }
    }
    assert(order_wf(after)) by {
        assert forall|k: int, c: int, d: int|
            0 <= k < after.ends.len() && range_start(after, k) <= c < d
                < after.ends[k] implies #[trigger] in_order(
            after.nodes[k],
            after.nodes[c],
            after.nodes[d],
        ) by {
            assert(range_start(after, k) == range_start(m, k));
            if k < cursor {
                assert(after.ends[k] == m.ends[k]);
                assert(in_order(m.nodes[k], m.nodes[c], m.nodes[d]));
            } else {
                assert(after.ends[k] == m.nodes.len());
            }
        }
    }
}

/// The walk stays well formed while it passes the nodes in front of the
/// next directory.
pub proof fn lemma_at_next_directory_wf(m: WalkModel)
    requires
        walk_wf(m),
    ensures
        walk_wf(at_next_directory(m)),
        at_next_directory(m).nodes == m.nodes,
        at_next_directory(m).ends.len() < m.nodes.len() ==> m.nodes[at_next_directory(
            m,
        ).ends.len() as int].ftype == DDiveFileType::Directory,
    decreases m.nodes.len() - m.ends.len(),
{
    assert(m.ends.len() <= m.nodes.len()) by {
        reveal(walk_wf);
    }
    if m.ends.len() < m.nodes.len() && m.nodes[m.ends.len() as int].ftype
        != DDiveFileType::Directory {
        lemma_pass_keeps_wf(m);
        lemma_at_next_directory_wf(
            WalkModel { nodes: m.nodes, ends: m.ends.push(m.nodes.len() as int) },
        );
    }
}

/// Children made for a listing continue the paths of their directory and
/// are sorted by their names on disk.
pub proof fn lemma_listed_children(parent: DataModel, entries: Seq<EntryModel>)
    ensures
        forall|c: int|
            0 <= c < listed_children(parent, entries).len() ==> is_child_of(
                parent,
                #[trigger] listed_children(parent, entries)[c],
            ),
        forall|c: int, d: int|
            0 <= c < d < listed_children(parent, entries).len() ==> name_le(
                disk_name(#[trigger] listed_children(parent, entries)[c]),
                disk_name(#[trigger] listed_children(parent, entries)[d]),
            ),
{
    let readable = entries.filter(is_readable());
    let names = entry_names(readable);
    let order = sorted_order(names);
    let sorted = arrange(readable, order);
    let children = listed_children(parent, entries);
    crate::sorting::lemma_sort_order_stable(names, names.len() as int);
    assert forall|c: int| 0 <= c < children.len() implies is_child_of(
        parent,
        #[trigger] children[c],
    ) && disk_name(children[c]) == names[order[c]] by {
        let e = sorted[c];
        assert(e == readable[order[c]]);
        assert(names[order[c]] == e.name);
        lemma_raw_name_of_parsed(e.name);
    }
    assert forall|c: int, d: int| 0 <= c < d < children.len() implies name_le(
        disk_name(#[trigger] children[c]),
        disk_name(#[trigger] children[d]),
    ) by {
        assert(is_child_of(parent, children[c]) && disk_name(children[c]) == names[order[c]]);
        assert(is_child_of(parent, children[d]) && disk_name(children[d]) == names[order[d]]);
        assert(crate::sorting::comes_before(names, order[c], order[d]));
    }
}

/// Taking a listing keeps the walk well formed.
pub proof fn lemma_with_listing_wf(m: WalkModel, listing: Option<Seq<EntryModel>>)
    requires
        walk_wf(m),
    ensures
        walk_wf(with_listing(m, listing)),
{
    lemma_at_next_directory_wf(m);
    reveal(walk_wf);
    let at = at_next_directory(m);
    assert(ranges_wf(at) && root_wf(at) && links_wf(at) && order_wf(at));
    if at.ends.len() < at.nodes.len() {
        let cursor = at.ends.len() as int;
        let parent = at.nodes[cursor];
        let children = match listing {
            Some(entries) => listed_children(parent, entries),
            None => Seq::empty(),
        };
        if listing is Some {
            lemma_listed_children(parent, listing.unwrap());
        }
        let after = with_listing(m, listing);
        let old_len = at.nodes.len() as int;
        lemma_range_start_after(at, after, old_len + children.len());
        assert(range_start(at, cursor) == old_len);
        assert forall|j: int| 0 <= j < old_len implies #[trigger] after.nodes[j]
            == at.nodes[j] by {}
        assert forall|j: int| old_len <= j < after.nodes.len() implies #[trigger] after.nodes[j]
            == children[j - old_len] by {}
        assert(ranges_wf(after)) by {
            assert forall|k: int| 0 <= k < after.ends.len() implies holds_children(after, k) by {
                assert(range_start(after, k) == range_start(at, k));
                if k < cursor {
                    assert(after.ends[k] == at.ends[k]);
                    assert(holds_children(at, k));
                } else {
                    assert(after.ends[k] == old_len + children.len());
                }
            }
            assert forall|k: int|
                0 <= k < after.ends.len() && after.nodes[k].ftype
                    != DDiveFileType::Directory implies range_start(after, k)
                == #[trigger] after.ends[k] by {
                assert(after.nodes[k] == at.nodes[k]);
                assert(range_start(after, k) == range_start(at, k));
                if k < cursor {
                    assert(after.ends[k] == at.ends[k]);
                    assert(range_start(at, k) == at.ends[k]);
                }
            }
            assert(range_start(after, after.ends.len() as int) == after.nodes.len());
        }
        assert(root_wf(after)) by {
            assert(after.nodes[0] == at.nodes[0]);
        }
        assert(links_wf(after)) by {
            assert forall|k: int, c: int|
                0 <= k < after.ends.len() && range_start(after, k) <= c
                    < after.ends[k] implies #[trigger] is_child_of(
                after.nodes[k],
                after.nodes[c],
            ) by {
                assert(after.nodes[k] == at.nodes[k]);
                assert(range_start(after, k) == range_start(at, k));
                if k < cursor {
                    assert(after.ends[k] == at.ends[k]);
                    assert(at.ends[k] <= at.nodes.len());
                    assert(after.nodes[c] == at.nodes[c]);
                    assert(is_child_of(at.nodes[k], at.nodes[c]));
                } else {
                    assert(after.ends[k] == old_len + children.len());
                    assert(after.nodes[c] == children[c - old_len]);
                }
            }
        }
        assert(order_wf(after)) by {
            assert forall|k: int, c: int, d: int|
                0 <= k < after.ends.len() && range_start(after, k) <= c < d
                    < after.ends[k] implies #[trigger] in_order(
                after.nodes[k],
                after.nodes[c],
                after.nodes[d],
            ) by {
                assert(after.nodes[k] == at.nodes[k]);
                assert(range_start(after, k) == range_start(at, k));
                if k < cursor {
                    assert(after.ends[k] == at.ends[k]);
                    assert(at.ends[k] <= at.nodes.len());
                    assert(after.nodes[c] == at.nodes[c]);
                    assert(after.nodes[d] == at.nodes[d]);
                    assert(in_order(at.nodes[k], at.nodes[c], at.nodes[d]));
                } else {
                    assert(after.ends[k] == old_len + children.len());
                    assert(after.nodes[c] == children[c - old_len]);
                    assert(after.nodes[d] == children[d - old_len]);
                }
            }
        }
    }
}

/// A walk over a layer's directory that builds the layer's tree.
pub struct TreeBuilder {
    source: String,
    nodes: Vec<FileTreeNodeData>,
    ends: Vec<usize>,
}

/// The data of a run of nodes, as mathematical values.
pub open spec fn data_of(nodes: Seq<FileTreeNodeData>) -> Seq<DataModel> {
    nodes.map_values(|d: FileTreeNodeData| d@)
}

impl View for TreeBuilder {
    type V = WalkModel;

    closed spec fn view(&self) -> WalkModel {
        WalkModel { nodes: data_of(self.nodes@), ends: as_ints(self.ends@) }
    }
}

impl TreeBuilder {
    /// The directory that the walk goes over.
    pub closed spec fn source_path(&self) -> Seq<char> {
        self.source@
    }

    /// What holds of every builder that `new` has made, whatever it was
    /// given since.
    pub open spec fn wf(&self) -> bool {
        walk_wf(self@)
    }

    /// A walk over the directory `source`, of which the file system reports
    /// `root`. The tree has its root node and nothing else yet.
    pub fn new(source: &str, root: &EntryMetadata) -> (walk: TreeBuilder)
        ensures
            walk.wf(),
            walk.source_path() == source@,
            walk@ == (WalkModel { nodes: seq![root_data(*root)], ends: Seq::empty() }),
    {
        proof {
            reveal_strlit("/");
            assert("/"@ =~= seq!['/']);
        }
        let data = FileTreeNodeData::new(
            String::from_str("/"),
            DDiveFileType::Directory,
            FileOp::Add,
            permissions_from(root),
            String::from_str("/"),
            String::from_str("/"),
            0,
        );
        let mut nodes: Vec<FileTreeNodeData> = Vec::new();
        nodes.push(data);
        let walk = TreeBuilder { source: String::from_str(source), nodes, ends: Vec::new() };
        proof {
            reveal(walk_wf);
            assert(walk@.nodes =~= seq![root_data(*root)]);
            assert(walk@.ends =~= Seq::<int>::empty());
        }
        walk
    }

    /// Passes the nodes in front of the next directory.
    fn advance(&mut self)
        requires
            old(self).wf(),
        ensures
            final(self).wf(),
            final(self)@ == at_next_directory(old(self)@),
            final(self).source_path() == old(self).source_path(),
            final(self).ends@.len() <= final(self).nodes@.len(),
            final(self).ends@.len() < final(self).nodes@.len() ==> is_directory_at(
                final(self)@,
                final(self).ends@.len() as int,
            ),
    {
        proof {
            lemma_at_next_directory_wf(self@);
            reveal(walk_wf);
        }
        while self.ends.len() < self.nodes.len() && !is_directory(&self.nodes[self.ends.len()])
            invariant
                self.wf(),
                self.ends@.len() <= self.nodes@.len(),
                self.source_path() == old(self).source_path(),
                at_next_directory(self@) == at_next_directory(old(self)@),
            decreases self.nodes@.len() - self.ends@.len(),
        {
            let ghost before = self@;
            let n = self.nodes.len();
            proof {
                assert(before.nodes[before.ends.len() as int] == self.nodes@[self.ends@.len() as int]@);
                lemma_pass_keeps_wf(before);
            }
            self.ends.push(n);
            proof {
                assert(self@.ends =~= before.ends.push(n as int));
                assert(self@ == (WalkModel {
                    nodes: before.nodes,
                    ends: before.ends.push(before.nodes.len() as int),
                }));
            }
        }
        proof {
            if self.ends@.len() < self.nodes@.len() {
                assert(self@.nodes[self.ends@.len() as int] == self.nodes@[self.ends@.len() as int]@);
            }
        }
    }

    /// The path on disk, inside the layer, of the directory whose listing
    /// the walk needs next; `None` once every directory has been dealt with.
    /// Nodes that are no directory are passed on the way.
    pub fn next_directory(&mut self) -> (path: Option<String>)
        requires
            old(self).wf(),
        ensures
            final(self).wf(),
            final(self)@ == at_next_directory(old(self)@),
            final(self).source_path() == old(self).source_path(),
            match path {
                Some(p) => pending_directory(old(self)@) == Some(p@),
                None => pending_directory(old(self)@) is None,
            },
    {
        self.advance();
        if self.ends.len() < self.nodes.len() {
            let at = self.ends.len();
            assert(self@.nodes[at as int] == self.nodes@[at as int]@);
            Some(self.nodes[at].disk_path().clone())
        } else {
            None
        }
    }

    /// Whether every directory has been dealt with.
    pub fn is_done(&self) -> (done: bool)
        requires
            self.wf(),
        ensures
            done == (pending_directory(self@) is None),
    {
        proof {
            lemma_at_next_directory_wf(self@);
            reveal(walk_wf);
        }
        let mut at: usize = self.ends.len();
        proof {
            assert(self@.ends =~= self@.ends.take(at as int));
        }
        let ghost mut m = self@;
        while at < self.nodes.len() && !is_directory(&self.nodes[at])
            invariant
                self.ends@.len() <= at <= self.nodes@.len(),
                m.nodes == self@.nodes,
                m.ends.len() == at,
                at_next_directory(m) == at_next_directory(self@),
            decreases self.nodes@.len() - at,
        {
            proof {
                assert(m.nodes[at as int] == self.nodes@[at as int]@);
                m = WalkModel { nodes: m.nodes, ends: m.ends.push(m.nodes.len() as int) };
            }
            at += 1;
        }
        proof {
            if at < self.nodes@.len() {
                assert(m.nodes[at as int] == self.nodes@[at as int]@);
            }
        }
        at >= self.nodes.len()
    }

    /// Takes the listing of the directory that `next_directory` names:
    /// what the directory holds, in any order, or `None` where it could not
    /// be listed. The directory's node gets a child for each entry whose
    /// metadata could be read, sorted by the name on disk.
    pub fn add_listing(&mut self, listing: Option<Vec<DirEntryInfo>>)
        requires
            old(self).wf(),
        ensures
            final(self).wf(),
            final(self).source_path() == old(self).source_path(),
            final(self)@ == with_listing(old(self)@, lines_of(listing)),
    {
        let ghost lines = lines_of(listing);
        proof {
            lemma_with_listing_wf(self@, lines);
        }
        self.advance();
        if self.ends.len() >= self.nodes.len() {
            return ;
        }
        let ghost at = self@;
        let cursor = self.ends.len();
        assert(at.nodes[cursor as int] == self.nodes@[cursor as int]@);
        match listing {
            None => {},
            Some(entries) => {
                let ghost all = entries_of(entries@);
                let ghost readable = all.filter(is_readable());
                // the entries whose metadata could be read, and their names
                let mut kept: Vec<usize> = Vec::new();
                let mut names: Vec<Vec<char>> = Vec::new();
                let mut i: usize = 0;
                proof {
                    reveal(Seq::filter);
                    assert(all.take(0).filter(is_readable()) =~= Seq::<EntryModel>::empty());
                }
                while i < entries.len()
                    invariant
                        i <= entries.len(),
                        all == entries_of(entries@),
                        kept@.len() == all.take(i as int).filter(is_readable()).len(),
                        names@.len() == kept@.len(),
                        forall|k: int|
                            0 <= k < kept@.len() ==> (#[trigger] kept@[k]) < entries@.len()
                                && all[kept@[k] as int] == all.take(i as int).filter(
                                is_readable(),
                            )[k],
                        views(names@) == entry_names(all.take(i as int).filter(is_readable())),
                    decreases entries.len() - i,
                {
                    proof {
                        reveal(Seq::filter);
                        assert(all.take(i + 1).drop_last() =~= all.take(i as int));
                        assert(all.take(i + 1).last() == all[i as int]);
                        assert(all[i as int] == entries@[i as int]@);
                    }
                    if entries[i].metadata.is_some() {
                        let ghost before = views(names@);
                        kept.push(i);
                        names.push(to_chars(entries[i].name.as_str()));
                        proof {
                            assert(views(names@) =~= before.push(all[i as int].name));
                            assert(entry_names(all.take(i + 1).filter(is_readable()))
                                =~= before.push(all[i as int].name));
                        }
                    }
                    i += 1;
                }
                proof {
                    assert(all.take(i as int) =~= all);
                }
                let order = stable_order(&names);
                let ghost positions = as_ints(order@);
                let ghost sorted = arrange(readable, positions);
                proof {
                    assert(views(names@).len() == names@.len());
                    assert(listed_children(at.nodes[cursor as int], all).len()
                        == positions.len());
                }
                let mut k: usize = 0;
                while k < order.len()
                    invariant
                        k <= order.len(),
                        cursor < self.nodes@.len(),
                        cursor < at.nodes.len(),
                        cursor == self.ends@.len(),
                        self.source_path() == old(self).source_path(),
                        all == entries_of(entries@),
                        readable == all.filter(is_readable()),
                        positions == as_ints(order@),
                        positions == sorted_order(entry_names(readable)),
                        positions.len() == kept@.len(),
                        kept@.len() == readable.len(),
                        forall|j: int|
                            0 <= j < positions.len() ==> 0 <= #[trigger] positions[j]
                                < kept@.len(),
                        forall|j: int|
                            0 <= j < kept@.len() ==> (#[trigger] kept@[j]) < entries@.len()
                                && all[kept@[j] as int] == readable[j],
                        as_ints(self.ends@) == at.ends,
                        data_of(self.nodes@) == at.nodes + listed_children(
                            at.nodes[cursor as int],
                            all,
                        ).take(k as int),
                    decreases order.len() - k,
                {
                    let ghost before = data_of(self.nodes@);
                    let ghost old_nodes = self.nodes@;
                    assert(positions[k as int] == order@[k as int] as int);
                    let at_entry = kept[order[k]];
                    let entry = &entries[at_entry];
                    proof {
                        assert(all[at_entry as int] == entry@);
                        assert(entry@ == readable[positions[k as int]]);
                        assert(readable.filter(is_readable()).len() <= readable.len()) by {
                            readable.lemma_filter_len(is_readable());
                        }
                        all.lemma_filter_pred(is_readable(), positions[k as int]);
                        assert(data_of(self.nodes@)[cursor as int] == self.nodes@[cursor as int]@);
                        assert(data_of(self.nodes@)[cursor as int] == at.nodes[cursor as int]);
                    }
                    match entry.metadata {
                        Some(metadata) => {
                            let child = FileTreeNodeData::for_child(
                                &self.nodes[cursor],
                                entry.name.as_str(),
                                &metadata,
                            );
                            self.nodes.push(child);
                            proof {
                                let wanted = listed_children(at.nodes[cursor as int], all);
                                assert(wanted[k as int] == child_data(
                                    at.nodes[cursor as int],
                                    entry@.name,
                                    metadata,
                                ));
                                assert(child@ == wanted[k as int]);
                                assert(data_of(self.nodes@).len() == before.len() + 1);
                                assert forall|j: int|
                                    0 <= j < before.len() + 1 implies data_of(self.nodes@)[j]
                                    == before.push(wanted[k as int])[j] by {
                                    assert(data_of(self.nodes@)[j] == self.nodes@[j]@);
                                    if j < before.len() {
                                        assert(before[j] == old_nodes[j]@);
                                    }
                                }
                                assert(data_of(self.nodes@) =~= before.push(wanted[k as int]));
                                assert(wanted.take(k + 1) =~= wanted.take(k as int).push(
                                    wanted[k as int],
                                ));
                                assert(before.push(wanted[k as int]) =~= at.nodes + wanted.take(
                                    k + 1,
                                ));
                            }
                        },
                        None => {
                            assert(false);
                        },
                    }
                    k += 1;
                }
                proof {
                    let wanted = listed_children(at.nodes[cursor as int], all);
                    assert(wanted.take(k as int) =~= wanted);
                }
            },
        }
        let n = self.nodes.len();
        let ghost before_ends = as_ints(self.ends@);
        self.ends.push(n);
        proof {
            assert(as_ints(self.ends@) =~= before_ends.push(n as int));
            if listing is None {
                assert(data_of(self.nodes@) =~= at.nodes + Seq::<DataModel>::empty());
            }
        }
    }

    /// The tree that the walk has built. A directory that the walk has not
    /// dealt with yet stands in it without children.
    pub fn finish(self) -> (tree: FileTree)
        requires
            self.wf(),
        ensures
            tree@ == built_tree(self@),
            tree_wf(tree@),
            tree.source_path() == self.source_path(),
    {
        let ghost m = self@;
        proof {
            lemma_built_tree_wf(m);
            reveal(walk_wf);
        }
        let TreeBuilder { source, nodes, ends } = self;
        let mut nodes = nodes;
        let total = nodes.len();
        let mut built: VecDeque<FileTreeNode> = VecDeque::new();
        let mut i: usize = total;
        while i > 0
            invariant
                i <= total,
                total == m.nodes.len(),
                walk_wf(m),
                m.ends == as_ints(ends@),
                data_of(nodes@) == m.nodes.take(i as int),
                ends@.len() <= total,
                i <= range_start(m, i as int) <= total,
                built@.len() == range_start(m, i as int) - i,
                forall|p: int|
                    0 <= p < built@.len() ==> (#[trigger] built@[p])@ == subtree(
                        m,
                        range_start(m, i as int) - 1 - p,
                    ),
            decreases i,
        {
            let ghost hi = range_start(m, i as int);
            let index: usize = i - 1;
            let end: usize = if index < ends.len() {
                ends[index]
            } else {
                total
            };
            let first: usize = if index == 0 {
                1
            } else if index - 1 < ends.len() {
                ends[index - 1]
            } else {
                total
            };
            proof {
                if index < ends@.len() {
                    assert(m.ends[index as int] == ends@[index as int] as int);
                }
                if index > 0 && index - 1 < ends@.len() {
                    assert(m.ends[index - 1] == ends@[index - 1] as int);
                }
                lemma_subtree_unfold(m, index as int);
            }
            let ghost queue_before = built@;
            let children = take_front_reversed(&mut built, end - first);
            proof {
                assert forall|p: int| 0 <= p < children@.len() implies (#[trigger] children@[p])@
                    == subtree(m, first + p) by {
                    assert(children@[p] == queue_before[end - first - 1 - p]);
                }
                assert forall|p: int| 0 <= p < built@.len() implies (#[trigger] built@[p])@
                    == subtree(m, first - 1 - p) by {
                    assert(built@[p] == queue_before[p + (end - first)]);
                }
            }
            let ghost rest = data_of(nodes@);
            let ghost rest_nodes = nodes@;
            assert(rest.len() == i);
            match nodes.pop() {
                Some(data) => {
                    proof {
                        assert(rest[index as int] == data@);
                        assert(rest[index as int] == m.nodes[index as int]);
                        assert(data_of(nodes@).len() == index);
                        assert forall|j: int| 0 <= j < index implies data_of(nodes@)[j]
                            == m.nodes.take(index as int)[j] by {
                            assert(data_of(nodes@)[j] == nodes@[j]@);
                            assert(rest[j] == nodes@[j]@);
                            assert(rest[j] == m.nodes.take(i as int)[j]);
                        }
                        assert(data_of(nodes@) =~= m.nodes.take(index as int));
                    }
                    let node = FileTreeNode::with_children(data, children);
                    proof {
                        assert(node@.children.len() == subtree(m, index as int).children.len());
                        assert forall|p: int| 0 <= p < node@.children.len() implies node@.children[p]
                            == subtree(m, index as int).children[p] by {
                            assert(node@.children[p] == children@[p]@);
                        }
                        assert(node@.children =~= subtree(m, index as int).children);
                        assert(node@ == subtree(m, index as int));
                    }
                    let ghost queue = built@;
                    built.push_back(node);
                    proof {
                        assert forall|p: int| 0 <= p < built@.len() implies (
                        #[trigger] built@[p])@ == subtree(m, first - 1 - p) by {
                            if p < queue.len() {
                                assert(built@[p] == queue[p]);
                            } else {
                                assert(built@[p] == node);
                            }
                        }
                    }
                },
                None => {
                    assert(false);
                },
            }
            i = index;
        }
        match built.pop_front() {
            Some(root) => FileTree::with_source(root, source),
            None => vstd::pervasive::unreached(),
        }
    }
}

/// Takes `count` nodes from the front of `queue` and gives them back, the
/// one taken last first.
fn take_front_reversed(queue: &mut VecDeque<FileTreeNode>, count: usize) -> (taken: Vec<
    FileTreeNode,
>)
    requires
        count <= old(queue)@.len(),
    ensures
        taken@.len() == count,
        final(queue)@ == old(queue)@.skip(count as int),
        forall|p: int| 0 <= p < count ==> #[trigger] taken@[p] == old(queue)@[count - 1 - p],
{
    let mut popped: Vec<FileTreeNode> = Vec::new();
    let mut n: usize = 0;
    assert(queue@ =~= old(queue)@.skip(0));
    while n < count
        invariant
            n <= count <= old(queue)@.len(),
            popped@.len() == n,
            queue@ == old(queue)@.skip(n as int),
            forall|p: int| 0 <= p < n ==> #[trigger] popped@[p] == old(queue)@[p],
        decreases count - n,
    {
        match queue.pop_front() {
            Some(node) => {
                popped.push(node);
                assert(queue@ =~= old(queue)@.skip(n + 1));
            },
            None => {
                assert(false);
            },
        }
        n += 1;
    }
    let mut taken: Vec<FileTreeNode> = Vec::new();
    while popped.len() > 0
        invariant
            taken@.len() + popped@.len() == count,
            count <= old(queue)@.len(),
            forall|p: int| 0 <= p < popped@.len() ==> #[trigger] popped@[p] == old(queue)@[p],
            forall|p: int|
                0 <= p < taken@.len() ==> #[trigger] taken@[p] == old(queue)@[count - 1 - p],
        decreases popped@.len(),
    {
        match popped.pop() {
            Some(node) => {
                taken.push(node);
            },
            None => {
                assert(false);
            },
        }
    }
    taken
}

/// The children of node `i` stand behind it, side by side, and end where
/// those of the next node begin.
proof fn lemma_subtree_unfold(m: WalkModel, i: int)
    requires
        walk_wf(m),
        0 <= i < m.nodes.len(),
    ensures
        i < range_start(m, i) <= range_end(m, i) <= m.nodes.len(),
        range_start(m, i + 1) == range_end(m, i),
        subtree(m, i).data == m.nodes[i],
        subtree(m, i).children.len() == range_end(m, i) - range_start(m, i),
        forall|k: int|
            0 <= k < range_end(m, i) - range_start(m, i) ==> #[trigger] subtree(m, i).children[k]
                == subtree(m, range_start(m, i) + k),
{
    reveal(walk_wf);
    if i < m.ends.len() {
        assert(i + 1 <= range_start(m, i) <= m.ends[i]);
    } else if i > 0 {
        if i - 1 < m.ends.len() {
            assert(i == m.ends.len());
        }
    }
}

/// Whether the node is a directory.
fn is_directory(data: &FileTreeNodeData) -> (r: bool)
    ensures
        r == (data@.ftype == DDiveFileType::Directory),
{
    match data.ftype() {
        DDiveFileType::Directory => true,
        _ => false,
    }
}

/// The name on disk of an entry.
pub open spec fn entry_name() -> spec_fn(EntryModel) -> Seq<char> {
    |e: EntryModel| e.name
}

/// The entries whose metadata could be read are those of the listing
/// that have metadata.
proof fn lemma_readable_entries(entries: Seq<EntryModel>)
    ensures
        forall|e: EntryModel|
            entries.filter(is_readable()).contains(e) <==> (entries.contains(e)
                && e.metadata is Some),
{
    let kept = entries.filter(is_readable());
    assert forall|e: EntryModel| kept.contains(e) <==> (entries.contains(e)
        && e.metadata is Some) by {
        if kept.contains(e) {
            entries.lemma_filter_contains_rev(is_readable(), e);
            let k = choose|k: int| 0 <= k < kept.len() && kept[k] == e;
            entries.lemma_filter_pred(is_readable(), k);
        }
        if entries.contains(e) && e.metadata is Some {
            let i = choose|i: int| 0 <= i < entries.len() && entries[i] == e;
            entries.lemma_filter_contains(is_readable(), i);
        }
    }
}

/// Where no two entries of a listing share a name, no two of those whose
/// metadata could be read do.
proof fn lemma_readable_distinct(entries: Seq<EntryModel>)
    requires
        distinct_names(entries, entry_name()),
    ensures
        distinct_names(entries.filter(is_readable()), entry_name()),
    decreases entries.len(),
{
    reveal(Seq::filter);
    if entries.len() > 0 {
        let front = entries.drop_last();
        assert(distinct_names(front, entry_name())) by {
            assert forall|p: int, q: int| 0 <= p < q < front.len() implies entry_name()(
                #[trigger] front[p],
            ) != entry_name()(#[trigger] front[q]) by {
                assert(front[p] == entries[p] && front[q] == entries[q]);
            }
        }
        lemma_readable_distinct(front);
        lemma_readable_entries(front);
        let kept = entries.filter(is_readable());
        let kept_front = front.filter(is_readable());
        assert forall|p: int, q: int| 0 <= p < q < kept.len() implies entry_name()(
            #[trigger] kept[p],
        ) != entry_name()(#[trigger] kept[q]) by {
            if q < kept_front.len() {
                assert(kept[p] == kept_front[p] && kept[q] == kept_front[q]);
            } else {
                assert(kept[q] == entries.last());
                assert(kept[p] == kept_front[p]);
                assert(kept_front.contains(kept_front[p]));
                assert(front.contains(kept_front[p]));
                let i = choose|i: int| 0 <= i < front.len() && front[i] == kept_front[p];
                assert(entries[i] == kept[p]);
                assert(entry_name()(entries[i]) != entry_name()(entries[entries.len() - 1]));
            }
        }
    }
}

/// The children that a directory's node gets do not depend on the order
/// in which the directory was listed: two listings that hold the same
/// entries, no name twice, give the same children in the same order.
pub proof fn lemma_listing_order_free(
    parent: DataModel,
    first: Seq<EntryModel>,
    second: Seq<EntryModel>,
)
    requires
        same_items(first, second),
        distinct_names(first, entry_name()),
        distinct_names(second, entry_name()),
    ensures
        listed_children(parent, first) == listed_children(parent, second),
{
    let a = first.filter(is_readable());
    let b = second.filter(is_readable());
    lemma_readable_entries(first);
    lemma_readable_entries(second);
    lemma_readable_distinct(first);
    lemma_readable_distinct(second);
    assert(same_items(a, b)) by {
        assert forall|e: EntryModel| a.contains(e) <==> b.contains(e) by {
            assert(first.contains(e) <==> second.contains(e));
        }
    }
    lemma_sort_forgets_order(a, b, entry_name());
    assert(entry_names(a) =~= a.map_values(entry_name()));
    assert(entry_names(b) =~= b.map_values(entry_name()));
}

/// Two walks in the same state that take listings of the same entries,
/// in whatever order, are in the same state afterwards, and so build the
/// same tree.
pub proof fn lemma_walk_is_deterministic(
    m: WalkModel,
    first: Seq<EntryModel>,
    second: Seq<EntryModel>,
)
    requires
        same_items(first, second),
        distinct_names(first, entry_name()),
        distinct_names(second, entry_name()),
    ensures
        with_listing(m, Some(first)) == with_listing(m, Some(second)),
        built_tree(with_listing(m, Some(first))) == built_tree(with_listing(m, Some(second))),
{
    let at = at_next_directory(m);
    if at.ends.len() < at.nodes.len() {
        lemma_listing_order_free(at.nodes[at.ends.len() as int], first, second);
    }
}

} // verus!
