//! The browser of one layer's tree, narrowed by the search typed so far.

use crate::docker_file_tree::DDiveFileType;
use crate::docker_image_utils::ImageLayer;
use crate::exceptions::GUIError;
use crate::file_tree::{filtered, FileTree};
use vstd::prelude::*;
use vstd::string::StringExecFns;

verus! {

/// The browser of one layer's tree.
pub struct TreeBrowserWidget<'a> {
    corresponding_layer: &'a ImageLayer,
}

/// The name under which an entry stands in the browser: its visible
/// name, marked where the entry is of no kind that can be shown.
pub open spec fn label_text(name: Seq<char>, ftype: DDiveFileType) -> Seq<char> {
    match ftype {
        DDiveFileType::Badfile => name + " (invalid)"@,
        _ => name,
    }
}

impl<'a> TreeBrowserWidget<'a> {
    /// The layer that the browser shows.
    pub closed spec fn layer(&self) -> ImageLayer {
        *self.corresponding_layer
    }

    /// A browser over the tree of `layer`.
    pub fn new(layer: &'a ImageLayer) -> (browser: Self)
        ensures
            browser.layer() == *layer,
    {
        TreeBrowserWidget { corresponding_layer: layer }
    }

    /// The layer that the browser shows.
    pub fn corresponding_layer(&self) -> (layer: &'a ImageLayer)
        ensures
            *layer == self.layer(),
    {
        self.corresponding_layer
    }

    /// The tree that the browser shows for the search typed so far, and
    /// whether the search matches nothing: it then shows the whole tree.
    pub fn shown_tree(&self, search: &str) -> (shown: (FileTree, bool))
        ensures
            shown.0@ == filtered(self.layer().tree@, search@).0,
            shown.1 == (filtered(self.layer().tree@, search@).1 is Some),
    {
        let (tree, error) = self.corresponding_layer.tree.filter_tree_full_path(search);
        match error {
            Some(GUIError::CantFilterTree) => (tree, true),
            None => (tree, false),
        }
    }

    /// The name under which an entry stands in the browser.
    pub fn entry_label(name: &str, ftype: DDiveFileType) -> (label: String)
        ensures
            label@ == label_text(name@, ftype),
    {
        match ftype {
            DDiveFileType::Badfile => String::from_str(name).concat(" (invalid)"),
            _ => String::from_str(name),
        }
    }
}

} // verus!
