//! The browser of the trees of all layers of an image: it shows the tree
//! of one layer at a time.

use crate::docker_image_utils::ImageLayer;
use crate::text::{same_chars, to_chars};
use vstd::prelude::*;

verus! {

/// The browser of the trees of an image's layers.
pub struct MultiTreeBrowserWidget<'a> {
    tree_layers: &'a Vec<ImageLayer>,
}

/// The position of the layer that is shown under the name `name`: the last
/// of `layers` with that name, or -1 where none has it.
pub open spec fn layer_named(layers: Seq<ImageLayer>, name: Seq<char>) -> int
    decreases layers.len(),
{
    if layers.len() == 0 {
        -1
    } else if layers.last().name@ == name {
        layers.len() - 1
    } else {
        layer_named(layers.drop_last(), name)
    }
}

impl<'a> MultiTreeBrowserWidget<'a> {
    /// The layers that the browser knows.
    pub closed spec fn layers(&self) -> Seq<ImageLayer> {
        self.tree_layers@
    }

    /// A browser over the trees of `layers`.
    pub fn new(layers: &'a Vec<ImageLayer>) -> (browser: Self)
        ensures
            browser.layers() == layers@,
    {
        MultiTreeBrowserWidget { tree_layers: layers }
    }

    /// The layer with the name `name`, where the browser knows one. Of
    /// several layers with one name the last is shown.
    pub fn layer(&self, name: &str) -> (found: Option<&'a ImageLayer>)
        ensures
            match found {
                Some(layer) => {
                    let at = layer_named(self.layers(), name@);
                    0 <= at < self.layers().len() && *layer == self.layers()[at]
                },
                None => layer_named(self.layers(), name@) < 0,
            },
    {
        let wanted = to_chars(name);
        let mut i: usize = self.tree_layers.len();
        assert(self.layers().take(i as int) =~= self.layers());
        while i > 0
            invariant
                i <= self.tree_layers.len(),
                wanted@ == name@,
                layer_named(self.layers(), name@) == layer_named(
                    self.layers().take(i as int),
                    name@,
                ),
            decreases i,
        {
            assert(self.layers().take(i as int).last() == self.tree_layers@[i - 1]);
            assert(self.layers().take(i as int).drop_last() =~= self.layers().take(i - 1));
            let here = to_chars(self.tree_layers[i - 1].name.as_str());
            if same_chars(&here, &wanted) {
                return Some(&self.tree_layers[i - 1]);
            }
            i -= 1;
        }
        None
    }
}

} // verus!
