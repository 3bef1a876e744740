pub mod focus_traits;
pub mod layer_browser_widget;
pub mod multitree_browser_widget;
pub mod navigation_traits;
pub mod searchbar;
pub mod tree_browser_widget;
