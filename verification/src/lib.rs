pub mod docker_file_tree;
pub mod docker_image_utils;
pub mod exceptions;
pub mod file_tree;
pub mod gui_app;
pub mod json;
pub mod sorting;
pub mod text;
pub mod tree_builder;
pub mod widgets;
