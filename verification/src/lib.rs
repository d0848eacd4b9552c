//! The decision core of a node-graph audio router.
//!
//! Every rule that the desktop program follows stands here, free of windows,
//! menus and audio services: the program reports what happened and carries out
//! what these functions answer.

pub mod editor;
pub mod icon;
pub mod links;
pub mod node;
pub mod outside;
pub mod raster;
pub mod shell;
