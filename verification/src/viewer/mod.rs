//! What the viewer decides: which scene to show, and what keys, panels and the
//! page around it do.

pub mod controls;
pub mod export;
pub mod input;
pub mod overlay;
pub mod saved_view;
pub mod scene;
