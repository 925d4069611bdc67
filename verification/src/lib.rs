//! Session-isolated multi-instance browser state: the model, the same-site
//! rules and the state operations behind the desktop shell.

pub mod text;
pub mod weburl;
pub mod nav_guard;
pub mod model;
pub mod seq_util;
pub mod ids;
pub mod commands;
pub mod lineage;
pub mod clock;
pub mod webview_registry;
pub mod descent;
pub mod persist;
pub mod cleanup;
pub mod laws;
