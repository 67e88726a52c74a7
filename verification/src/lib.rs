//! Keeping a dotfile tree, its chezmoi source and the git remote behind it in step:
//! drift classification, structured merging, template write-back and the decisions
//! of the desktop front end, each with its contract.

pub mod chezmoi;
pub mod cmd;
pub mod drift;
pub mod git;
pub mod ipc;
pub mod json;
pub mod logging;
pub mod merge;
pub mod merge_inputs;
pub mod merge_state;
pub mod model;
pub mod notify_osa;
pub mod paths;
pub mod proto;
pub mod report;
pub mod resolve;
pub mod scanner;
pub mod supervisor;
pub mod template;
pub mod text;
pub mod theme;
pub mod update;
pub mod views;
