//! The decision logic behind the Knot desktop app, held to contracts.
//!
//! The composer's scanner (what a half-typed prompt is made of, and how an
//! edit changes that), the edit recovered from two buffers and how each
//! construct is drawn, the rules the git watch, the git panel and the
//! commit window apply, what the dashboards and the sidebar draw from the
//! agent store, the bug report's text and hand-off, the agent editor's form
//! rules, and the small decisions the app's state makes about selection,
//! notifications and inbox nudges.

pub mod text;
pub mod strings;
pub mod composer_scan;
pub mod composer_style;
pub mod paths;
pub mod bug_report;
pub mod app_state;
pub mod agent_menu;
pub mod about;
pub mod avatar;
pub mod agent_editor;
pub mod git_panel;
pub mod processes;
pub mod dashboard;
pub mod riff;
pub mod appearance;
pub mod import_window;
pub mod external_tools;
pub mod agent_store;
pub mod command_center;
pub mod commit_window;
