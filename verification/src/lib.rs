//! The rules behind a terminal manager for Attack Surface Reduction exclusions.

pub mod app;
pub mod app_laws;
pub mod cover_laws;
pub mod elevation;
pub mod elevation_laws;
pub mod event_laws;
pub mod events;
pub mod json;
pub mod keys;
pub mod layout;
pub mod model;
pub mod operation_laws;
pub mod path_laws;
pub mod paths;
pub mod powershell;
pub mod powershell_laws;
pub mod row_laws;
pub mod screen;
pub mod screen_laws;
pub mod target_laws;
pub mod text;
pub mod text_laws;
pub mod view_laws;
