//! Xonotic server list: the master and status protocols, the server model
//! and snapshot, the pages' views, the settings, the refresh schedule, the
//! hourly activity and its heatmap, with their contracts and laws.

pub mod activity;
pub mod bindings;
pub mod config;
pub mod geo;
pub mod heatmap;
pub mod model;
pub mod protocol;
pub mod qcstatus;
pub mod qfont;
pub mod query;
pub mod refresh;
pub mod server;
pub mod sorting;
pub mod state;
pub mod text;
pub mod view;
pub mod web;
