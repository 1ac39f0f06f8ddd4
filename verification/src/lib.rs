//! Verified core of the gfty Gridfinity label and bin tool.
pub mod strings;
pub mod text;
pub mod hexcolor;
pub mod palette;
pub mod color;
pub mod step;
pub mod config;
pub mod create;
pub mod bin_config;
pub mod component_config;
pub mod credentials;
pub mod onshape;
pub mod artifact_cache;
pub mod quick;
pub mod compose;
pub mod sidecar;
pub mod listing;
pub mod watch;
pub mod preview;
pub mod svgcolors;
pub mod svgtemplate;
