//! Core model of a daemon that drives panels of LCD keys: the panel stack of
//! each device, the plugin registry with its feature gate, typed UI values
//! with their path editor and JSON form, the decisions of the render
//! pipeline, and the framing of the local IPC protocol.

pub mod codec;
pub mod device;
pub mod devices;
pub mod methods;
pub mod modules;
pub mod panel;
pub mod rendering;
pub mod socket;
pub mod value;
pub mod versions;
