//! The decision logic of a whole-home audio bridge: which speakers play which
//! sources, in which synchronized groups, over which transports and codecs.

pub mod agents;
pub mod anchor;
pub mod announce;
pub mod bytes;
pub mod codec;
pub mod connection;
pub mod device_groups;
pub mod devices;
pub mod feed;
pub mod flac;
pub mod graph;
pub mod groups;
pub mod hosts;
pub mod maps;
pub mod membership;
pub mod meters;
pub mod modules;
pub mod names;
pub mod opening;
pub mod pass;
pub mod reconciler;
pub mod relay;
pub mod resample;
pub mod routing;
pub mod rtp;
pub mod sendspin;
pub mod server;
pub mod targets;
pub mod text;
pub mod wav;
