//! Descriptor pools for gRPC clients: what is decided and computed on the way from `.proto` files,
//! or from the reflection service of a server, to a pool of descriptors.
//!
//! Files under a protobuf edition are put in the terms of `proto2` ([`editions`], with [`reading`]
//! and [`writing`] for their messages, and [`lowering`] and [`features`] for what they say) before
//! they are added to a [`pool`], if that can look at them ([`readable`]: by the [`rules`] with
//! [`escape`], by the [`imports`], and by what their options [`reach`] of the [`declarations`], of
//! which [`notes`] are kept). Files that a server sends are added after the files that they import,
//! which are asked for where they are missing ([`loader`] and [`reflection`], by the order of
//! [`topology`]). Files on disk are compiled by other programs, which [`protoc`], [`buf`] and
//! [`tool`] have called.
//!
//! What becomes of the features of a file is told by [`inheritance`], and which files a pool looks
//! at by [`acceptance`], both in the terms of what the files hold.

pub mod acceptance;
mod adjacency;
pub mod any;
pub mod buf;
pub mod declarations;
pub mod dynamic;
pub mod editions;
pub mod error;
pub mod escape;
pub mod features;
pub mod imports;
pub mod inheritance;
pub mod loader;
pub mod lowering;
pub mod method;
pub mod nesting;
pub mod notes;
pub mod pool;
pub mod protoc;
pub mod reach;
pub mod readable;
pub mod reading;
pub mod reflection;
pub mod reply;
pub mod rules;
pub mod text;
pub mod tool;
pub mod topology;
pub mod writing;

pub use adjacency::Node;
