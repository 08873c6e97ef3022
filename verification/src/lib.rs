//! Repackages an entry-oriented source archive (records that are either
//! content items or redirects) into a container made of three logical packs:
//! a content pack holding the payload bytes, a directory pack holding one
//! entry per path, and a manifest pack binding the packs together.
//!
//! The conversion enumerates the records once, filters them by namespace,
//! registers every content item in the content pack, emits every content
//! entry before any redirect entry, synthesizes a root redirect when no
//! record produced one, and lays the packs out according to a concatenation
//! mode.

pub mod assemble;
pub mod content;
pub mod convert;
pub mod dropper;
pub mod entry;
pub mod mime;
pub mod pipeline;
pub mod record;
pub mod store;
