//! A verified core for a media collection server: a virtual file system
//! that maps named mount points onto real directory trees, a collection
//! browser that lists and flattens media entries through that mapping,
//! and the pure planning half of a content-addressed thumbnail cache.

pub mod error;
pub mod service;
pub mod text;
pub mod vfs;
pub mod collection;
pub mod thumbnails;
