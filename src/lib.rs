//! Projects a flat directory of date-and-tag-named files into a tree of tag
//! folders holding symbolic links.
//!
//! The library holds the logic: parsing a file name into an item, the
//! collection operations (distinct tags, distinct names, tag filtering) and
//! the projection engine, which computes the ordered list of folders and links
//! that make up the tree. Performing those steps on disk is left to the caller.
pub mod name;
pub mod collection;
pub mod projection;
