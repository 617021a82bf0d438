//! Bookkeeping for flattening the layers of an OCI image into one tar stream:
//! whiteout tracking, emitted-path tracking, deferred hard links, and the
//! canonical form of a tar header together with its PAX extensions.

pub mod canonical;
pub mod paths;
pub mod sorting;
pub mod text;
pub mod tracker;
pub mod ustar;
