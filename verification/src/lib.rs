//! A small video-library catalog.
//!
//! A root directory holds video files whose names follow the convention
//! `<channel>__<one separator character><title>`.  Scanning such a directory
//! yields a catalog of channels, each with its videos ordered by file
//! location.  The catalog answers case-insensitive searches over channel
//! names and video titles, looks a video up by exact title, and supports the
//! one mutation of the model: removing a video once it has been moved into a
//! `watched` subdirectory.
//!
//! Directory reading, the file move itself and the player launch are left to
//! the surrounding application; the library works on plain strings and is
//! verified.

pub mod data;
pub mod scan;
pub mod text;
