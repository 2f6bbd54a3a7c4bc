//! Collects file records (path segments, size, optional content) and renders
//! them as a single XML document: an instructions block, an escaped ASCII tree
//! view of the file hierarchy, and one `file` element per recorded file, all
//! in a deterministic, lexicographically sorted order. Around that core stand
//! the collaborators: a directory walker that lists the files to record, and
//! an approximate token counter for the collected text.

pub mod cli;
pub mod fileinfo;
pub mod paths;
pub mod render;
pub mod scan;
pub mod strutil;
pub mod tokenizer;
pub mod tree;
pub mod xml;

pub use fileinfo::FileInfo;
pub use scan::scan_directory;
pub use tokenizer::count_tokens;
