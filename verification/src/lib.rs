//! greep: a small grep whose search algorithms, argument resolution, file-list
//! handling and run bookkeeping are verified with Verus.
pub mod loader;
pub mod search;
pub mod filelist;
pub mod options;
pub mod report;
pub mod path_identity;
