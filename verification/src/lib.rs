//! Verified building blocks of an rsync implementation: the file-list wire
//! encoding and the include/exclude filter rules.

pub mod filelist;
pub mod filters;
