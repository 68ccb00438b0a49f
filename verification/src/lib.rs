//! Detects media files whose extension does not match their content and
//! plans the renames that fix them.

pub mod text;
pub mod detect;
pub mod paths;
pub mod naming;
pub mod events;
pub mod apply;
pub mod scan;

pub use vstd::hash_set::StringHashSet;
