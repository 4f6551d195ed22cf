//! An index-addressed arena tree: labeled nodes stored in a dense vector,
//! linked by integer positions instead of pointers.

pub mod arena;
pub mod client;
pub mod nested;
pub mod node;
pub mod obj;
pub mod obj_desc;
pub mod shape;
pub mod text;
pub mod types;
pub mod tree;
pub mod value;
