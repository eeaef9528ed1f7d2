pub mod ascii;
pub mod bits;
pub mod bump_allocator;
pub mod inline_vec;
pub mod misc;
pub mod prefix_tree;
pub mod str_interner;
pub mod str_list;
