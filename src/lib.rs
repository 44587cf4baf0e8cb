pub mod descent;
pub mod int_tree;
pub mod laws;
pub mod node;
pub mod order;
pub mod sort;
pub mod tree;
pub mod walk;
