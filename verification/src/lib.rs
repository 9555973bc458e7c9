pub mod order;
pub mod side;
pub mod red_black_node;
pub mod binary_tree;
pub mod serialization;
pub mod red_black_tree;
pub mod semigroup_rb_tree;
pub mod cartesian_tree;
pub mod traversal;
pub mod search_map;
pub mod balance;
pub mod neighbors;
