pub use self::binary_search_tree::BinarySearchTree;
pub use self::heap::Heap;
pub use self::linked_list::LinkedList;
pub use self::stack::{IntoIter, Iter, IterMut, Stack};
pub use self::union_find::UnionFind;

mod binary_search_tree;
mod heap;
mod linked_list;
mod stack;
mod union_find;
