//! The virtual file system: the mount tree, directories and their caches.
pub mod maps;
pub mod entry;
pub mod propagation;
pub mod mount;
pub mod tree;
pub mod mount_ops;
pub mod groups;
pub mod propagate;
pub mod unmounting;
pub mod subtree;
pub mod spread_rules;
pub mod location;
pub mod node;
pub mod dir;
pub mod inmem;
pub mod forget;
