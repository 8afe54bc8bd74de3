pub mod hnode;
pub mod htable;
pub mod hmap;
pub mod pair;

pub use hnode::HNode;
pub use htable::HTab;
pub use hmap::HMap;
pub use pair::KVPair;
