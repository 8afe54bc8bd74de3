use vstd::prelude::*;

verus! {

/// A key and the value stored under it.
#[derive(Clone, Debug)]
pub struct KVPair {
    pub key: String,
    pub val: String,
}

impl KVPair {
    pub fn new(key: String, val: String) -> (p: Self)
        ensures
            p.key == key,
            p.val == val,
    {
        KVPair { key, val }
    }
}

/// Feeds a string's bytes into a hasher. Nothing is claimed of what the hasher
/// holds afterwards.
pub assume_specification<H: std::hash::Hasher>[ <std::string::String as std::hash::Hash>::hash::<H> ](
    s: &std::string::String,
    state: &mut H,
);

impl core::hash::Hash for KVPair {
    /// A pair hashes as its key alone.
    fn hash<H: core::hash::Hasher>(&self, state: &mut H) {
        self.key.hash(state);
    }
}

} // verus!
