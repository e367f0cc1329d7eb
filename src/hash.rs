use std::collections::hash_map::DefaultHasher;
use std::hash::Hasher;
use vstd::prelude::*;
use vstd::std_specs::hash::DefaultHasherAdditionalSpecFns;
use vstd::utf8::encode_utf8;

verus! {

/// The hash of a text: std's default hasher fed with its UTF-8 bytes.
pub open spec fn text_hash(t: Seq<char>) -> u64 {
    DefaultHasher::spec_finish(seq![encode_utf8(t)])
}

/// A value that can be reduced to a 64-bit hash.
pub trait HashValue {
    spec fn hash_spec(&self) -> u64;

    fn hash_value(&self) -> (r: u64)
        ensures
            r == self.hash_spec(),
    ;
}

impl HashValue for str {
    open spec fn hash_spec(&self) -> u64 {
        text_hash(self@)
    }

    fn hash_value(&self) -> (r: u64) {
        let mut hasher = DefaultHasher::new();
        hasher.write(self.as_bytes());
        hasher.finish()
    }
}

impl HashValue for String {
    open spec fn hash_spec(&self) -> u64 {
        text_hash(self@)
    }

    fn hash_value(&self) -> (r: u64) {
        self.as_str().hash_value()
    }
}

} // verus!
