use std::collections::hash_map::DefaultHasher;
use std::hash::Hasher;
use vstd::prelude::*;
use vstd::std_specs::hash::DefaultHasherAdditionalSpecFns;

verus! {

/// The digest that a fresh `DefaultHasher` gives after a name has been hashed as a
/// string: its UTF-8 bytes followed by the terminating byte `0xff`.
pub open spec fn name_digest(name: Seq<char>) -> u64 {
    DefaultHasher::spec_finish(seq![vstd::utf8::encode_utf8(name), seq![0xffu8]])
}

/// Hashes an attribute or edge name into the 64-bit identifier under which it is stored.
pub fn hash_name(name: &str) -> (h: u64)
    ensures
        h == name_digest(name@),
{
    let mut hasher = DefaultHasher::new();
    hasher.write(name.as_bytes());
    let end: [u8; 1] = [0xffu8];
    assert(end@ =~= seq![0xffu8]);
    hasher.write(&end);
    assert(hasher@ =~= seq![vstd::utf8::encode_utf8(name@), seq![0xffu8]]);
    hasher.finish()
}

/// A named piece of data that can be attached to an entity.
pub trait Attribute {
    const NAME: &'static str;

    fn hash_id(&self) -> (h: u64)
        ensures
            h == name_digest(Self::NAME@),
    {
        hash_name(Self::NAME)
    }
}

} // verus!
