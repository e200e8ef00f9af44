use std::collections::hash_map::DefaultHasher;
use std::hash::Hasher;
use vstd::prelude::*;
use vstd::std_specs::hash::DefaultHasherAdditionalSpecFns;
use vstd::string::StringSliceAdditionalSpecFns;
use vstd::utf8::encode_utf8;

verus! {

/// Channel ID: the hash of one topic segment.
pub type ChanID = u64;

/// The byte that `str`'s `Hash` impl writes after the string's bytes, so that
/// the encoding is prefix-free.
pub const STR_HASH_TERMINATOR: u8 = 0xff;

/// The hash of a string: `DefaultHasher` fed the string's UTF-8 bytes and then
/// the terminator byte, exactly as `<str as Hash>::hash` feeds it.
pub open spec fn chan_hash(s: Seq<char>) -> u64 {
    DefaultHasher::spec_finish(seq![encode_utf8(s), seq![STR_HASH_TERMINATOR]])
}

/// Hash a string with the process-wide deterministic `DefaultHasher`.
pub fn hash_str(s: &str) -> (r: u64)
    ensures
        r == chan_hash(s@),
{
    let mut h = DefaultHasher::new();
    h.write(s.as_bytes());
    let term: [u8; 1] = [STR_HASH_TERMINATOR];
    h.write(&term);
    proof {
        assert(term@ =~= seq![STR_HASH_TERMINATOR]);
        assert(h@ =~= seq![encode_utf8(s@), seq![STR_HASH_TERMINATOR]]);
    }
    h.finish()
}

} // verus!
