use vstd::hash_map::StringHashMap;
use vstd::prelude::*;

use crate::{encode_simple_string, status_reply};

verus! {

/// The reply that acknowledges a write.
pub open spec fn ok_reply() -> Seq<char> {
    status_reply("OK"@)
}

/// The reply for a key that holds no value.
pub open spec fn nil_reply() -> Seq<char> {
    status_reply("(nil)"@)
}

/// The reply to a read of `key` from the mapping `m`: the stored value itself, or
/// the nil reply when there is none.
pub open spec fn get_reply(m: Map<Seq<char>, Seq<char>>, key: Seq<char>) -> Seq<char> {
    if m.contains_key(key) {
        m[key]
    } else {
        nil_reply()
    }
}

/// The store: a mapping from keys to values, where the last write of a key wins.
pub struct Table {
    cache: StringHashMap<String>,
}

impl View for Table {
    type V = Map<Seq<char>, Seq<char>>;

    closed spec fn view(&self) -> Map<Seq<char>, Seq<char>> {
        self.cache@.map_values(|v: String| v@)
    }
}

impl Table {
    /// An empty store.
    pub fn new() -> (t: Table)
        ensures
            t@ == Map::<Seq<char>, Seq<char>>::empty(),
    {
        let t = Table { cache: StringHashMap::new() };
        assert(t@ =~= Map::<Seq<char>, Seq<char>>::empty());
        t
    }

    /// Maps `key` to `val`, replacing what it held, and acknowledges the write.
    pub fn set(&mut self, key: String, val: String) -> (r: String)
        ensures
            final(self)@ == old(self)@.insert(key@, val@),
            r@ == ok_reply(),
    {
        let ghost k = key@;
        let ghost v = val@;
        self.cache.insert(key, val);
        assert(self@ =~= old(self)@.insert(k, v));
        encode_simple_string("OK")
    }

    /// The value that `key` holds, or the nil reply when it holds none.
    pub fn get(&self, key: String) -> (r: String)
        ensures
            r@ == get_reply(self@, key@),
    {
        match self.cache.get(key.as_str()) {
            Some(v) => v.clone(),
            None => encode_simple_string("(nil)"),
        }
    }

    /// The number of keys that hold a value.
    pub fn len(&self) -> (r: usize)
        ensures
            r == self@.len(),
    {
        assert(self@.dom() =~= self.cache@.dom());
        self.cache.len()
    }
}

} // verus!
