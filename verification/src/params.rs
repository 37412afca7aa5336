//! Path parameters extracted by the router from a matched request path.

use vstd::prelude::*;
use vstd::string::{StrSliceExecFns, StringSliceAdditionalSpecFns};
use crate::strutil;

verus! {

/// First-match lookup over a sequence of (key, value) byte pairs.
pub open spec fn lookup(s: Seq<(Seq<u8>, Seq<u8>)>, k: Seq<u8>) -> Option<Seq<u8>>
    decreases s.len(),
{
    if s.len() == 0 {
        None
    } else if s[0].0 == k {
        Some(s[0].1)
    } else {
        lookup(s.drop_first(), k)
    }
}

/// Ordered name-to-value bindings of one resolved request.
#[derive(Debug, Clone)]
pub struct Params {
    pub data: Vec<(String, String)>,
}

impl View for Params {
    type V = Seq<(Seq<u8>, Seq<u8>)>;

    open spec fn view(&self) -> Seq<(Seq<u8>, Seq<u8>)> {
        self.data@.map_values(|p: (String, String)| (strutil::str_bytes(p.0), strutil::str_bytes(p.1)))
    }
}

impl Params {
    /// An empty parameter set.
    pub fn new() -> (r: Params)
        ensures
            r@.len() == 0,
    {
        Params { data: Vec::new() }
    }

    /// The value bound to `key`, if any.
    pub fn get(&self, key: &str) -> (r: Option<&str>)
        ensures
            match lookup(self@, key.spec_bytes()) {
                Some(v) => r is Some && r.unwrap().spec_bytes() == v,
                None => r is None,
            },
    {
        let mut i: usize = 0;
        proof {
            assert(self@.skip(0) =~= self@);
        }
        while i < self.data.len()
            invariant
                i <= self.data@.len(),
                lookup(self@, key.spec_bytes()) == lookup(self@.skip(i as int), key.spec_bytes()),
            decreases self.data@.len() - i,
        {
            proof {
                assert(self@.skip(i as int)[0] == self@[i as int]);
                assert(self@.skip(i as int).drop_first() =~= self@.skip(i as int + 1));
            }
            if strutil::bytes_eq(self.data[i].0.as_str().as_bytes(), key.as_bytes()) {
                return Some(self.data[i].1.as_str());
            }
            i += 1;
        }
        None
    }

    /// Binds `key` to `value`, shadowing any earlier binding of the same key.
    pub fn insert(&mut self, key: String, value: String)
        ensures
            final(self)@ == seq![
                (strutil::str_bytes(key), strutil::str_bytes(value)),
            ] + old(self)@,
    {
        self.data.insert(0, (key, value));
        proof {
            assert(self@ =~= seq![
                (strutil::str_bytes(self.data@[0].0), strutil::str_bytes(self.data@[0].1)),
            ] + old(self)@);
        }
    }

    /// Appends a binding after the existing ones.
    pub fn push(&mut self, key: String, value: String)
        ensures
            final(self)@ == old(self)@ + seq![
                (strutil::str_bytes(key), strutil::str_bytes(value)),
            ],
    {
        self.data.push((key, value));
        proof {
            let n = self.data@.len() - 1;
            assert(self@ =~= old(self)@ + seq![
                (strutil::str_bytes(self.data@[n].0), strutil::str_bytes(self.data@[n].1)),
            ]);
        }
    }

    /// The number of bindings.
    pub fn len(&self) -> (r: usize)
        ensures
            r == self@.len(),
    {
        self.data.len()
    }

    /// Mutable access to the underlying bindings.
    pub fn inner_mut(&mut self) -> (r: &mut Vec<(String, String)>)
        ensures
            *r == old(self).data,
            final(self).data == *final(r),
    {
        &mut self.data
    }
}

impl Default for Params {
    fn default() -> (r: Params)
        ensures
            r@.len() == 0,
    {
        Params { data: Vec::new() }
    }
}

} // verus!
