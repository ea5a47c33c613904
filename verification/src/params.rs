//! The parameter store: what the parameter and wildcard segments of the
//! matched route captured, in the order of capture along the path.

use vstd::prelude::*;
use crate::path::same_bytes;

verus! {

/// One captured parameter.
#[derive(Debug)]
pub struct Param {
    pub name: Vec<u8>,
    pub value: Vec<u8>,
}

impl View for Param {
    type V = (Seq<u8>, Seq<u8>);

    open spec fn view(&self) -> (Seq<u8>, Seq<u8>) {
        (self.name@, self.value@)
    }
}

/// The captured parameters of one match attempt, oldest first.
#[derive(Debug)]
pub struct Params {
    entries: Vec<Param>,
}

impl View for Params {
    type V = Seq<(Seq<u8>, Seq<u8>)>;

    closed spec fn view(&self) -> Seq<(Seq<u8>, Seq<u8>)> {
        Seq::new(self.entries@.len(), |i: int| self.entries@[i]@)
    }
}

/// The value of the first binding of `name`, if there is one.
pub open spec fn lookup(bindings: Seq<(Seq<u8>, Seq<u8>)>, name: Seq<u8>) -> Option<Seq<u8>>
    decreases bindings.len(),
{
    if bindings.len() == 0 {
        None
    } else if bindings[0].0 == name {
        Some(bindings[0].1)
    } else {
        lookup(bindings.drop_first(), name)
    }
}

/// The names of the bindings, in order.
pub open spec fn names_of(bindings: Seq<(Seq<u8>, Seq<u8>)>) -> Seq<Seq<u8>> {
    Seq::new(bindings.len(), |i: int| bindings[i].0)
}

/// What a lookup returned, as a mathematical value.
pub open spec fn found_value(r: Option<&Vec<u8>>) -> Option<Seq<u8>> {
    match r {
        Some(value) => Some(value@),
        None => None,
    }
}

impl Params {
    /// The empty store.
    pub fn new() -> (params: Params)
        ensures
            params@ == Seq::<(Seq<u8>, Seq<u8>)>::empty(),
    {
        let params = Params { entries: Vec::new() };
        assert(params@ =~= Seq::empty());
        params
    }

    /// The number of bindings.
    pub fn len(&self) -> (n: usize)
        ensures
            n == self@.len(),
    {
        self.entries.len()
    }

    /// Whether nothing was captured.
    pub fn is_empty(&self) -> (empty: bool)
        ensures
            empty == (self@.len() == 0),
    {
        self.entries.len() == 0
    }

    /// The binding at position `index` in capture order.
    pub fn entry(&self, index: usize) -> (param: &Param)
        requires
            index < self@.len(),
        ensures
            param@ == self@[index as int],
    {
        &self.entries[index]
    }

    /// The value bound to `name`: that of the first binding with that name.
    pub fn get(&self, name: &[u8]) -> (value: Option<&Vec<u8>>)
        ensures
            found_value(value) == lookup(self@, name@),
    {
        let mut i: usize = 0;
        assert(self@.skip(0) =~= self@);
        while i < self.entries.len()
            invariant
                i <= self.entries.len(),
                lookup(self@, name@) == lookup(self@.skip(i as int), name@),
            decreases self.entries.len() - i,
        {
            let entry = &self.entries[i];
            assert(self@.skip(i as int)[0] == entry@);
            assert(self@.skip(i as int).drop_first() =~= self@.skip(i + 1));
            if same_bytes(entry.name.as_slice(), name) {
                return Some(&entry.value);
            }
            i += 1;
        }
        None
    }

    /// Adds a binding behind the others.
    pub(crate) fn bind(&mut self, name: Vec<u8>, value: Vec<u8>)
        ensures
            final(self)@ == old(self)@.push((name@, value@)),
    {
        self.entries.push(Param { name, value });
        assert(self@ =~= old(self)@.push((name@, value@)));
    }

    /// Drops every binding from position `len` on.
    pub(crate) fn unwind(&mut self, len: usize)
        requires
            len <= old(self)@.len(),
        ensures
            final(self)@ == old(self)@.take(len as int),
    {
        self.entries.truncate(len);
        assert(self@ =~= old(self)@.take(len as int));
    }
}

} // verus!
