//! The parameter container produced by a successful lookup: ordered
//! (name, value) pairs of owned byte runs, the name taken from the winning
//! route's pattern and the value copied out of the queried path.

use crate::bytes::bytes_eq;
use vstd::prelude::*;

verus! {

/// Ordered (name, value) pairs bound by a successful lookup.
pub struct Params {
    items: Vec<(Vec<u8>, Vec<u8>)>,
}

impl View for Params {
    type V = Seq<(Seq<u8>, Seq<u8>)>;

    closed spec fn view(&self) -> Seq<(Seq<u8>, Seq<u8>)> {
        self.items@.map_values(|p: (Vec<u8>, Vec<u8>)| (p.0@, p.1@))
    }
}

impl Params {
    pub fn new() -> (r: Self)
        ensures
            r@ == Seq::<(Seq<u8>, Seq<u8>)>::empty(),
    {
        let r = Self { items: Vec::new() };
        proof {
            assert(r@ =~= Seq::<(Seq<u8>, Seq<u8>)>::empty());
        }
        r
    }

    pub(crate) fn push(&mut self, name: Vec<u8>, value: Vec<u8>)
        ensures
            final(self)@ == old(self)@ + seq![(name@, value@)],
    {
        self.items.push((name, value));
        proof {
            assert(self@ =~= old(self)@ + seq![(name@, value@)]);
        }
    }

    /// How many parameters the winning route bound.
    pub fn len(&self) -> (n: usize)
        ensures
            n == self@.len(),
    {
        self.items.len()
    }

    pub fn is_empty(&self) -> (b: bool)
        ensures
            b <==> self@.len() == 0,
    {
        self.items.len() == 0
    }

    /// The name of the `i`-th bound parameter.
    pub fn name_at(&self, i: usize) -> (r: &Vec<u8>)
        requires
            i < self@.len(),
        ensures
            r@ == self@[i as int].0,
    {
        &self.items[i].0
    }

    /// The value bound to the `i`-th parameter.
    pub fn value_at(&self, i: usize) -> (r: &Vec<u8>)
        requires
            i < self@.len(),
        ensures
            r@ == self@[i as int].1,
    {
        &self.items[i].1
    }

    /// The value bound to the first parameter named `key`, if any.
    pub fn get(&self, key: &[u8]) -> (r: Option<&Vec<u8>>)
        ensures
            match r {
                Some(v) => exists|i: int|
                    0 <= i < self@.len() && (#[trigger] self@[i]).0 == key@ && v@ == self@[i].1
                        && (forall|j: int| 0 <= j < i ==> self@[j].0 != key@),
                None => forall|i: int| 0 <= i < self@.len() ==> self@[i].0 != key@,
            },
    {
        let mut i: usize = 0;
        while i < self.items.len()
            invariant
                0 <= i <= self@.len(),
                self@.len() == self.items@.len(),
                forall|j: int| 0 <= j < i ==> self@[j].0 != key@,
            decreases self@.len() - i,
        {
            if bytes_eq(self.items[i].0.as_slice(), key) {
                proof {
                    assert(self@[i as int].0 == key@);
                }
                return Some(&self.items[i].1);
            }
            i = i + 1;
        }
        None
    }

    /// The (name, value) pair of the first parameter named `key`, if any.
    pub fn get_key_value(&self, key: &[u8]) -> (r: Option<(&Vec<u8>, &Vec<u8>)>)
        ensures
            match r {
                Some(pr) => exists|i: int|
                    0 <= i < self@.len() && (#[trigger] self@[i]).0 == key@ && pr.0@ == self@[i].0
                        && pr.1@ == self@[i].1 && (forall|j: int|
                        0 <= j < i ==> self@[j].0 != key@),
                None => forall|i: int| 0 <= i < self@.len() ==> self@[i].0 != key@,
            },
    {
        let mut i: usize = 0;
        while i < self.items.len()
            invariant
                0 <= i <= self@.len(),
                self@.len() == self.items@.len(),
                forall|j: int| 0 <= j < i ==> self@[j].0 != key@,
            decreases self@.len() - i,
        {
            if bytes_eq(self.items[i].0.as_slice(), key) {
                proof {
                    assert(self@[i as int].0 == key@);
                }
                return Some((&self.items[i].0, &self.items[i].1));
            }
            i = i + 1;
        }
        None
    }
}

} // verus!
