//! The radix tree: insertion with prefix splitting and conflict detection,
//! and longest/priority-match lookup with backtracking across overlapping
//! static, parameter and catch-all branches.
//!
//! The lookup algorithm is specified by the recursive spec function
//! [`Node::look`]: at every node, a static child is preferred, then the
//! parameter child, then the catch-all child, and a failed deeper branch
//! falls back to the next alternative. The executable search is proved to
//! return exactly what `look` describes.
//!
//! Lookup cost is linear in the path plus the explored alternatives;
//! pathological route sets with deep overlapping wildcards can force
//! exponential exploration, an inherent property of unanchored backtracking
//! matching.
//!
//! The search is written as verified recursion rather than with an explicit
//! skip stack: its call depth is bounded by the number of nodes along the
//! path, so by the path's length — never by the number of alternatives
//! explored, which only add sequential calls. A caller that accepts paths
//! of unbounded length should bound them before lookup.

use crate::bytes::{common_len, common_prefix_from, copy_range, find_byte, first_in, lemma_common_len, lemma_common_len_is, lemma_first_in, lemma_first_in_is, none_in, prefix_eq, COLON, SLASH, STAR};
use crate::params::Params;
use crate::error::InsertError;
use crate::parser::{marker_set, names_of, route_ok, same_shape, same_slot, slash_set, tail_ok, Segment, SegmentsIter};
use vstd::prelude::*;
use vstd::slice::slice_subrange;

verus! {

/// The value stored where a route terminates, with the ordered parameter
/// names bound while descending from the root to that point. Names are a
/// property of the route, not of the tree position: overlapping routes can
/// bind the same positional slot under different names.
pub(crate) struct Endpoint<T> {
    pub(crate) value: T,
    pub(crate) param_mapping: Vec<Vec<u8>>,
}

/// Static children of a node, keyed by distinct first bytes: `children[i]`
/// starts with the literal byte `indices[i]`.
pub(crate) struct StaticChildren<T> {
    pub(crate) indices: Vec<u8>,
    pub(crate) children: Vec<Node<T>>,
}

/// The parameter child of a node: an optional endpoint for routes that end
/// on the parameter, and an optional continuation for routes that go on.
pub struct ParamNode<T> {
    pub(crate) endpoint: Option<Endpoint<T>>,
    pub(crate) child: Option<Box<Node<T>>>,
}

/// The catch-all child of a node: always terminal, always an endpoint.
pub struct CatchAllNode<T> {
    pub(crate) endpoint: Endpoint<T>,
}

/// One unit of the tree: a literal byte run to match, an optional terminal
/// endpoint, static children keyed by first byte, and at most one parameter
/// child and one catch-all child.
pub struct Node<T> {
    pub(crate) endpoint: Option<Endpoint<T>>,
    pub(crate) matching: Vec<u8>,
    pub(crate) static_children: StaticChildren<T>,
    pub(crate) param_child: Option<ParamNode<T>>,
    pub(crate) catch_all_child: Option<CatchAllNode<T>>,
}

/// The route table: the root fan-out of static children. The root itself has
/// no literal text and no endpoint.
pub struct Tree<T> {
    pub(crate) static_children: StaticChildren<T>,
}

/// What a successful lookup denotes: the stored value, the winning route's
/// parameter names in order, the positional byte runs bound to them, and
/// whether the route was won through a catch-all child.
pub(crate) open spec fn found<T>(ep: Endpoint<T>, vals: Seq<Seq<u8>>, via_catch_all: bool) -> (
    T,
    Seq<Seq<u8>>,
    Seq<Seq<u8>>,
    bool,
) {
    (ep.value, ep.param_mapping@.map_values(|n: Vec<u8>| n@), vals, via_catch_all)
}

/// The first of two alternatives that succeeded, if either did.
pub(crate) open spec fn first_some<A>(a: Option<A>, b: Option<A>) -> Option<A> {
    if a is Some {
        a
    } else {
        b
    }
}

/// `r` with one more bound value `v` in front of its positional values.
pub(crate) open spec fn prepend_val<T>(
    v: Seq<u8>,
    r: Option<(T, Seq<Seq<u8>>, Seq<Seq<u8>>, bool)>,
) -> Option<(T, Seq<Seq<u8>>, Seq<Seq<u8>>, bool)> {
    match r {
        Some(f) => Some((f.0, f.1, seq![v] + f.2, f.3)),
        None => None,
    }
}

/// Positional parameter values as offset ranges into the queried path.
pub(crate) open spec fn offs_ok(offs: Seq<(usize, usize)>, n: int) -> bool {
    forall|i: int| 0 <= i < offs.len() ==> (#[trigger] offs[i]).0 <= offs[i].1 <= n
}

/// The byte runs that a sequence of offset ranges selects from `path`.
pub(crate) open spec fn vals_of(offs: Seq<(usize, usize)>, path: Seq<u8>) -> Seq<Seq<u8>> {
    offs.map_values(|p: (usize, usize)| path.subrange(p.0 as int, p.1 as int))
}

impl<T> StaticChildren<T> {
    /// Shape invariant: parallel arrays, pairwise-distinct key bytes, and
    /// each child's literal text starting with its key byte.
    pub(crate) open spec fn wf(self) -> bool {
        &&& self.indices@.len() == self.children@.len()
        &&& forall|i: int, j: int|
            0 <= i < j < self.indices@.len() ==> self.indices@[i] != self.indices@[j]
        &&& forall|i: int|
            0 <= i < self.children@.len() ==> (#[trigger] self.children@[i]).matching@.len() > 0
                && self.children@[i].matching@[0] == self.indices@[i]
    }

    /// The child whose key byte is `b`, if any: the first such entry.
    pub(crate) open spec fn spec_get(self, b: u8) -> Option<Node<T>> {
        let k = first_in(self.indices@, set![b]);
        if k < self.indices@.len() && k < self.children@.len() {
            Some(self.children@[k])
        } else {
            None
        }
    }

    pub(crate) fn new() -> (s: Self)
        ensures
            s.indices@ == Seq::<u8>::empty(),
            s.children@ == Seq::<Node<T>>::empty(),
    {
        Self { indices: Vec::new(), children: Vec::new() }
    }

    /// The static child keyed by `byte`, found through its first-byte index.
    pub(crate) fn get(&self, byte: u8) -> (r: Option<&Node<T>>)
        requires
            self.indices@.len() == self.children@.len(),
        ensures
            match r {
                Some(c) => self.spec_get(byte) == Some(*c),
                None => self.spec_get(byte) is None,
            },
    {
        match find_byte(byte, self.indices.as_slice()) {
            Some(i) => {
                proof {
                    lemma_first_in_is(self.indices@, set![byte], i as int);
                }
                Some(&self.children[i])
            },
            None => {
                proof {
                    lemma_first_in_is(self.indices@, set![byte], self.indices@.len() as int);
                }
                None
            },
        }
    }
}

impl<T> Node<T> {
    /// Structural well-formedness of the subtree under this node: sound
    /// static-child indexing everywhere, and every parameter continuation
    /// starting with the component separator.
    pub closed spec fn wf_shape(self) -> bool
        decreases self,
    {
        &&& self.static_children.wf()
        &&& forall|i: int|
            0 <= i < self.static_children.children@.len() ==> (#[trigger] self.static_children.children@[i]).wf_shape()
        &&& match self.param_child {
            Some(p) => match p.child {
                Some(c) => c.matching@.len() > 0 && c.matching@[0] == SLASH && c.wf_shape(),
                None => true,
            },
            None => true,
        }
    }

    /// True when this node's literal text opens with the byte `b`: the
    /// property a parent's index key states of it.
    pub closed spec fn keyed_by(self, b: u8) -> bool {
        self.matching@.len() > 0 && self.matching@[0] == b
    }

    /// Bookkeeping invariant: every endpoint stored at a position reached by
    /// `k` parameter bindings carries exactly `k` recorded names.
    pub closed spec fn wf_depth(self, k: int) -> bool
        decreases self,
    {
        &&& match self.endpoint {
            Some(ep) => ep.param_mapping@.len() == k,
            None => true,
        }
        &&& forall|i: int|
            0 <= i < self.static_children.children@.len() ==> (#[trigger] self.static_children.children@[i]).wf_depth(k)
        &&& match self.param_child {
            Some(p) => {
                &&& match p.endpoint {
                    Some(ep) => ep.param_mapping@.len() == k + 1,
                    None => true,
                }
                &&& match p.child {
                    Some(c) => c.wf_depth(k + 1),
                    None => true,
                }
            },
            None => true,
        }
        &&& match self.catch_all_child {
            Some(c) => c.endpoint.param_mapping@.len() == k + 1,
            None => true,
        }
    }

    /// What lookup returns below this node for the remaining `path`:
    /// the literal text must be consumed exactly; with text left over, a
    /// static child is tried first, then the parameter child, then the
    /// catch-all child; with the text exhausted, this node's endpoint wins,
    /// and otherwise a catch-all child takes an empty value.
    pub closed spec fn look(self, path: Seq<u8>) -> Option<(T, Seq<Seq<u8>>, Seq<Seq<u8>>, bool)>
        decreases self, 1int,
        via Self::look_dec
    {
        let m = self.matching@;
        if path.len() > m.len() && path.take(m.len() as int) == m {
            let rest = path.skip(m.len() as int);
            match self.static_children.spec_get(rest[0]) {
                Some(c) => first_some(
                    c.look(rest),
                    first_some(self.look_param(rest), self.look_catch_all(rest)),
                ),
                None => first_some(self.look_param(rest), self.look_catch_all(rest)),
            }
        } else if path == m {
            match self.endpoint {
                Some(ep) => Some(found(ep, Seq::empty(), false)),
                None => self.look_catch_all(Seq::<u8>::empty()),
            }
        } else {
            None
        }
    }

    #[via_fn]
    proof fn look_dec(self, path: Seq<u8>) {
        let m = self.matching@;
        if path.len() > m.len() && path.take(m.len() as int) == m {
            let rest = path.skip(m.len() as int);
            if self.static_children.spec_get(rest[0]) is Some {
                let k = first_in(self.static_children.indices@, set![rest[0]]);
                lemma_first_in(self.static_children.indices@, set![rest[0]]);
                assert(decreases_to!(self => self.static_children));
                assert(decreases_to!(self.static_children => self.static_children.children));
                assert(decreases_to!(self.static_children.children => self.static_children.children@));
                assert(decreases_to!(self.static_children.children@ => self.static_children.children@[k]));
                assert(decreases_to!(self => self.static_children.children@[k]));
            }
        }
    }

    /// The parameter branch at this node: the bound value runs to the next
    /// separator; if nothing follows, the parameter child's own endpoint
    /// decides, else the continuation node is searched.
    pub closed spec fn look_param(self, rest: Seq<u8>) -> Option<
        (T, Seq<Seq<u8>>, Seq<Seq<u8>>, bool),
    >
        decreases self, 0int,
        via Self::look_param_dec
    {
        match self.param_child {
            None => None,
            Some(p) => {
                let k = first_in(rest, slash_set());
                let data = rest.take(k);
                let after = rest.skip(k);
                if after.len() == 0 {
                    match p.endpoint {
                        Some(ep) => Some(found(ep, seq![data], false)),
                        None => None,
                    }
                } else {
                    match p.child {
                        Some(c) => prepend_val(data, c.look(after)),
                        None => None,
                    }
                }
            },
        }
    }

    #[via_fn]
    proof fn look_param_dec(self, rest: Seq<u8>) {
        if self.param_child is Some {
            let p = self.param_child->Some_0;
            if p.child is Some {
                assert(decreases_to!(self => self.param_child));
                assert(decreases_to!(self.param_child => self.param_child->Some_0));
                assert(decreases_to!(p => p.child));
                assert(decreases_to!(p.child => p.child->Some_0));
                assert(decreases_to!(self => p.child->Some_0));
            }
        }
    }

    /// The catch-all branch at this node: it binds the whole remaining text,
    /// the empty run included, and always carries an endpoint.
    pub closed spec fn look_catch_all(self, rest: Seq<u8>) -> Option<
        (T, Seq<Seq<u8>>, Seq<Seq<u8>>, bool),
    > {
        match self.catch_all_child {
            Some(c) => Some(found(c.endpoint, seq![rest], true)),
            None => None,
        }
    }

    /// The search below this node, with `path[pos..]` still to match.
    /// Returns the winning endpoint and the positional parameter values as
    /// offset ranges into `path`, exactly as [`Node::look`] describes.
    fn search<'a>(&'a self, path: &[u8], pos: usize) -> (r: Option<
        (&'a Endpoint<T>, Vec<(usize, usize)>),
    >)
        requires
            self.wf_shape(),
            pos <= path@.len(),
        ensures
            ({
                let lk = self.look(path@.skip(pos as int));
                match r {
                    Some(pr) => {
                        &&& offs_ok(pr.1@, path@.len() as int)
                        &&& lk matches Some(f) && f.0 == pr.0.value && f.1
                            == pr.0.param_mapping@.map_values(|n: Vec<u8>| n@) && f.2 == vals_of(
                            pr.1@,
                            path@,
                        )
                    },
                    None => lk is None,
                }
            }),
        decreases self, 1int,
    {
        let ghost rest = path@.skip(pos as int);
        let plen = path.len();
        let m_len = self.matching.len();
        if !prefix_eq(path, pos, self.matching.as_slice()) {
            proof {
                assert(rest.len() >= m_len ==> rest.take(m_len as int) =~= path@.subrange(
                    pos as int,
                    pos + m_len,
                ));
                assert(rest.len() == m_len && rest.take(m_len as int) == self.matching@ ==> rest
                    =~= self.matching@);
            }
            return None;
        }
        proof {
            assert(rest.take(m_len as int) =~= path@.subrange(pos as int, pos + m_len));
        }
        let npos = pos + m_len;
        if npos < plen {
            proof {
                assert(rest.skip(m_len as int) =~= path@.skip(npos as int));
                assert(rest[m_len as int] == path@[npos as int]);
            }
            let first = path[npos];
            match self.static_children.get(first) {
                Some(c) => {
                    proof {
                        assert(first == path@[npos as int]);
                        assert(self.static_children.spec_get(first) == Some(*c));
                        let k = first_in(self.static_children.indices@, set![first]);
                        lemma_first_in(self.static_children.indices@, set![first]);
                        assert(0 <= k < self.static_children.children@.len());
                        assert(*c == self.static_children.children@[k]);
                        assert(decreases_to!(*self => self.static_children));
                        assert(decreases_to!(self.static_children => self.static_children.children));
                        assert(decreases_to!(self.static_children.children => self.static_children.children@));
                        assert(decreases_to!(self.static_children.children@ => self.static_children.children@[k]));
                        assert(decreases_to!(*self => self.static_children.children@[k]));
                    }
                    let r1 = c.search(path, npos);
                    if r1.is_some() {
                        return r1;
                    }
                    let r2 = self.search_param(path, npos);
                    if r2.is_some() {
                        return r2;
                    }
                    self.search_catch_all(path, npos)
                },
                None => {
                    let r2 = self.search_param(path, npos);
                    if r2.is_some() {
                        return r2;
                    }
                    self.search_catch_all(path, npos)
                },
            }
        } else {
            proof {
                assert(rest =~= self.matching@);
            }
            match &self.endpoint {
                Some(ep) => {
                    let offs: Vec<(usize, usize)> = Vec::new();
                    proof {
                        assert(vals_of(offs@, path@) =~= Seq::<Seq<u8>>::empty());
                    }
                    Some((ep, offs))
                },
                None => {
                    let r3 = self.search_catch_all(path, path.len());
                    proof {
                        assert(path@.skip(path@.len() as int) =~= Seq::<u8>::empty());
                    }
                    r3
                },
            }
        }
    }

    /// The parameter branch of the search at `path[pos..]`, exactly as
    /// [`Node::look_param`] describes.
    fn search_param<'a>(&'a self, path: &[u8], pos: usize) -> (r: Option<
        (&'a Endpoint<T>, Vec<(usize, usize)>),
    >)
        requires
            self.wf_shape(),
            pos <= path@.len(),
        ensures
            ({
                let lk = self.look_param(path@.skip(pos as int));
                match r {
                    Some(pr) => {
                        &&& offs_ok(pr.1@, path@.len() as int)
                        &&& lk matches Some(f) && f.0 == pr.0.value && f.1
                            == pr.0.param_mapping@.map_values(|n: Vec<u8>| n@) && f.2 == vals_of(
                            pr.1@,
                            path@,
                        )
                    },
                    None => lk is None,
                }
            }),
        decreases self, 0int,
    {
        let ghost rest = path@.skip(pos as int);
        match &self.param_child {
            None => None,
            Some(p) => {
                let sub = slice_subrange(path, pos, path.len());
                let data_end = match find_byte(SLASH, sub) {
                    Some(i) => pos + i,
                    None => path.len(),
                };
                proof {
                    assert(sub@ =~= rest);
                    lemma_first_in_is(rest, slash_set(), data_end - pos);
                    assert(rest.take(data_end - pos) =~= path@.subrange(
                        pos as int,
                        data_end as int,
                    ));
                }
                if data_end == path.len() {
                    match &p.endpoint {
                        Some(ep) => {
                            let mut offs: Vec<(usize, usize)> = Vec::new();
                            offs.push((pos, data_end));
                            proof {
                                assert(vals_of(offs@, path@) =~= seq![
                                    rest.take(data_end - pos),
                                ]);
                            }
                            Some((ep, offs))
                        },
                        None => None,
                    }
                } else {
                    match &p.child {
                        Some(c) => {
                            proof {
                                assert(rest.skip(data_end - pos) =~= path@.skip(data_end as int));
                                let p0 = self.param_child->Some_0;
                                assert(decreases_to!(*self => self.param_child));
                                assert(decreases_to!(self.param_child => self.param_child->Some_0));
                                assert(decreases_to!(p0 => p0.child));
                                assert(decreases_to!(p0.child => p0.child->Some_0));
                                assert(decreases_to!(*self => p0.child->Some_0));
                                assert(**c == p0.child->Some_0);
                            }
                            match c.search(path, data_end) {
                                Some((ep, offs2)) => {
                                    let mut offs = offs2;
                                    offs.insert(0, (pos, data_end));
                                    proof {
                                        assert(vals_of(offs@, path@) =~= seq![
                                            rest.take(data_end - pos),
                                        ] + vals_of(offs2@, path@));
                                    }
                                    Some((ep, offs))
                                },
                                None => None,
                            }
                        },
                        None => None,
                    }
                }
            },
        }
    }

    /// The catch-all branch of the search at `path[pos..]`, exactly as
    /// [`Node::look_catch_all`] describes.
    fn search_catch_all<'a>(&'a self, path: &[u8], pos: usize) -> (r: Option<
        (&'a Endpoint<T>, Vec<(usize, usize)>),
    >)
        requires
            pos <= path@.len(),
        ensures
            ({
                let lk = self.look_catch_all(path@.skip(pos as int));
                match r {
                    Some(pr) => {
                        &&& offs_ok(pr.1@, path@.len() as int)
                        &&& lk matches Some(f) && f.0 == pr.0.value && f.1
                            == pr.0.param_mapping@.map_values(|n: Vec<u8>| n@) && f.2 == vals_of(
                            pr.1@,
                            path@,
                        )
                    },
                    None => lk is None,
                }
            }),
    {
        match &self.catch_all_child {
            Some(c) => {
                let mut offs: Vec<(usize, usize)> = Vec::new();
                offs.push((pos, path.len()));
                proof {
                    assert(vals_of(offs@, path@) =~= seq![path@.skip(pos as int)]);
                }
                Some((&c.endpoint, offs))
            },
            None => None,
        }
    }
}

/// Sizes and separator-freedom of what `look` returns: under `wf_depth(k)`,
/// a winning route's name list is exactly `k` longer than the values bound
/// below the start, and every bound value except a final catch-all run is
/// free of the component separator.
pub(crate) proof fn lemma_look_props<T>(n: Node<T>, path: Seq<u8>, k: int)
    requires
        n.wf_depth(k),
    ensures
        match n.look(path) {
            Some(f) => {
                &&& f.1.len() == k + f.2.len()
                &&& forall|i: int| 0 <= i < f.2.len() - 1 ==> none_in(#[trigger] f.2[i], slash_set())
                &&& !f.3 && f.2.len() > 0 ==> none_in(f.2[f.2.len() - 1], slash_set())
            },
            None => true,
        },
    decreases n, 1int,
{
    let m = n.matching@;
    if path.len() > m.len() && path.take(m.len() as int) == m {
        let rest = path.skip(m.len() as int);
        match n.static_children.spec_get(rest[0]) {
            Some(c) => {
                let k0 = first_in(n.static_children.indices@, set![rest[0]]);
                lemma_first_in(n.static_children.indices@, set![rest[0]]);
                assert(c == n.static_children.children@[k0]);
                assert(c.wf_depth(k));
                lemma_look_props(c, rest, k);
                lemma_look_param_props(n, rest, k);
            },
            None => {
                lemma_look_param_props(n, rest, k);
            },
        }
    }
}

/// The same facts for the parameter branch alone.
pub(crate) proof fn lemma_look_param_props<T>(n: Node<T>, rest: Seq<u8>, k: int)
    requires
        n.wf_depth(k),
    ensures
        match n.look_param(rest) {
            Some(f) => {
                &&& f.1.len() == k + f.2.len()
                &&& forall|i: int| 0 <= i < f.2.len() - 1 ==> none_in(#[trigger] f.2[i], slash_set())
                &&& !f.3 && f.2.len() > 0 ==> none_in(f.2[f.2.len() - 1], slash_set())
            },
            None => true,
        },
    decreases n, 0int,
{
    if n.param_child is Some {
        let p = n.param_child->Some_0;
        let kk = first_in(rest, slash_set());
        lemma_first_in(rest, slash_set());
        let data = rest.take(kk);
        assert(none_in(data, slash_set())) by {
            assert forall|j: int| 0 <= j < data.len() implies !slash_set().contains(
                #[trigger] data[j],
            ) by {
                assert(data[j] == rest[j]);
            }
        }
        let after = rest.skip(kk);
        if after.len() != 0 && p.child is Some {
            let c = p.child->Some_0;
            assert(c.wf_depth(k + 1));
            lemma_look_props(*c, after, k + 1);
            match c.look(after) {
                Some(f2) => {
                    let f = (f2.0, f2.1, seq![data] + f2.2, f2.3);
                    assert(f.2[0] == data);
                    assert(forall|i: int| 0 <= i < f2.2.len() ==> f.2[i + 1] == f2.2[i]);
                    assert(n.look_param(rest) == Some(f));
                    assert forall|i: int| 0 <= i < f.2.len() - 1 implies none_in(
                        #[trigger] f.2[i],
                        slash_set(),
                    ) by {
                        if i > 0 {
                            assert(f.2[i] == f2.2[i - 1]);
                        }
                    }
                    if !f.3 && f.2.len() > 0 {
                        if f2.2.len() > 0 {
                            assert(f.2[f.2.len() - 1] == f2.2[f2.2.len() - 1]);
                        }
                    }
                },
                None => {},
            }
        }
    }
}

impl<T> Node<T> {
    /// Matches `path` below this node. On a hit, the returned value is the
    /// winning endpoint's, and the parameters carry the winning route's
    /// recorded names, each bound to its byte run of `path`, in order.
    pub fn at<'a>(&'a self, path: &[u8]) -> (r: Option<(&'a T, Params)>)
        requires
            self.wf_shape(),
            self.wf_depth(0),
        ensures
            match r {
                Some(pr) => {
                    &&& self.look(path@) matches Some(f) && *(pr.0) == f.0 && pr.1@.len()
                        == f.2.len() && (forall|i: int|
                        0 <= i < f.2.len() ==> pr.1@[i] == (f.1[i], f.2[i]))
                },
                None => self.look(path@) is None,
            },
    {
        proof {
            assert(path@.skip(0) =~= path@);
        }
        match self.search(path, 0) {
            Some((ep, offs)) => {
                proof {
                    lemma_look_props(*self, path@, 0);
                }
                let n = offs.len();
                let mut params = Params::new();
                let mut i: usize = 0;
                while i < n
                    invariant
                        n == offs@.len(),
                        0 <= i <= n,
                        ep.param_mapping@.len() == n,
                        offs_ok(offs@, path@.len() as int),
                        params@.len() == i,
                        forall|j: int|
                            0 <= j < i ==> params@[j] == (
                                ep.param_mapping@[j]@,
                                path@.subrange(offs@[j].0 as int, offs@[j].1 as int),
                            ),
                    decreases n - i,
                {
                    let name = copy_range(
                        ep.param_mapping[i].as_slice(),
                        0,
                        ep.param_mapping[i].len(),
                    );
                    proof {
                        assert(name@ =~= ep.param_mapping@[i as int]@);
                    }
                    let pr = offs[i];
                    let value = copy_range(path, pr.0, pr.1);
                    params.push(name, value);
                    i = i + 1;
                }
                Some((&ep.value, params))
            },
            None => None,
        }
    }
}

impl<T> Tree<T> {
    /// The route table's invariant: every root child is a well-formed
    /// subtree at parameter depth zero.
    pub closed spec fn wf(self) -> bool {
        &&& self.static_children.wf()
        &&& forall|i: int|
            0 <= i < self.static_children.children@.len() ==> (
            #[trigger] self.static_children.children@[i]).wf_shape()
                && self.static_children.children@[i].wf_depth(0)
    }

    /// What lookup returns for `path`: the root child keyed by the first
    /// byte is searched; an empty path never matches.
    pub closed spec fn look(self, path: Seq<u8>) -> Option<(T, Seq<Seq<u8>>, Seq<Seq<u8>>, bool)> {
        if path.len() == 0 {
            None
        } else {
            match self.static_children.spec_get(path[0]) {
                Some(c) => c.look(path),
                None => None,
            }
        }
    }

    /// An empty route table: well-formed, matching no path, and with every
    /// position unoccupied, so that the first insert of any well-formed
    /// pattern is guaranteed to succeed.
    pub fn new() -> (t: Self)
        ensures
            t.wf(),
            forall|p: Seq<u8>| t.look(p) is None,
            forall|s: Seq<u8>| !t.present(s),
            forall|s: Seq<u8>| t.occupant(s) is None,
    {
        let t = Tree { static_children: StaticChildren::new() };
        proof {
            assert forall|p: Seq<u8>| t.look(p) is None by {
                if p.len() > 0 {
                    lemma_first_in(t.static_children.indices@, set![p[0]]);
                }
            }
            assert forall|s: Seq<u8>| !t.present(s) by {
                if s.len() > 0 && s[0] != COLON && s[0] != STAR {
                    lemma_first_in(t.static_children.indices@, set![s[0]]);
                }
            }
            assert forall|s: Seq<u8>| t.occupant(s) is None by {
                if s.len() > 0 && s[0] != COLON && s[0] != STAR {
                    lemma_first_in(t.static_children.indices@, set![s[0]]);
                }
            }
        }
        t
    }

    /// Matches `path` against the table. On a hit, the returned reference is
    /// the winning endpoint's value, and the parameters carry that route's
    /// recorded names, each bound to its byte run of `path`, in order.
    pub fn at<'a>(&'a self, path: &[u8]) -> (r: Option<(&'a T, Params)>)
        requires
            self.wf(),
        ensures
            match r {
                Some(pr) => {
                    &&& self.look(path@) matches Some(f) && *(pr.0) == f.0 && pr.1@.len()
                        == f.2.len() && (forall|i: int|
                        0 <= i < f.2.len() ==> pr.1@[i] == (f.1[i], f.2[i]))
                },
                None => self.look(path@) is None,
            },
    {
        if path.len() == 0 {
            return None;
        }
        let first = path[0];
        match self.static_children.get(first) {
            Some(node) => {
                proof {
                    let k0 = first_in(self.static_children.indices@, set![path@[0]]);
                    lemma_first_in(self.static_children.indices@, set![path@[0]]);
                    assert(*node == self.static_children.children@[k0]);
                    assert(node.wf_shape() && node.wf_depth(0));
                }
                node.at(path)
            },
            None => None,
        }
    }
}

impl<T> Default for Tree<T> {
    /// The same empty table as [`Tree::new`].
    fn default() -> (t: Self)
        ensures
            t.wf(),
            forall|p: Seq<u8>| t.look(p) is None,
            forall|s: Seq<u8>| !t.present(s),
            forall|s: Seq<u8>| t.occupant(s) is None,
    {
        Tree::new()
    }
}


/// A node as `Node::new` builds it: literal text `m` and nothing else.
pub(crate) open spec fn is_fresh_node<T>(n: Node<T>, m: Seq<u8>) -> bool {
    &&& n.endpoint is None
    &&& n.matching@ == m
    &&& n.static_children.indices@.len() == 0
    &&& n.static_children.children@.len() == 0
    &&& n.param_child is None
    &&& n.catch_all_child is None
}

/// A freshly built node is well-formed at every parameter depth.
pub(crate) proof fn lemma_fresh_wf<T>(n: Node<T>, m: Seq<u8>)
    requires
        is_fresh_node(n, m),
    ensures
        n.wf_shape(),
        forall|k: int| n.wf_depth(k),
{
    assert forall|k: int| n.wf_depth(k) by {
        assert(n.wf_depth(k));
    }
}

/// A freshly built node occupies no position at all.
pub(crate) proof fn lemma_fresh_not_present<T>(n: Node<T>, m: Seq<u8>)
    requires
        is_fresh_node(n, m),
    ensures
        forall|s: Seq<u8>, ap: bool| !(#[trigger] n.present_rest(s, ap)),
{
    assert forall|s: Seq<u8>, ap: bool| !(#[trigger] n.present_rest(s, ap)) by {
        if s.len() != 0 && s[0] != COLON && s[0] != STAR {
            let k = first_in(s, marker_set());
            lemma_first_in(n.static_children.indices@, set![s[0]]);
        }
    }
}

/// Removing an element of a sequence and putting another back at the same
/// place is a plain update.
pub(crate) proof fn lemma_remove_insert<A>(s: Seq<A>, i: int, x: A)
    requires
        0 <= i < s.len(),
    ensures
        s.remove(i).insert(i, x) == s.update(i, x),
{
    broadcast use vstd::seq_lib::group_seq_properties;

    assert(s.remove(i).insert(i, x) =~= s.update(i, x));
}

/// A node stays well-formed when one static child is replaced by a
/// well-formed child that keeps its leading byte.
pub(crate) proof fn lemma_child_update_wf<T>(pre: Node<T>, post: Node<T>, idx: int, newc: Node<T>, k: int)
    requires
        pre.wf_shape(),
        pre.wf_depth(k),
        0 <= idx < pre.static_children.children@.len(),
        post.static_children.indices@ == pre.static_children.indices@,
        post.static_children.children@ == pre.static_children.children@.update(idx, newc),
        post.endpoint == pre.endpoint,
        post.param_child == pre.param_child,
        post.catch_all_child == pre.catch_all_child,
        newc.wf_shape(),
        newc.wf_depth(k),
        newc.matching@.len() > 0,
        newc.matching@[0] == pre.static_children.children@[idx].matching@[0],
    ensures
        post.wf_shape(),
        post.wf_depth(k),
{
    assert forall|i: int| 0 <= i < post.static_children.children@.len() implies (
    #[trigger] post.static_children.children@[i]).wf_shape()
        && post.static_children.children@[i].wf_depth(k)
        && post.static_children.children@[i].matching@.len() > 0
        && post.static_children.children@[i].matching@[0] == post.static_children.indices@[i] by {
        if i != idx {
            assert(post.static_children.children@[i] == pre.static_children.children@[i]);
        }
    }
}

impl<T> Node<T> {
    /// A fresh leaf holding the literal text `path`.
    pub(crate) fn new(path: &[u8]) -> (n: Self)
        ensures
            is_fresh_node(n, path@),
    {
        let matching = copy_range(path, 0, path.len());
        proof {
            assert(matching@ =~= path@);
        }
        Node {
            endpoint: None,
            matching,
            static_children: StaticChildren::new(),
            param_child: None,
            catch_all_child: None,
        }
    }
}

impl<T> StaticChildren<T> {
    /// The index of the child keyed by `text[from]`, creating a fresh node
    /// holding `text[from..]` when no child carries that byte yet.
    pub(crate) fn find_or_insert(&mut self, text: &[u8], from: usize) -> (idx: usize)
        requires
            old(self).wf(),
            from < text@.len(),
        ensures
            final(self).wf(),
            idx < final(self).children@.len(),
            final(self).indices@[idx as int] == text@[from as int],
            final(self).children@[idx as int].matching@.len() > 0,
            final(self).children@[idx as int].matching@[0] == text@[from as int],
            ({
                let k = first_in(old(self).indices@, set![text@[from as int]]);
                if k < old(self).indices@.len() {
                    &&& *final(self) == *old(self)
                    &&& idx == k
                } else {
                    &&& final(self).indices@ == old(self).indices@.push(text@[from as int])
                    &&& final(self).children@.len() == old(self).children@.len() + 1
                    &&& forall|i: int|
                        0 <= i < old(self).children@.len() ==> final(self).children@[i] == old(self).children@[i]
                    &&& is_fresh_node(final(self).children@[idx as int], text@.skip(from as int))
                    &&& idx == old(self).children@.len()
                }
            }),
    {
        let b = text[from];
        match find_byte(b, self.indices.as_slice()) {
            Some(i) => {
                proof {
                    lemma_first_in_is(self.indices@, set![b], i as int);
                }
                i
            },
            None => {
                proof {
                    lemma_first_in_is(self.indices@, set![b], self.indices@.len() as int);
                }
                let node = Node::new(slice_subrange(text, from, text.len()));
                proof {
                    assert(text@.subrange(from as int, text@.len() as int) =~= text@.skip(
                        from as int,
                    ));
                }
                self.indices.push(b);
                self.children.push(node);
                self.children.len() - 1
            },
        }
    }
}

impl<T> Node<T> {
    /// Splits this node: its first `common` literal bytes stay here, and
    /// everything it held, under its remaining text, moves into a single
    /// static child.
    fn split(&mut self, common: usize, Ghost(k): Ghost<int>)
        requires
            old(self).wf_shape(),
            old(self).wf_depth(k),
            1 <= common < old(self).matching@.len(),
        ensures
            final(self).wf_shape(),
            final(self).wf_depth(k),
            final(self).matching@ == old(self).matching@.take(common as int),
            final(self).endpoint is None,
            final(self).param_child is None,
            final(self).catch_all_child is None,
            final(self).static_children.indices@ == seq![old(self).matching@[common as int]],
            final(self).static_children.children@.len() == 1,
            final(self).static_children.children@[0].endpoint == old(self).endpoint,
            final(self).static_children.children@[0].static_children == old(self).static_children,
            final(self).static_children.children@[0].param_child == old(self).param_child,
            final(self).static_children.children@[0].catch_all_child == old(self).catch_all_child,
            final(self).static_children.children@[0].matching@ == old(self).matching@.skip(
                common as int,
            ),
    {
        let rest_first = self.matching[common];
        let new_matching = copy_range(self.matching.as_slice(), 0, common);
        let child_matching = copy_range(
            self.matching.as_slice(),
            common,
            self.matching.len(),
        );
        let mut tmp = Node {
            endpoint: None,
            matching: new_matching,
            static_children: StaticChildren::new(),
            param_child: None,
            catch_all_child: None,
        };
        core::mem::swap(self, &mut tmp);
        tmp.matching = child_matching;
        self.static_children.indices.push(rest_first);
        self.static_children.children.push(tmp);
        proof {
            assert(final(self).matching@ =~= old(self).matching@.take(common as int));
            assert(final(self).static_children.children@[0].matching@ =~= old(self).matching@.skip(common as int));
            assert(final(self).static_children.children@[0].matching@[0] == old(self).matching@[common as int]);
            assert(final(self).static_children.children@[0].wf_shape());
            assert(final(self).static_children.children@[0].wf_depth(k));
            assert(final(self).static_children.wf());
            assert(final(self).wf_shape());
            assert(final(self).wf_depth(k));
            assert(final(self).static_children.indices@ =~= seq![
                old(self).matching@[common as int],
            ]);
            assert(final(self).static_children.children@[0].matching@ =~= old(self).matching@.skip(common as int));
        }
    }

    /// Walks the rest of a literal run `text[ti..]` down from this node,
    /// splitting and creating static children as needed, then hands the
    /// remaining segments of the pattern to `insert_rest`.
    #[verifier::rlimit(100)]
    fn insert_static(
        &mut self,
        text: &[u8],
        ti: usize,
        it: SegmentsIter<'_>,
        mapping: Vec<Vec<u8>>,
        value: T,
        Ghost(k): Ghost<int>,
    ) -> (r: Result<(), InsertError>)
        requires
            old(self).wf_shape(),
            old(self).wf_depth(k),
            mapping@.len() == k,
            ti < text@.len(),
            old(self).matching@.len() > 0,
            old(self).matching@[0] == text@[ti as int],
            it@.len() == 0 || it@[0] == COLON || it@[0] == STAR,
        ensures
            final(self).wf_shape(),
            final(self).wf_depth(k),
            final(self).matching@.len() > 0,
            final(self).matching@[0] == old(self).matching@[0],
            !tail_ok(it@) ==> r is Err,
            it@.len() == 0 && r is Ok ==> final(self).static_lookup(text@.skip(ti as int))
                == Some(value),
            it@.len() == 0 && old(self).static_lookup(text@.skip(ti as int)) is Some ==> r
                is Err,
            old(self).present_static(text@.skip(ti as int), it@) ==> r is Err,
            r is Ok ==> final(self).present_static(text@.skip(ti as int), it@),
            tail_ok(it@) && !old(self).present_static(text@.skip(ti as int), it@) ==> r is Ok,
            r is Ok ==> final(self).occupant_static(text@.skip(ti as int), it@) == Some(
                (value, mapping@.map_values(|n: Vec<u8>| n@) + names_of(it@)),
            ),
            r is Err ==> forall|text2: Seq<u8>, rest2: Seq<u8>|
                #![trigger final(self).occupant_static(text2, rest2)]
                (rest2.len() == 0 || rest2[0] == COLON || rest2[0] == STAR) ==> final(self).occupant_static(text2, rest2)
                    == old(self).occupant_static(text2, rest2),
            forall|text2: Seq<u8>, rest2: Seq<u8>|
                #![trigger final(self).occupant_static(text2, rest2)]
                (rest2.len() == 0 || rest2[0] == COLON || rest2[0] == STAR) && !(text2
                    == text@.skip(ti as int) && same_slot(it@, false, rest2, false)) ==> final(self).occupant_static(text2, rest2)
                    == old(self).occupant_static(text2, rest2),
        decreases it@.len(), text@.len() - ti, 0int,
    {
        let ghost mapping0 = mapping;
        let tlen = text.len();
        let common = common_prefix_from(text, ti, self.matching.as_slice());
        proof {
            assert(common >= 1);
        }
        if common < self.matching.len() {
            self.split(common, Ghost(k));
        }
        let nti = ti + common;
        if nti == tlen {
            let ghost pre_rest = *self;
            proof {
                assert(text@.skip(ti as int).len() == common);
                assert(text@.skip(ti as int) =~= self.matching@);
            }
            let r = self.insert_rest(it, false, mapping, value, Ghost(k));
            proof {
                let path0 = text@.skip(ti as int);
                assert(path0.len() == common);
                lemma_common_len_is(path0, old(self).matching@, common as int);
                lemma_common_len_is(path0, pre_rest.matching@, common as int);
                lemma_common_len_is(path0, final(self).matching@, common as int);
                if it@.len() == 0 {
                    if r is Ok {
                        assert(final(self).matching@ == pre_rest.matching@);
                        assert(final(self).static_lookup(path0) == Some(value));
                    }
                    if old(self).static_lookup(path0) is Some {
                        assert(common == old(self).matching@.len());
                        assert(path0 =~= old(self).matching@);
                        assert(old(self).endpoint is Some);
                        assert(r is Err);
                    }
                }
                if tail_ok(it@) && !old(self).present_static(path0, it@) {
                    if common < old(self).matching@.len() {
                        assert(pre_rest.endpoint is None && pre_rest.param_child is None
                            && pre_rest.catch_all_child is None);
                        assert(!pre_rest.present_rest(it@, false));
                    } else {
                        assert(!pre_rest.present_rest(it@, false));
                    }
                    assert(r is Ok);
                }
                if r is Ok {
                    assert(final(self).occupant_rest(it@, false) == Some(
                        (value, mapping0@.map_values(|n: Vec<u8>| n@) + names_of(it@)),
                    ));
                    assert(final(self).occupant_static(path0, it@) == Some(
                        (value, mapping0@.map_values(|n: Vec<u8>| n@) + names_of(it@)),
                    ));
                }
                assert forall|text2: Seq<u8>, rest2: Seq<u8>|
                    (rest2.len() == 0 || rest2[0] == COLON || rest2[0] == STAR) && (r is Err
                        || !(text2 == path0 && same_slot(it@, false, rest2, false))) implies
                    final(self).occupant_static(text2, rest2) == old(self).occupant_static(
                    text2,
                    rest2,
                ) by {
                    if common < old(self).matching@.len() {
                        lemma_split_frame(
                            *old(self),
                            pre_rest,
                            common as int,
                            text2,
                            rest2,
                        );
                    }
                    if text2.len() != 0 {
                        let c2 = common_len(text2, pre_rest.matching@);
                        lemma_common_len(text2, pre_rest.matching@);
                        assert(final(self).matching@ == pre_rest.matching@);
                        if c2 >= pre_rest.matching@.len() {
                            if c2 == text2.len() {
                                assert(text2 =~= pre_rest.matching@);
                                assert(path0 =~= pre_rest.matching@);
                                if !(r is Err) {
                                    assert(!same_slot(it@, false, rest2, false));
                                }
                                assert(final(self).occupant_rest(rest2, false)
                                    == pre_rest.occupant_rest(rest2, false));
                                assert(final(self).occupant_static(text2, rest2) == final(self).occupant_rest(rest2, false));
                                assert(pre_rest.occupant_static(text2, rest2)
                                    == pre_rest.occupant_rest(rest2, false));
                            } else {
                                assert(final(self).static_children
                                    == pre_rest.static_children);
                                match pre_rest.static_children.spec_get(text2[c2]) {
                                    Some(ch) => {
                                        assert(final(self).occupant_static(text2, rest2)
                                            == ch.occupant_static(text2.skip(c2), rest2));
                                        assert(pre_rest.occupant_static(text2, rest2)
                                            == ch.occupant_static(text2.skip(c2), rest2));
                                    },
                                    None => {
                                        assert(final(self).occupant_static(text2, rest2)
                                            is None);
                                        assert(pre_rest.occupant_static(text2, rest2)
                                            is None);
                                    },
                                }
                            }
                        } else {
                            assert(final(self).occupant_static(text2, rest2) is None);
                            assert(pre_rest.occupant_static(text2, rest2) is None);
                        }
                    }
                }
            }
            r
        } else {
            let ghost before = *self;
            let idx = self.static_children.find_or_insert(text, nti);
            let ghost pre = *self;
            proof {
                let kk = first_in(pre.static_children.indices@, set![text@[nti as int]]);
                lemma_first_in(pre.static_children.indices@, set![text@[nti as int]]);
                if !(kk < pre.static_children.indices@.len()) {
                    lemma_fresh_wf(
                        pre.static_children.children@[idx as int],
                        text@.skip(nti as int),
                    );
                }
                assert(pre.static_children.children@[idx as int].wf_shape());
                assert(pre.static_children.children@[idx as int].wf_depth(k));
            }
            let mut child = self.static_children.children.remove(idx);
            let ghost child0 = child;
            let rr = child.insert_static(text, nti, it, mapping, value, Ghost(k));
            self.static_children.children.insert(idx, child);
            proof {
                lemma_remove_insert(pre.static_children.children@, idx as int, child);
                lemma_child_update_wf(pre, *self, idx as int, child, k);
                let b = text@[nti as int];
                assert forall|j: int| 0 <= j < idx as int implies !(set![b].contains(
                    #[trigger] final(self).static_children.indices@[j],
                )) by {
                    assert(final(self).static_children.indices@[j]
                        == pre.static_children.indices@[j]);
                    assert(pre.static_children.indices@[idx as int] == b);
                }
                lemma_first_in_is(final(self).static_children.indices@, set![b], idx as int);
                let path0 = text@.skip(ti as int);
                assert(self.matching@.len() == common);
                assert(path0.take(common as int) =~= self.matching@);
                assert(path0.skip(common as int) =~= text@.skip(nti as int));
                assert(path0[common as int] == text@[nti as int]);
                lemma_common_len_is(path0, final(self).matching@, common as int);
                lemma_common_len_is(path0, old(self).matching@, common as int);
                if old(self).present_static(path0, it@) {
                    assert(common == old(self).matching@.len());
                    assert(before == *old(self));
                    let kk = first_in(old(self).static_children.indices@, set![b]);
                    lemma_first_in(old(self).static_children.indices@, set![b]);
                    assert(old(self).static_children.spec_get(b) is Some);
                    assert(kk < old(self).static_children.indices@.len());
                    assert(pre == *old(self));
                    assert(idx as int == kk);
                    assert(child0 == old(self).static_children.children@[kk]);
                    assert(child0.present_static(text@.skip(nti as int), it@));
                    assert(rr is Err);
                }
                if rr is Ok {
                    assert(final(self).static_children.spec_get(b) == Some(child));
                    assert(child.present_static(text@.skip(nti as int), it@));
                    assert(final(self).present_static(path0, it@));
                }
                if tail_ok(it@) && !old(self).present_static(path0, it@) {
                    if common < old(self).matching@.len() {
                        assert(text@[nti as int] != old(self).matching@[common as int]);
                        assert(before.static_children.indices@ == seq![
                            old(self).matching@[common as int],
                        ]);
                        assert(!(set![b].contains(before.static_children.indices@[0])));
                        lemma_first_in_is(before.static_children.indices@, set![b], 1);
                        assert(is_fresh_node(child0, text@.skip(nti as int)));
                        lemma_fresh_not_present(child0, text@.skip(nti as int));
                        lemma_common_len_is(
                            text@.skip(nti as int),
                            text@.skip(nti as int),
                            tlen - nti,
                        );
                        assert(child0.matching@ == text@.skip(nti as int));
                        assert(common_len(text@.skip(nti as int), child0.matching@) == tlen
                            - nti);
                        assert(!child0.present_rest(it@, false));
                        assert(text@.skip(nti as int).len() > 0);
                        assert(!child0.present_static(text@.skip(nti as int), it@));
                        assert(rr is Ok);
                    } else {
                        let kk0 = first_in(old(self).static_children.indices@, set![b]);
                        lemma_first_in(old(self).static_children.indices@, set![b]);
                        if kk0 < old(self).static_children.indices@.len() {
                            assert(pre == *old(self));
                            assert(idx as int == kk0);
                            assert(child0 == old(self).static_children.children@[kk0]);
                            assert(old(self).static_children.spec_get(b) == Some(child0));
                            assert(!child0.present_static(text@.skip(nti as int), it@));
                            assert(rr is Ok);
                        } else {
                            assert(is_fresh_node(child0, text@.skip(nti as int)));
                            lemma_fresh_not_present(child0, text@.skip(nti as int));
                            lemma_common_len_is(
                                text@.skip(nti as int),
                                text@.skip(nti as int),
                                tlen - nti,
                            );
                            assert(child0.matching@ == text@.skip(nti as int));
                            assert(common_len(text@.skip(nti as int), child0.matching@)
                                == tlen - nti);
                            assert(!child0.present_rest(it@, false));
                            assert(text@.skip(nti as int).len() > 0);
                            assert(!child0.present_static(text@.skip(nti as int), it@));
                            assert(rr is Ok);
                        }
                    }
                }
                if rr is Ok {
                    assert(final(self).static_children.spec_get(b) == Some(child));
                    assert(child.occupant_static(text@.skip(nti as int), it@) == Some(
                        (value, mapping0@.map_values(|n: Vec<u8>| n@) + names_of(it@)),
                    ));
                    assert(final(self).occupant_static(path0, it@) == Some(
                        (value, mapping0@.map_values(|n: Vec<u8>| n@) + names_of(it@)),
                    ));
                }
                assert forall|text2: Seq<u8>, rest2: Seq<u8>|
                    (rest2.len() == 0 || rest2[0] == COLON || rest2[0] == STAR) && (rr is Err
                        || !(text2 == path0 && same_slot(it@, false, rest2, false))) implies
                    final(self).occupant_static(text2, rest2) == old(self).occupant_static(
                    text2,
                    rest2,
                ) by {
                    if common < old(self).matching@.len() {
                        lemma_split_frame(*old(self), before, common as int, text2, rest2);
                    }
                    if text2.len() != 0 {
                        let c2 = common_len(text2, before.matching@);
                        lemma_common_len(text2, before.matching@);
                        assert(final(self).matching@ == before.matching@);
                        if c2 >= before.matching@.len() {
                            if c2 == text2.len() {
                                assert(text2 =~= before.matching@);
                                lemma_rest_frame_same_param(*final(self), before, rest2, false);
                                assert(final(self).occupant_static(text2, rest2) == final(self).occupant_rest(rest2, false));
                                assert(before.occupant_static(text2, rest2)
                                    == before.occupant_rest(rest2, false));
                            } else {
                                let qb = text2[c2];
                                let kkb = first_in(before.static_children.indices@, set![b]);
                                lemma_first_in(before.static_children.indices@, set![b]);
                                let kq = first_in(before.static_children.indices@, set![qb]);
                                lemma_first_in(before.static_children.indices@, set![qb]);
                                if qb == b {
                                    if text2.skip(c2) == text@.skip(nti as int) && same_slot(
                                        it@,
                                        false,
                                        rest2,
                                        false,
                                    ) {
                                        assert(path0.skip(common as int) =~= text@.skip(
                                            nti as int,
                                        ));
                                        assert(text2.len() == path0.len());
                                        assert forall|j: int|
                                            0 <= j < text2.len() implies text2[j] == path0[j] by {
                                            if j < common {
                                                assert(text2[j] == before.matching@[j]);
                                                assert(path0.take(common as int)[j]
                                                    == path0[j]);
                                                assert(path0.take(common as int)
                                                    =~= before.matching@);
                                            } else {
                                                assert(text2[j] == text2.skip(c2)[j - common]);
                                                assert(path0[j] == path0.skip(
                                                    common as int,
                                                )[j - common]);
                                            }
                                        }
                                        assert(text2 =~= path0);
                                        assert(rr is Err);
                                    }
                                    assert(child.occupant_static(text2.skip(c2), rest2)
                                        == child0.occupant_static(text2.skip(c2), rest2));
                                    lemma_first_in_is(
                                        final(self).static_children.indices@,
                                        set![qb],
                                        idx as int,
                                    );
                                    assert(final(self).static_children.spec_get(qb) == Some(
                                        child,
                                    ));
                                    if kkb < before.static_children.indices@.len() {
                                        assert(pre == before);
                                        assert(before.static_children.spec_get(qb) == Some(
                                            child0,
                                        ));
                                    } else {
                                        lemma_fresh_no_occupant(
                                            child0,
                                            text@.skip(nti as int),
                                        );
                                        assert(before.static_children.spec_get(qb) is None);
                                        assert(child0.occupant_static(
                                            text2.skip(c2),
                                            rest2,
                                        ) is None);
                                        assert(before.occupant_static(text2, rest2) is None);
                                    }
                                } else {
                                    if kq < before.static_children.indices@.len() {
                                        lemma_first_in_is(
                                            final(self).static_children.indices@,
                                            set![qb],
                                            kq,
                                        );
                                        assert(final(self).static_children.children@[kq]
                                            == before.static_children.children@[kq]);
                                    } else {
                                        assert forall|j: int|
                                            0 <= j < final(self).static_children.indices@.len() implies !(
                                            set![qb].contains(
                                                #[trigger] final(self).static_children.indices@[j],
                                            )) by {
                                            if j < before.static_children.indices@.len() {
                                                assert(final(self).static_children.indices@[j]
                                                    == before.static_children.indices@[j]);
                                            } else {
                                                assert(final(self).static_children.indices@[j]
                                                    == b);
                                            }
                                        }
                                        lemma_first_in_is(
                                            final(self).static_children.indices@,
                                            set![qb],
                                            final(self).static_children.indices@.len() as int,
                                        );
                                        assert(final(self).occupant_static(text2, rest2)
                                            is None);
                                        assert(before.occupant_static(text2, rest2) is None);
                                    }
                                }
                            }
                        } else {
                            assert(final(self).occupant_static(text2, rest2) is None);
                            assert(before.occupant_static(text2, rest2) is None);
                        }
                    }
                }
                if it@.len() == 0 {
                    if rr is Ok {
                        assert(final(self).static_children.spec_get(b) == Some(child));
                        assert(child.static_lookup(text@.skip(nti as int)) == Some(value));
                        assert(final(self).static_lookup(path0) == Some(value));
                    }
                    if old(self).static_lookup(path0) is Some {
                        if common < old(self).matching@.len() {
                            if path0.len() >= old(self).matching@.len() {
                                assert(path0.take(old(self).matching@.len() as int)[common as int]
                                    == text@[nti as int]);
                                assert(text@[nti as int] != old(self).matching@[common as int]);
                                assert(path0.take(old(self).matching@.len() as int) != old(self).matching@);
                                assert(path0 != old(self).matching@);
                            }
                            assert(old(self).static_lookup(path0) is None);
                        } else {
                            assert(before == *old(self));
                            let kk = first_in(old(self).static_children.indices@, set![b]);
                            lemma_first_in(old(self).static_children.indices@, set![b]);
                            assert(path0.len() > old(self).matching@.len());
                            assert(path0.take(old(self).matching@.len() as int) == old(self).matching@);
                            assert(old(self).static_children.spec_get(b) is Some);
                            assert(kk < old(self).static_children.indices@.len());
                            assert(pre == *old(self));
                            assert(idx as int == kk);
                            assert(child0 == old(self).static_children.children@[kk]);
                            assert(child0.static_lookup(text@.skip(nti as int)) is Some);
                            assert(rr is Err);
                        }
                    }
                }
            }
            rr
        }
    }

    /// Consumes the remaining segments of a pattern from this node: literal
    /// runs descend or create static children, a parameter segment installs
    /// or reuses the parameter child, and a catch-all installs the terminal
    /// catch-all child. With the segments exhausted, the endpoint slot is
    /// set only if still empty: an occupied slot is the duplicate-route
    /// conflict.
    #[verifier::rlimit(50)]
    fn insert_rest(
        &mut self,
        it: SegmentsIter<'_>,
        after_param: bool,
        mapping: Vec<Vec<u8>>,
        value: T,
        Ghost(k): Ghost<int>,
    ) -> (r: Result<(), InsertError>)
        requires
            old(self).wf_shape(),
            old(self).wf_depth(k),
            mapping@.len() == k + if after_param { 1int } else { 0int },
            after_param ==> old(self).param_child is Some,
            after_param ==> (it@.len() == 0 || it@[0] == SLASH),
        ensures
            final(self).wf_shape(),
            final(self).wf_depth(k),
            final(self).matching@ == old(self).matching@,
            !tail_ok(it@) ==> r is Err,
            it@.len() == 0 && !after_param && r is Ok ==> (final(self).endpoint matches Some(ep)
                && ep.value == value),
            it@.len() == 0 && !after_param && old(self).endpoint is Some ==> r is Err,
            old(self).present_rest(it@, after_param) ==> r is Err,
            r is Ok ==> final(self).present_rest(it@, after_param),
            old(self).param_child is Some ==> final(self).param_child is Some,
            tail_ok(it@) && !old(self).present_rest(it@, after_param) ==> r is Ok,
            r is Ok ==> final(self).occupant_rest(it@, after_param) == Some(
                (value, mapping@.map_values(|n: Vec<u8>| n@) + names_of(it@)),
            ),
            r is Err ==> forall|s2: Seq<u8>, b2: bool|
                #![trigger final(self).occupant_rest(s2, b2)]
                final(self).occupant_rest(s2, b2) == old(self).occupant_rest(s2, b2),
            forall|s2: Seq<u8>, b2: bool|
                #![trigger final(self).occupant_rest(s2, b2)]
                !same_slot(it@, after_param, s2, b2) ==> final(self).occupant_rest(s2, b2)
                    == old(self).occupant_rest(s2, b2),
            (after_param || it@.len() == 0 || it@[0] == COLON || it@[0] == STAR)
                ==> final(self).static_children == old(self).static_children,
        decreases it@.len(), 0int, 1int,
    {
        let ghost mapping0 = mapping;
        let mut mapping = mapping;
        let mut it2 = it;
        match it2.next() {
            None => {
                if after_param {
                    match self.param_child.take() {
                        Some(mut p) => {
                            if p.endpoint.is_some() {
                                self.param_child = Some(p);
                                proof {
                                    assert(*self == *old(self));
                                }
                                return Err(InsertError::new());
                            }
                            p.endpoint = Some(Endpoint { value, param_mapping: mapping });
                            self.param_child = Some(p);
                            proof {
                                assert(mapping@.map_values(|n: Vec<u8>| n@) + names_of(it@)
                                    =~= mapping@.map_values(|n: Vec<u8>| n@));
                                assert(it@ =~= Seq::<u8>::empty());
                                assert forall|s2: Seq<u8>, b2: bool| !same_slot(
                                    it@,
                                    after_param,
                                    s2,
                                    b2,
                                ) implies final(self).occupant_rest(s2, b2) == old(self).occupant_rest(s2, b2) by {
                                    lemma_occupant_frame_param_endpoint(
                                        *final(self),
                                        *old(self),
                                        s2,
                                        b2,
                                    );
                                }
                            }
                            Ok(())
                        },
                        None => {
                            proof {
                                assert(false);
                            }
                            Err(InsertError::new())
                        },
                    }
                } else {
                    if self.endpoint.is_some() {
                        return Err(InsertError::new());
                    }
                    self.endpoint = Some(Endpoint { value, param_mapping: mapping });
                    proof {
                        assert(mapping@.map_values(|n: Vec<u8>| n@) + names_of(it@)
                            =~= mapping@.map_values(|n: Vec<u8>| n@));
                        assert(it@ =~= Seq::<u8>::empty());
                        assert forall|s2: Seq<u8>, b2: bool| !same_slot(
                            it@,
                            after_param,
                            s2,
                            b2,
                        ) implies final(self).occupant_rest(s2, b2) == old(self).occupant_rest(
                            s2,
                            b2,
                        ) by {
                            lemma_occupant_frame_endpoint(*final(self), *old(self), s2, b2);
                        }
                    }
                    Ok(())
                }
            },
            Some(Err(e)) => Err(e),
            Some(Ok(seg)) => {
                match seg.name() {
                    Some(n) => {
                        let name = copy_range(n.as_slice(), 0, n.len());
                        proof {
                            assert(name@ =~= n@);
                        }
                        mapping.push(name);
                    },
                    None => {},
                }
                match seg {
                    Segment::Static(text) => {
                        if after_param {
                            proof {
                                assert(it@[0] == SLASH);
                                assert(text@[0] == SLASH);
                            }
                            match self.param_child.take() {
                                Some(mut p) => {
                                    match p.child.take() {
                                        Some(mut c) => {
                                            let ghost c0 = *c;
                                            proof {
                                                let kk = first_in(it@, marker_set());
                                                lemma_first_in(it@, marker_set());
                                                if kk < it@.len() {
                                                    assert(it2@[0] == it@[kk]);
                                                }
                                            }
                                            let rr = (&mut *c).insert_static(
                                                text.as_slice(),
                                                0,
                                                it2,
                                                mapping,
                                                value,
                                                Ghost(k + 1),
                                            );
                                            p.child = Some(c);
                                            self.param_child = Some(p);
                                            proof {
                                                assert(text@.skip(0) =~= text@);
                                                if old(self).present_rest(it@, true) {
                                                    assert(c0.present_static(text@, it2@));
                                                    assert(rr is Err);
                                                }
                                                if rr is Ok {
                                                    assert(final(self).present_rest(it@, true));
                                                    assert(final(self).occupant_rest(it@, true)
                                                        == Some(
                                                        (value, mapping0@.map_values(
                                                            |n: Vec<u8>| n@,
                                                        ) + names_of(it@)),
                                                    ));
                                                }
                                                if tail_ok(it@) && !old(self).present_rest(
                                                    it@,
                                                    true,
                                                ) {
                                                    assert(!c0.present_static(text@, it2@));
                                                    assert(rr is Ok);
                                                }
                                                assert forall|s2: Seq<u8>, b2: bool| (rr is Err
                                                    || !same_slot(it@, true, s2, b2)) implies
                                                    final(self).occupant_rest(s2, b2) == old(self).occupant_rest(s2, b2) by {

                                                    if s2.len() != 0 && s2[0] == COLON {
                                                        let t2 = s2.skip(1);
                                                        let k2 = first_in(t2, slash_set());
                                                        lemma_first_in(t2, slash_set());
                                                        let tail2 = t2.skip(k2);
                                                        if tail2.len() != 0 {
                                                            assert(tail2[0] == t2[k2]);
                                                            let k3 = first_in(tail2, marker_set());
                                                            lemma_first_in(tail2, marker_set());
                                                            let sk3 = tail2.skip(k3);
                                                            if sk3.len() != 0 {
                                                                assert(sk3[0] == tail2[k3]);
                                                            }
                                                            if tail2.take(k3) == text@ && same_slot(it2@, false, sk3, false) {
                                                                assert(same_slot(it@, true, tail2, true));
                                                                assert(same_slot(it@, true, s2, b2));
                                                                assert(rr is Err);
                                                            }
                                                            assert((*c).occupant_static(tail2.take(k3), sk3) == c0.occupant_static(tail2.take(k3), sk3));
                                                        }
                                                        assert(final(self).occupant_rest(tail2, true) == old(self).occupant_rest(tail2, true));
                                                    } else if s2.len() != 0 && s2[0] != STAR && b2 {
                                                        let k2 = first_in(s2, marker_set());
                                                        lemma_first_in(s2, marker_set());
                                                        let sk = s2.skip(k2);
                                                        if sk.len() != 0 {
                                                            assert(sk[0] == s2[k2]);
                                                        }
                                                        if s2.take(k2) == text@ && same_slot(it2@, false, sk, false) {
                                                            assert(same_slot(it@, true, s2, b2));
                                                            assert(rr is Err);
                                                        }
                                                        assert((*c).occupant_static(s2.take(k2), sk) == c0.occupant_static(s2.take(k2), sk));
                                                    }
                                                }
                                            }
                                            rr
                                        },
                                        None => {
                                            let mut c = Box::new(Node::new(text.as_slice()));
                                            let ghost cf = *c;
                                            proof {
                                                lemma_fresh_wf(*c, text@);
                                            }
                                            let rr = (&mut *c).insert_rest(
                                                it2,
                                                false,
                                                mapping,
                                                value,
                                                Ghost(k + 1),
                                            );
                                            p.child = Some(c);
                                            self.param_child = Some(p);
                                            proof {
                                                if rr is Ok {
                                                    lemma_common_len_is(text@, text@, text@.len() as int);
                                                    assert((*c).matching@ == text@);
                                                    assert((*c).present_static(text@, it2@));
                                                    assert(final(self).present_rest(it@, true));
                                                    assert((*c).occupant_static(text@, it2@)
                                                        == Some(
                                                        (value, mapping0@.map_values(
                                                            |n: Vec<u8>| n@,
                                                        ) + names_of(it2@)),
                                                    ));
                                                    assert(final(self).occupant_rest(it@, true)
                                                        == Some(
                                                        (value, mapping0@.map_values(
                                                            |n: Vec<u8>| n@,
                                                        ) + names_of(it@)),
                                                    ));
                                                }
                                                if tail_ok(it@) {
                                                    assert(rr is Ok);
                                                }
                                                lemma_fresh_no_occupant(cf, text@);
                                                let kk = first_in(it@, marker_set());
                                                lemma_first_in(it@, marker_set());
                                                if kk < it@.len() {
                                                    assert(it2@[0] == it@[kk]);
                                                }
                                                assert forall|t2: Seq<u8>, r2: Seq<u8>|
                                                    (r2.len() == 0 || r2[0] == COLON || r2[0]
                                                        == STAR) && (rr is Err || !(t2 == text@
                                                        && same_slot(it2@, false, r2, false)))
                                                    implies (*c).occupant_static(t2, r2)
                                                    is None by {
                                                    if t2.len() != 0 {
                                                        let cc = common_len(t2, (*c).matching@);
                                                        lemma_common_len(t2, (*c).matching@);
                                                        assert((*c).matching@ == text@);
                                                        if cc >= text@.len() {
                                                            if cc == t2.len() {
                                                                assert(t2 =~= text@);
                                                                assert((*c).occupant_rest(r2, false) == cf.occupant_rest(r2, false));
                                                                assert(cf.occupant_rest(r2, false) is None);
                                                            } else {
                                                                assert((*c).static_children == cf.static_children);
                                                                assert((*c).occupant_static(t2, r2) is None);
                                                            }
                                                        }
                                                    }
                                                }
                                                assert forall|s2: Seq<u8>, b2: bool| (rr is Err
                                                    || !same_slot(it@, true, s2, b2)) implies
                                                    final(self).occupant_rest(s2, b2) == old(self).occupant_rest(s2, b2) by {
                                                    if s2.len() != 0 && s2[0] == COLON {
                                                        let t2 = s2.skip(1);
                                                        let k2 = first_in(t2, slash_set());
                                                        lemma_first_in(t2, slash_set());
                                                        let tail2 = t2.skip(k2);
                                                        if tail2.len() != 0 {
                                                            assert(tail2[0] == t2[k2]);
                                                            let k3 = first_in(tail2, marker_set());
                                                            lemma_first_in(tail2, marker_set());
                                                            let sk3 = tail2.skip(k3);
                                                            if sk3.len() != 0 {
                                                                assert(sk3[0] == tail2[k3]);
                                                            }
                                                            if tail2.take(k3) == text@ && same_slot(it2@, false, sk3, false) {
                                                                assert(same_slot(it@, true, tail2, true));
                                                                assert(same_slot(it@, true, s2, b2));
                                                                assert(rr is Err);
                                                            }
                                                            assert((*c).occupant_static(tail2.take(k3), sk3) is None);
                                                        }
                                                        assert(final(self).occupant_rest(tail2, true) == old(self).occupant_rest(tail2, true));
                                                    } else if s2.len() != 0 && s2[0] != STAR && b2 {
                                                        let k2 = first_in(s2, marker_set());
                                                        lemma_first_in(s2, marker_set());
                                                        let sk = s2.skip(k2);
                                                        if sk.len() != 0 {
                                                            assert(sk[0] == s2[k2]);
                                                        }
                                                        if s2.take(k2) == text@ && same_slot(it2@, false, sk, false) {
                                                            assert(same_slot(it@, true, s2, b2));
                                                            assert(rr is Err);
                                                        }
                                                        assert((*c).occupant_static(s2.take(k2), sk) is None);
                                                    }
                                                }
                                            }
                                            rr
                                        },
                                    }
                                },
                                None => {
                                    proof {
                                        assert(false);
                                    }
                                    Err(InsertError::new())
                                },
                            }
                        } else {
                            let idx = self.static_children.find_or_insert(text.as_slice(), 0);
                            let ghost pre = *self;
                            proof {
                                let kk = first_in(
                                    pre.static_children.indices@,
                                    set![text@[0]],
                                );
                                lemma_first_in(pre.static_children.indices@, set![text@[0]]);
                                if !(kk < pre.static_children.indices@.len()) {
                                    lemma_fresh_wf(
                                        pre.static_children.children@[idx as int],
                                        text@.skip(0),
                                    );
                                }
                                assert(pre.static_children.children@[idx as int].wf_shape());
                                assert(pre.static_children.children@[idx as int].wf_depth(k));
                            }
                            let mut child = self.static_children.children.remove(idx);
                            let ghost child0 = child;
                            proof {
                                let kk = first_in(it@, marker_set());
                                lemma_first_in(it@, marker_set());
                                if kk < it@.len() {
                                    assert(it2@[0] == it@[kk]);
                                }
                            }
                            let rr = child.insert_static(
                                text.as_slice(),
                                0,
                                it2,
                                mapping,
                                value,
                                Ghost(k),
                            );
                            self.static_children.children.insert(idx, child);
                            proof {
                                lemma_remove_insert(
                                    pre.static_children.children@,
                                    idx as int,
                                    child,
                                );
                                lemma_child_update_wf(pre, *self, idx as int, child, k);
                                let b = text@[0];
                                assert(it@[0] == b && text@.skip(0) =~= text@);
                                if old(self).present_rest(it@, false) {
                                    let kk = first_in(
                                        old(self).static_children.indices@,
                                        set![b],
                                    );
                                    lemma_first_in(old(self).static_children.indices@, set![b]);
                                    assert(old(self).static_children.spec_get(b) is Some);
                                    assert(kk < old(self).static_children.indices@.len());
                                    assert(pre == *old(self));
                                    assert(idx as int == kk);
                                    assert(child0 == old(self).static_children.children@[kk]);
                                    assert(child0.present_static(text@, it2@));
                                    assert(rr is Err);
                                }
                                if rr is Ok {
                                    assert forall|j: int| 0 <= j < idx as int implies !(
                                    set![b].contains(
                                        #[trigger] final(self).static_children.indices@[j],
                                    )) by {
                                        assert(final(self).static_children.indices@[j]
                                            == pre.static_children.indices@[j]);
                                        assert(pre.static_children.indices@[idx as int] == b);
                                    }
                                    lemma_first_in_is(
                                        final(self).static_children.indices@,
                                        set![b],
                                        idx as int,
                                    );
                                    assert(final(self).static_children.spec_get(b) == Some(
                                        child,
                                    ));
                                    assert(child.present_static(text@, it2@));
                                    assert(final(self).present_rest(it@, false));
                                    assert(child.occupant_static(text@, it2@) == Some(
                                        (value, mapping0@.map_values(|n: Vec<u8>| n@)
                                            + names_of(it2@)),
                                    ));
                                    assert(final(self).occupant_rest(it@, false) == Some(
                                        (value, mapping0@.map_values(|n: Vec<u8>| n@)
                                            + names_of(it@)),
                                    ));
                                }
                                if tail_ok(it@) && !old(self).present_rest(it@, false) {
                                    let kk0 = first_in(
                                        old(self).static_children.indices@,
                                        set![b],
                                    );
                                    lemma_first_in(old(self).static_children.indices@, set![b]);
                                    if kk0 < old(self).static_children.indices@.len() {
                                        assert(pre == *old(self));
                                        assert(idx as int == kk0);
                                        assert(child0 == old(self).static_children.children@[kk0]);
                                        assert(old(self).static_children.spec_get(b) == Some(
                                            child0,
                                        ));
                                        assert(!child0.present_static(text@, it2@));
                                        assert(rr is Ok);
                                    } else {
                                        assert(is_fresh_node(child0, text@));
                                        lemma_fresh_not_present(child0, text@);
                                        lemma_common_len_is(text@, text@, text@.len() as int);
                                        assert(child0.matching@ == text@);
                                        assert(common_len(text@, child0.matching@)
                                            == text@.len());
                                        assert(!child0.present_rest(it2@, false));
                                        assert(text@.len() > 0);
                                        assert(!child0.present_static(text@, it2@));
                                        assert(rr is Ok);
                                    }
                                }
                                assert forall|s2: Seq<u8>, b2: bool|
                                    (rr is Err || !same_slot(it@, false, s2, b2)) implies final(self).occupant_rest(s2, b2) == old(self).occupant_rest(s2, b2) by {
                                    if s2.len() != 0 && s2[0] != COLON && s2[0] != STAR && !b2 {
                                        let k2 = first_in(s2, marker_set());
                                        lemma_first_in(s2, marker_set());
                                        let sk = s2.skip(k2);
                                        if sk.len() != 0 {
                                            assert(sk[0] == s2[k2]);
                                        }
                                        let kk0 = first_in(
                                            old(self).static_children.indices@,
                                            set![b],
                                        );
                                        lemma_first_in(
                                            old(self).static_children.indices@,
                                            set![b],
                                        );
                                        let kq_old = first_in(
                                            old(self).static_children.indices@,
                                            set![s2[0]],
                                        );
                                        lemma_first_in(
                                            old(self).static_children.indices@,
                                            set![s2[0]],
                                        );
                                        if s2[0] == b {
                                            if s2.take(k2) == text@ && same_slot(
                                                it2@,
                                                false,
                                                sk,
                                                false,
                                            ) {
                                                assert(same_slot(it@, false, s2, b2));
                                                assert(rr is Err);
                                            }
                                            assert(child.occupant_static(s2.take(k2), sk)
                                                == child0.occupant_static(s2.take(k2), sk));
                                            if kk0 < old(self).static_children.indices@.len() {
                                                assert(pre == *old(self));
                                                lemma_first_in_is(
                                                    final(self).static_children.indices@,
                                                    set![s2[0]],
                                                    idx as int,
                                                );
                                                assert(final(self).static_children.spec_get(
                                                    s2[0],
                                                ) == Some(child));
                                                assert(old(self).static_children.spec_get(s2[0])
                                                    == Some(child0));
                                            } else {
                                                lemma_fresh_no_occupant(child0, text@);
                                                lemma_first_in_is(
                                                    final(self).static_children.indices@,
                                                    set![s2[0]],
                                                    idx as int,
                                                );
                                                assert(final(self).static_children.spec_get(
                                                    s2[0],
                                                ) == Some(child));
                                                assert(old(self).static_children.spec_get(s2[0])
                                                    is None);
                                                assert(child0.occupant_static(
                                                    s2.take(k2),
                                                    sk,
                                                ) is None);
                                            }
                                        } else {
                                            if kq_old < old(self).static_children.indices@.len() {
                                                lemma_first_in_is(
                                                    final(self).static_children.indices@,
                                                    set![s2[0]],
                                                    kq_old,
                                                );
                                                assert(final(self).static_children.children@[kq_old] == old(self).static_children.children@[kq_old]);
                                            } else {
                                                assert forall|j: int|
                                                    0 <= j < final(self).static_children.indices@.len() implies !(
                                                    set![s2[0]].contains(
                                                        #[trigger] final(self).static_children.indices@[j],
                                                    )) by {
                                                    if j < old(self).static_children.indices@.len() {
                                                        assert(final(self).static_children.indices@[j] == old(self).static_children.indices@[j]);
                                                    } else {
                                                        assert(final(self).static_children.indices@[j] == b);
                                                    }
                                                }
                                                lemma_first_in_is(
                                                    final(self).static_children.indices@,
                                                    set![s2[0]],
                                                    final(self).static_children.indices@.len() as int,
                                                );
                                            }
                                        }
                                    } else {
                                        lemma_rest_frame_same_param(
                                            *final(self),
                                            *old(self),
                                            s2,
                                            b2,
                                        );
                                    }
                                }
                            }
                            rr
                        }
                    },
                    Segment::Param(_) => {
                        if after_param {
                            return Err(InsertError::new());
                        }
                        let ghost before_param = *self;
                        if self.param_child.is_none() {
                            self.param_child = Some(ParamNode { endpoint: None, child: None });
                        }
                        let ghost mid = *self;
                        proof {
                            let t = it@.skip(1);
                            lemma_first_in(t, slash_set());
                            if first_in(t, slash_set()) < t.len() {
                                assert(it2@[0] == SLASH);
                            }
                        }
                        let ghost mapping1 = mapping;
                        let rr = self.insert_rest(it2, true, mapping, value, Ghost(k));
                        proof {
                            if old(self).present_rest(it@, false) {
                                assert(rr is Err);
                            }
                            if rr is Ok {
                                assert(final(self).present_rest(it@, false));
                            }
                            if tail_ok(it@) && !old(self).present_rest(it@, false) {
                                assert(rr is Ok);
                            }
                            if rr is Ok {
                                let t = it@.skip(1);
                                let kk = first_in(t, slash_set());
                                assert(mapping1@.map_values(|n: Vec<u8>| n@) =~= mapping0@.map_values(
                                    |n: Vec<u8>| n@,
                                ).push(t.take(kk)));
                                assert(mapping1@.map_values(|n: Vec<u8>| n@) + names_of(it2@)
                                    =~= mapping0@.map_values(|n: Vec<u8>| n@) + names_of(it@));
                                assert(final(self).occupant_rest(it@, false) == Some(
                                    (value, mapping0@.map_values(|n: Vec<u8>| n@) + names_of(
                                        it@,
                                    )),
                                ));
                            }
                            assert forall|s2: Seq<u8>, b2: bool|
                                mid.occupant_rest(s2, b2) == old(self).occupant_rest(
                                    s2,
                                    b2,
                                ) by {
                                if before_param.param_child is None {
                                    lemma_fresh_param_no_occupant(before_param, mid, s2, b2);
                                }
                            }
                            if rr is Err {
                                assert forall|s2: Seq<u8>, b2: bool|
                                    final(self).occupant_rest(s2, b2) == old(self).occupant_rest(s2, b2) by {
                                    assert(final(self).occupant_rest(s2, b2)
                                        == mid.occupant_rest(s2, b2));
                                }
                            }
                            assert forall|s2: Seq<u8>, b2: bool| !same_slot(
                                it@,
                                after_param,
                                s2,
                                b2,
                            ) implies final(self).occupant_rest(s2, b2) == old(self).occupant_rest(s2, b2) by {
                                assert(same_slot(it@, false, s2, b2) == same_slot(
                                    it2@,
                                    true,
                                    s2,
                                    b2,
                                ));
                                assert(final(self).occupant_rest(s2, b2) == mid.occupant_rest(
                                    s2,
                                    b2,
                                ));
                            }
                        }
                        rr
                    },
                    Segment::CatchAll(_) => {
                        proof {
                            assert(!after_param);
                        }
                        if self.catch_all_child.is_some() {
                            return Err(InsertError::new());
                        }
                        let ghost mapping1 = mapping;
                        self.catch_all_child = Some(
                            CatchAllNode { endpoint: Endpoint { value, param_mapping: mapping } },
                        );
                        proof {
                            assert(mapping1@.map_values(|n: Vec<u8>| n@) =~= mapping0@.map_values(
                                |n: Vec<u8>| n@,
                            ).push(it@.skip(1)));
                            assert(mapping0@.map_values(|n: Vec<u8>| n@) + names_of(it@)
                                =~= mapping1@.map_values(|n: Vec<u8>| n@));
                            assert forall|s2: Seq<u8>, b2: bool| !same_slot(
                                it@,
                                after_param,
                                s2,
                                b2,
                            ) implies final(self).occupant_rest(s2, b2) == old(self).occupant_rest(s2, b2) by {
                                if s2.len() != 0 && s2[0] == STAR {
                                    assert(same_slot(it@, after_param, s2, b2));
                                } else {
                                    lemma_occupant_frame_catch_all(
                                        *final(self),
                                        *old(self),
                                        s2,
                                        b2,
                                    );
                                }
                            }
                        }
                        Ok(())
                    },
                }
            },
        }
    }

    /// Inserts a whole pattern below this node, re-reading its first
    /// literal segment against this node's text. Fails on a malformed
    /// pattern and on every structural conflict; a failed insertion may
    /// leave split nodes in place, but previously inserted routes remain
    /// matchable.
    pub fn insert(&mut self, segments: SegmentsIter<'_>, value: T) -> (r: Result<
        (),
        InsertError,
    >)
        requires
            old(self).wf_shape(),
            old(self).wf_depth(0),
            segments@.len() > 0,
            segments@[0] != COLON,
            segments@[0] != STAR,
            old(self).keyed_by(segments@[0]),
        ensures
            final(self).wf_shape(),
            final(self).wf_depth(0),
            forall|b: u8| old(self).keyed_by(b) ==> final(self).keyed_by(b),
            !tail_ok(segments@) ==> r is Err,
            none_in(segments@, marker_set()) && r is Ok ==> final(self).static_lookup(
                segments@,
            ) == Some(value),
            none_in(segments@, marker_set()) && old(self).static_lookup(segments@) is Some
                ==> r is Err,
            ({
                let k = first_in(segments@, marker_set());
                old(self).present_static(segments@.take(k), segments@.skip(k))
            }) ==> r is Err,
            r is Ok ==> ({
                let k = first_in(segments@, marker_set());
                final(self).present_static(segments@.take(k), segments@.skip(k))
            }),
            tail_ok(segments@) && !({
                let k = first_in(segments@, marker_set());
                old(self).present_static(segments@.take(k), segments@.skip(k))
            }) ==> r is Ok,
            r is Ok ==> ({
                let k = first_in(segments@, marker_set());
                final(self).occupant_static(segments@.take(k), segments@.skip(k)) == Some(
                    (value, names_of(segments@)),
                )
            }),
            r is Err ==> forall|text2: Seq<u8>, rest2: Seq<u8>|
                #![trigger final(self).occupant_static(text2, rest2)]
                (rest2.len() == 0 || rest2[0] == COLON || rest2[0] == STAR) ==> final(self).occupant_static(text2, rest2)
                    == old(self).occupant_static(text2, rest2),
            forall|text2: Seq<u8>, rest2: Seq<u8>|
                #![trigger final(self).occupant_static(text2, rest2)]
                (rest2.len() == 0 || rest2[0] == COLON || rest2[0] == STAR) && !({
                    let k = first_in(segments@, marker_set());
                    text2 == segments@.take(k) && same_slot(segments@.skip(k), false, rest2, false)
                }) ==> final(self).occupant_static(text2, rest2) == old(self).occupant_static(
                    text2,
                    rest2,
                ),
    {
        let mut it = segments;
        match it.next() {
            Some(Ok(Segment::Static(text))) => {
                proof {
                    if none_in(segments@, marker_set()) {
                        lemma_first_in(segments@, marker_set());
                        assert(first_in(segments@, marker_set()) == segments@.len());
                        assert(text@ =~= segments@);
                        assert(it@ =~= Seq::<u8>::empty());
                    }
                }
                proof {
                    let kk = first_in(segments@, marker_set());
                    lemma_first_in(segments@, marker_set());
                    if kk < segments@.len() {
                        assert(it@[0] == segments@[kk]);
                    }
                }
                let r = self.insert_static(text.as_slice(), 0, it, Vec::new(), value, Ghost(0));
                proof {
                    if none_in(segments@, marker_set()) {
                        assert(text@.skip(0) =~= segments@);
                    }
                    let kseg = first_in(segments@, marker_set());
                    assert(text@ == segments@.take(kseg));
                    assert(it@ == segments@.skip(kseg));
                    assert(text@.skip(0) =~= text@);
                    if r is Ok {
                        assert(Seq::<Vec<u8>>::empty().map_values(|n: Vec<u8>| n@) + names_of(
                            it@,
                        ) =~= names_of(segments@));
                        assert(final(self).occupant_static(
                            segments@.take(kseg),
                            segments@.skip(kseg),
                        ) == Some((value, names_of(segments@))));
                    }
                }
                r
            },
            _ => {
                proof {
                    assert(false);
                }
                Err(InsertError::new())
            },
        }
    }
}

impl<T> Tree<T> {
    /// Inserts `route` bound to `val`. It fails exactly on a malformed
    /// pattern — one that is empty, does not open with literal text, or has
    /// an empty or ill-formed name — or an occupied position: a duplicate
    /// endpoint or a second catch-all there. On success the position named
    /// by the pattern's shape holds exactly `val` with the pattern's
    /// parameter names; every other position is untouched, and a failed
    /// insertion changes no occupant at all, so previously inserted routes
    /// survive every later call. The table stays well-formed either way.
    #[verifier::rlimit(50)]
    pub fn insert(&mut self, route: &[u8], val: T) -> (r: Result<(), InsertError>)
        requires
            old(self).wf(),
        ensures
            final(self).wf(),
            !route_ok(route@) ==> r is Err,
            route@.len() > 0 && none_in(route@, marker_set()) && r is Ok
                ==> final(self).static_lookup(route@) == Some(val),
            route@.len() > 0 && none_in(route@, marker_set()) && old(self).static_lookup(route@)
                is Some ==> r is Err,
            old(self).present(route@) ==> r is Err,
            r is Ok ==> final(self).present(route@),
            route_ok(route@) && !old(self).present(route@) ==> r is Ok,
            r is Ok ==> final(self).occupant(route@) == Some((val, names_of(route@))),
            r is Err ==> forall|s2: Seq<u8>|
                #![trigger final(self).occupant(s2)]
                final(self).occupant(s2) == old(self).occupant(s2),
            forall|s2: Seq<u8>|
                #![trigger final(self).occupant(s2)]
                !same_slot(route@, false, s2, false) ==> final(self).occupant(s2)
                    == old(self).occupant(s2),
    {
        let mut it = SegmentsIter::new(route);
        match it.next() {
            Some(Ok(Segment::Static(text))) => {
                let idx = self.static_children.find_or_insert(text.as_slice(), 0);
                let ghost pre = *self;
                proof {
                    let kk = first_in(pre.static_children.indices@, set![text@[0]]);
                    lemma_first_in(pre.static_children.indices@, set![text@[0]]);
                    if !(kk < pre.static_children.indices@.len()) {
                        lemma_fresh_wf(
                            pre.static_children.children@[idx as int],
                            text@.skip(0),
                        );
                    }
                    assert(pre.static_children.children@[idx as int].wf_shape());
                    assert(pre.static_children.children@[idx as int].wf_depth(0));
                    assert(text@[0] == route@[0]);
                }
                let mut child = self.static_children.children.remove(idx);
                let ghost child0 = child;
                let rr = child.insert(SegmentsIter::new(route), val);
                self.static_children.children.insert(idx, child);
                proof {
                    lemma_remove_insert(pre.static_children.children@, idx as int, child);
                    assert(final(self).static_children.children@ =~= pre.static_children.children@.update(idx as int, child));
                    assert(pre.static_children.children@[idx as int].keyed_by(
                        pre.static_children.indices@[idx as int],
                    ));
                    assert(child.keyed_by(pre.static_children.indices@[idx as int]));
                    assert forall|i: int|
                        0 <= i < final(self).static_children.children@.len() implies (
                    #[trigger] final(self).static_children.children@[i]).wf_shape()
                        && final(self).static_children.children@[i].wf_depth(0)
                        && final(self).static_children.children@[i].matching@.len() > 0
                        && final(self).static_children.children@[i].matching@[0]
                        == final(self).static_children.indices@[i] by {
                        if i == idx {
                            assert(final(self).static_children.children@[i] == child);
                        } else {
                            assert(final(self).static_children.children@[i]
                                == pre.static_children.children@[i]);
                            let kk = first_in(
                                old(self).static_children.indices@,
                                set![route@[0]],
                            );
                            if !(kk < old(self).static_children.indices@.len()) {
                                assert(pre.static_children.children@[i] == old(self).static_children.children@[i]);
                            }
                        }
                    }
                    if route@.len() > 0 && none_in(route@, marker_set()) {
                        lemma_first_in(route@, marker_set());
                        assert(text@ =~= route@);
                        let b = route@[0];
                        assert forall|j: int| 0 <= j < idx as int implies !(set![b].contains(
                            #[trigger] final(self).static_children.indices@[j],
                        )) by {
                            assert(final(self).static_children.indices@[j]
                                == pre.static_children.indices@[j]);
                            assert(pre.static_children.indices@[idx as int] == b);
                        }
                        lemma_first_in_is(
                            final(self).static_children.indices@,
                            set![b],
                            idx as int,
                        );
                        if rr is Ok {
                            assert(final(self).static_children.spec_get(b) == Some(child));
                            assert(child.static_lookup(route@) == Some(val));
                            assert(final(self).static_lookup(route@) == Some(val));
                        }
                        if old(self).static_lookup(route@) is Some {
                            let kk = first_in(old(self).static_children.indices@, set![b]);
                            lemma_first_in(old(self).static_children.indices@, set![b]);
                            assert(old(self).static_children.spec_get(b) is Some);
                            assert(kk < old(self).static_children.indices@.len());
                            assert(pre == *old(self));
                            assert(idx as int == kk);
                            assert(child0 == old(self).static_children.children@[kk]);
                            assert(child0.static_lookup(route@) is Some);
                            assert(rr is Err);
                        }
                    }
                    let kseg = first_in(route@, marker_set());
                    assert(text@ == route@.take(kseg) && kseg >= 1);
                    let b2 = route@[0];
                    assert(text@[0] == b2);
                    if old(self).present(route@) {
                        let kk = first_in(old(self).static_children.indices@, set![b2]);
                        lemma_first_in(old(self).static_children.indices@, set![b2]);
                        assert(old(self).static_children.spec_get(b2) is Some);
                        assert(kk < old(self).static_children.indices@.len());
                        assert(pre == *old(self));
                        assert(idx as int == kk);
                        assert(child0 == old(self).static_children.children@[kk]);
                        assert(child0.present_static(route@.take(kseg), route@.skip(kseg)));
                        assert(rr is Err);
                    }
                    if rr is Ok {
                        assert forall|j: int| 0 <= j < idx as int implies !(set![b2].contains(
                            #[trigger] final(self).static_children.indices@[j],
                        )) by {
                            assert(final(self).static_children.indices@[j]
                                == pre.static_children.indices@[j]);
                            assert(pre.static_children.indices@[idx as int] == b2);
                        }
                        lemma_first_in_is(
                            final(self).static_children.indices@,
                            set![b2],
                            idx as int,
                        );
                        assert(final(self).static_children.spec_get(b2) == Some(child));
                        assert(child.present_static(route@.take(kseg), route@.skip(kseg)));
                        assert(final(self).present(route@));
                        assert(child.occupant_static(route@.take(kseg), route@.skip(kseg))
                            == Some((val, names_of(route@))));
                        assert(final(self).occupant(route@) == Some((val, names_of(route@))));
                    }
                    assert forall|s2: Seq<u8>| (rr is Err || !same_slot(
                        route@,
                        false,
                        s2,
                        false,
                    )) implies final(self).occupant(s2) == old(self).occupant(s2) by {
                        if s2.len() != 0 && s2[0] != COLON && s2[0] != STAR {
                            let k2 = first_in(s2, marker_set());
                            lemma_first_in(s2, marker_set());
                            let sk = s2.skip(k2);
                            if sk.len() != 0 {
                                assert(sk[0] == s2[k2]);
                            }
                            let rb = route@[0];
                            let kk0 = first_in(old(self).static_children.indices@, set![rb]);
                            lemma_first_in(old(self).static_children.indices@, set![rb]);
                            let kq = first_in(old(self).static_children.indices@, set![s2[0]]);
                            lemma_first_in(old(self).static_children.indices@, set![s2[0]]);
                            if s2[0] == rb {
                                if s2.take(k2) == route@.take(kseg) && same_slot(
                                    route@.skip(kseg),
                                    false,
                                    sk,
                                    false,
                                ) {
                                    assert(same_slot(route@, false, s2, false));
                                    assert(rr is Err);
                                }
                                assert(child.occupant_static(s2.take(k2), sk)
                                    == child0.occupant_static(s2.take(k2), sk));
                                lemma_first_in_is(
                                    final(self).static_children.indices@,
                                    set![s2[0]],
                                    idx as int,
                                );
                                assert(final(self).static_children.spec_get(s2[0]) == Some(
                                    child,
                                ));
                                if kk0 < old(self).static_children.indices@.len() {
                                    assert(pre == *old(self));
                                    assert(old(self).static_children.spec_get(s2[0]) == Some(
                                        child0,
                                    ));
                                } else {
                                    assert(text@.skip(0) =~= text@);
                                    lemma_fresh_no_occupant(child0, route@.take(kseg));
                                    assert(old(self).static_children.spec_get(s2[0]) is None);
                                    assert(child0.occupant_static(s2.take(k2), sk) is None);
                                }
                            } else {
                                if kq < old(self).static_children.indices@.len() {
                                    lemma_first_in_is(
                                        final(self).static_children.indices@,
                                        set![s2[0]],
                                        kq,
                                    );
                                    assert(final(self).static_children.children@[kq] == old(self).static_children.children@[kq]);
                                } else {
                                    assert forall|j: int|
                                        0 <= j < final(self).static_children.indices@.len()
                                        implies !(set![s2[0]].contains(
                                        #[trigger] final(self).static_children.indices@[j],
                                    )) by {
                                        if j < old(self).static_children.indices@.len() {
                                            assert(final(self).static_children.indices@[j]
                                                == old(self).static_children.indices@[j]);
                                        } else {
                                            assert(final(self).static_children.indices@[j]
                                                == rb);
                                        }
                                    }
                                    lemma_first_in_is(
                                        final(self).static_children.indices@,
                                        set![s2[0]],
                                        final(self).static_children.indices@.len() as int,
                                    );
                                    assert(final(self).occupant(s2) is None);
                                    assert(old(self).occupant(s2) is None);
                                }
                            }
                        }
                    }
                    if route_ok(route@) && !old(self).present(route@) {
                        lemma_first_in(route@, marker_set());
                        assert(route@.take(kseg).len() == kseg);
                        let kk0 = first_in(old(self).static_children.indices@, set![b2]);
                        lemma_first_in(old(self).static_children.indices@, set![b2]);
                        if kk0 < old(self).static_children.indices@.len() {
                            assert(pre == *old(self));
                            assert(idx as int == kk0);
                            assert(child0 == old(self).static_children.children@[kk0]);
                            assert(old(self).static_children.spec_get(b2) == Some(child0));
                            assert(!child0.present_static(
                                route@.take(kseg),
                                route@.skip(kseg),
                            ));
                        } else {
                            assert(text@.skip(0) =~= text@);
                            assert(is_fresh_node(child0, route@.take(kseg)));
                            lemma_fresh_not_present(child0, route@.take(kseg));
                            lemma_common_len_is(route@.take(kseg), route@.take(kseg), kseg);
                            assert(child0.matching@ == route@.take(kseg));
                            assert(common_len(route@.take(kseg), child0.matching@) == kseg);
                            assert(!child0.present_rest(route@.skip(kseg), false));
                            assert(route@.take(kseg).len() > 0);
                            assert(!child0.present_static(
                                route@.take(kseg),
                                route@.skip(kseg),
                            ));
                        }
                        assert(rr is Ok);
                    }
                }
                rr
            },
            _ => Err(InsertError::new()),
        }
    }
}


impl<T> Node<T> {
    /// A purely literal match below this node: the path equals the node's
    /// text and ends at its endpoint, or continues into the static child
    /// keyed by the next byte. No parameter or catch-all takes part.
    pub closed spec fn static_lookup(self, path: Seq<u8>) -> Option<T>
        decreases self,
        via Self::static_lookup_dec
    {
        let m = self.matching@;
        if path.len() > m.len() && path.take(m.len() as int) == m {
            let rest = path.skip(m.len() as int);
            match self.static_children.spec_get(rest[0]) {
                Some(c) => c.static_lookup(rest),
                None => None,
            }
        } else if path == m {
            match self.endpoint {
                Some(ep) => Some(ep.value),
                None => None,
            }
        } else {
            None
        }
    }

    #[via_fn]
    proof fn static_lookup_dec(self, path: Seq<u8>) {
        let m = self.matching@;
        if path.len() > m.len() && path.take(m.len() as int) == m {
            let rest = path.skip(m.len() as int);
            if self.static_children.spec_get(rest[0]) is Some {
                let k = first_in(self.static_children.indices@, set![rest[0]]);
                lemma_first_in(self.static_children.indices@, set![rest[0]]);
                assert(decreases_to!(self => self.static_children));
                assert(decreases_to!(self.static_children => self.static_children.children));
                assert(decreases_to!(self.static_children.children => self.static_children.children@));
                assert(decreases_to!(self.static_children.children@ => self.static_children.children@[k]));
                assert(decreases_to!(self => self.static_children.children@[k]));
            }
        }
    }
}

impl<T> Tree<T> {
    /// A purely literal match of the whole table.
    pub closed spec fn static_lookup(self, path: Seq<u8>) -> Option<T> {
        if path.len() == 0 {
            None
        } else {
            match self.static_children.spec_get(path[0]) {
                Some(c) => c.static_lookup(path),
                None => None,
            }
        }
    }
}

/// Static precedence below one node: whenever a purely literal route covers
/// the whole remaining path, lookup returns exactly that route's value, with
/// no parameters bound and no catch-all taken — whatever overlapping
/// parameter or catch-all routes exist beside it.
pub proof fn lemma_node_static_precedence<T>(n: Node<T>, path: Seq<u8>)
    requires
        n.static_lookup(path) is Some,
    ensures
        n.look(path) matches Some(f) && Some(f.0) == n.static_lookup(path) && f.2
            == Seq::<Seq<u8>>::empty() && !f.3,
    decreases n,
{
    let m = n.matching@;
    if path.len() > m.len() && path.take(m.len() as int) == m {
        let rest = path.skip(m.len() as int);
        match n.static_children.spec_get(rest[0]) {
            Some(c) => {
                let k = first_in(n.static_children.indices@, set![rest[0]]);
                lemma_first_in(n.static_children.indices@, set![rest[0]]);
                assert(c == n.static_children.children@[k]);
                lemma_node_static_precedence(c, rest);
            },
            None => {},
        }
    }
}

/// Static precedence (the law for the whole table): a literal route that
/// matches the path exactly wins over every overlapping parameter or
/// catch-all route.
pub proof fn lemma_static_precedence<T>(t: Tree<T>, path: Seq<u8>)
    requires
        t.static_lookup(path) is Some,
    ensures
        t.look(path) matches Some(f) && Some(f.0) == t.static_lookup(path) && f.2
            == Seq::<Seq<u8>>::empty() && !f.3,
{
    match t.static_children.spec_get(path[0]) {
        Some(c) => {
            lemma_node_static_precedence(c, path);
        },
        None => {},
    }
}

/// Extraction shape (the law for every hit): a well-formed table binds as
/// many values as the winning route recorded names, every bound value but a
/// final catch-all run is free of the component separator, and a win that
/// avoids the catch-all binds no separator at all.
pub proof fn lemma_match_params<T>(t: Tree<T>, path: Seq<u8>)
    requires
        t.wf(),
    ensures
        match t.look(path) {
            Some(f) => {
                &&& f.1.len() == f.2.len()
                &&& forall|i: int| 0 <= i < f.2.len() - 1 ==> none_in(#[trigger] f.2[i], slash_set())
                &&& !f.3 && f.2.len() > 0 ==> none_in(f.2[f.2.len() - 1], slash_set())
            },
            None => true,
        },
{
    if path.len() > 0 {
        match t.static_children.spec_get(path[0]) {
            Some(c) => {
                let k = first_in(t.static_children.indices@, set![path[0]]);
                lemma_first_in(t.static_children.indices@, set![path[0]]);
                assert(c == t.static_children.children@[k]);
                assert(c.wf_depth(0));
                lemma_look_props(c, path, 0);
            },
            None => {},
        }
    }
}


impl<T> Node<T> {
    /// True when the position a pattern's remaining text `s` addresses
    /// already exists in this subtree and is occupied: the insert-side
    /// conflict. Parameter and catch-all names play no part in it.
    pub closed spec fn present_rest(self, s: Seq<u8>, after_param: bool) -> bool
        decreases s.len(), 0int, self, 1int,
        via Self::present_rest_dec
    {
        if s.len() == 0 {
            if after_param {
                match self.param_child {
                    Some(p) => p.endpoint is Some,
                    None => false,
                }
            } else {
                self.endpoint is Some
            }
        } else if s[0] == COLON {
            let t = s.skip(1);
            let k = first_in(t, slash_set());
            self.param_child is Some && self.present_rest(t.skip(k), true)
        } else if s[0] == STAR {
            self.catch_all_child is Some
        } else {
            let k = first_in(s, marker_set());
            if after_param {
                match self.param_child {
                    Some(p) => match p.child {
                        Some(c) => c.present_static(s.take(k), s.skip(k)),
                        None => false,
                    },
                    None => false,
                }
            } else {
                match self.static_children.spec_get(s[0]) {
                    Some(c) => c.present_static(s.take(k), s.skip(k)),
                    None => false,
                }
            }
        }
    }

    #[via_fn]
    proof fn present_rest_dec(self, s: Seq<u8>, after_param: bool) {
        if s.len() != 0 {
            if s[0] == COLON {
                lemma_first_in(s.skip(1), slash_set());
            } else if s[0] != STAR {
                lemma_first_in(s, marker_set());
                assert(first_in(s, marker_set()) >= 1);
                if after_param {
                    if self.param_child is Some {
                        let p = self.param_child->Some_0;
                        if p.child is Some {
                            assert(decreases_to!(self => self.param_child));
                            assert(decreases_to!(self.param_child => self.param_child->Some_0));
                            assert(decreases_to!(p => p.child));
                            assert(decreases_to!(p.child => p.child->Some_0));
                            assert(decreases_to!(self => p.child->Some_0));
                        }
                    }
                } else {
                    if self.static_children.spec_get(s[0]) is Some {
                        let kk = first_in(self.static_children.indices@, set![s[0]]);
                        lemma_first_in(self.static_children.indices@, set![s[0]]);
                        assert(decreases_to!(self => self.static_children));
                        assert(decreases_to!(self.static_children => self.static_children.children));
                        assert(decreases_to!(self.static_children.children => self.static_children.children@));
                        assert(decreases_to!(self.static_children.children@ => self.static_children.children@[kk]));
                        assert(decreases_to!(self => self.static_children.children@[kk]));
                    }
                }
            }
        }
    }

    /// The static-walk part of [`Node::present_rest`]: `text` is the rest
    /// of one literal run, `rest` the pattern after it. The walk follows
    /// existing nodes only; a split or a missing child means the position
    /// is new, so no conflict.
    pub closed spec fn present_static(self, text: Seq<u8>, rest: Seq<u8>) -> bool
        decreases rest.len(), text.len(), self, 0int,
        via Self::present_static_dec
    {
        if text.len() == 0 {
            false
        } else {
            let c = common_len(text, self.matching@);
            if c < self.matching@.len() {
                false
            } else if c == text.len() {
                self.present_rest(rest, false)
            } else {
                match self.static_children.spec_get(text[c]) {
                    Some(ch) => ch.present_static(text.skip(c), rest),
                    None => false,
                }
            }
        }
    }

    #[via_fn]
    proof fn present_static_dec(self, text: Seq<u8>, rest: Seq<u8>) {
        if text.len() != 0 {
            let c = common_len(text, self.matching@);
            lemma_common_len(text, self.matching@);
            if c >= self.matching@.len() && c != text.len() {
                if self.static_children.spec_get(text[c]) is Some {
                    let kk = first_in(self.static_children.indices@, set![text[c]]);
                    lemma_first_in(self.static_children.indices@, set![text[c]]);
                    assert(decreases_to!(self => self.static_children));
                    assert(decreases_to!(self.static_children => self.static_children.children));
                    assert(decreases_to!(self.static_children.children => self.static_children.children@));
                    assert(decreases_to!(self.static_children.children@ => self.static_children.children@[kk]));
                    assert(decreases_to!(self => self.static_children.children@[kk]));
                }
            }
        }
    }
}

impl<T> Tree<T> {
    /// True when the position that pattern `s` addresses is already
    /// occupied in the table; names of parameters play no part.
    pub closed spec fn present(self, s: Seq<u8>) -> bool {
        if s.len() == 0 || s[0] == COLON || s[0] == STAR {
            false
        } else {
            let k = first_in(s, marker_set());
            match self.static_children.spec_get(s[0]) {
                Some(c) => c.present_static(s.take(k), s.skip(k)),
                None => false,
            }
        }
    }
}


/// Presence below a node does not see parameter names: two pattern tails of
/// the same shape address the same position.
proof fn lemma_shape_rest<T>(n: Node<T>, a: Seq<u8>, b: Seq<u8>, after_param: bool)
    requires
        same_shape(a, b),
    ensures
        n.present_rest(a, after_param) == n.present_rest(b, after_param),
    decreases a.len(), 0int, n, 1int,
{
    if a.len() == 0 {
    } else if a[0] == COLON {
        let ta = a.skip(1);
        let tb = b.skip(1);
        let ka = first_in(ta, slash_set());
        let kb = first_in(tb, slash_set());
        lemma_first_in(ta, slash_set());
        lemma_shape_rest(n, ta.skip(ka), tb.skip(kb), true);
    } else if a[0] == STAR {
    } else {
        let ka = first_in(a, marker_set());
        let kb = first_in(b, marker_set());
        lemma_first_in(a, marker_set());
        lemma_first_in(b, marker_set());
        assert(ka >= 1);
        assert(a.take(ka) == b.take(kb));
        assert(a.take(ka).len() == ka && b.take(kb).len() == kb);
        assert(kb == ka);
        assert(b[0] == b.take(kb)[0] && a[0] == a.take(ka)[0]);
        assert(a[0] == b[0]);
        if after_param {
            match n.param_child {
                Some(p) => match p.child {
                    Some(c) => {
                        lemma_shape_static(*c, a.take(ka), a.skip(ka), b.skip(kb));
                    },
                    None => {},
                },
                None => {},
            }
        } else {
            match n.static_children.spec_get(a[0]) {
                Some(c) => {
                    lemma_shape_static(c, a.take(ka), a.skip(ka), b.skip(kb));
                },
                None => {},
            }
        }
    }
}

/// The static-walk part of the same fact: with the literal run fixed, two
/// same-shaped continuations give one answer.
proof fn lemma_shape_static<T>(n: Node<T>, text: Seq<u8>, ra: Seq<u8>, rb: Seq<u8>)
    requires
        same_shape(ra, rb),
    ensures
        n.present_static(text, ra) == n.present_static(text, rb),
    decreases ra.len(), text.len(), n, 0int,
{
    if text.len() != 0 {
        let c = common_len(text, n.matching@);
        lemma_common_len(text, n.matching@);
        if c >= n.matching@.len() {
            if c == text.len() {
                lemma_shape_rest(n, ra, rb, false);
            } else {
                match n.static_children.spec_get(text[c]) {
                    Some(ch) => {
                        let kk = first_in(n.static_children.indices@, set![text[c]]);
                        lemma_first_in(n.static_children.indices@, set![text[c]]);
                        assert(decreases_to!(n => n.static_children));
                        assert(decreases_to!(n.static_children => n.static_children.children));
                        assert(decreases_to!(n.static_children.children => n.static_children.children@));
                        assert(decreases_to!(n.static_children.children@ => n.static_children.children@[kk]));
                        assert(decreases_to!(n => n.static_children.children@[kk]));
                        lemma_shape_static(ch, text.skip(c), ra, rb);
                    },
                    None => {},
                }
            }
        }
    }
}

/// Below one node, a purely literal lookup finds exactly the value of the
/// occupant that the same text addresses as a pattern.
proof fn lemma_node_static_is_occupant<T>(n: Node<T>, path: Seq<u8>)
    requires
        n.wf_shape(),
        n.matching@.len() > 0,
    ensures
        n.static_lookup(path) == (match n.occupant_static(path, Seq::<u8>::empty()) {
            Some(f) => Some(f.0),
            None => None::<T>,
        }),
    decreases n,
{
    let m = n.matching@;
    if path.len() == 0 {
    } else {
        let c = common_len(path, m);
        lemma_common_len(path, m);
        if c >= m.len() {
            assert(path.take(m.len() as int) =~= m);
            if c == path.len() {
                assert(path =~= m);
                assert(n.occupant_static(path, Seq::<u8>::empty()) == n.occupant_rest(
                    Seq::<u8>::empty(),
                    false,
                ));
            } else {
                assert(path.len() > m.len());
                match n.static_children.spec_get(path[c]) {
                    Some(ch) => {
                        let kk = first_in(n.static_children.indices@, set![path[c]]);
                        lemma_first_in(n.static_children.indices@, set![path[c]]);
                        assert(ch == n.static_children.children@[kk]);
                        assert(ch.wf_shape() && ch.matching@.len() > 0);
                        assert(decreases_to!(n => n.static_children));
                        assert(decreases_to!(n.static_children => n.static_children.children));
                        assert(decreases_to!(n.static_children.children => n.static_children.children@));
                        assert(decreases_to!(n.static_children.children@ => n.static_children.children@[kk]));
                        assert(decreases_to!(n => n.static_children.children@[kk]));
                        lemma_node_static_is_occupant(ch, path.skip(c));
                        assert(n.occupant_static(path, Seq::<u8>::empty())
                            == ch.occupant_static(path.skip(c), Seq::<u8>::empty()));
                        assert(n.static_lookup(path) == ch.static_lookup(path.skip(c)));
                    },
                    None => {
                        assert(n.static_lookup(path) is None);
                        assert(n.occupant_static(path, Seq::<u8>::empty()) is None);
                    },
                }
            }
        } else {
            if path.len() > m.len() {
                assert(path.take(m.len() as int)[c] != m[c]);
                assert(path.take(m.len() as int) != m);
            }
            if path.len() == m.len() {
                assert(path[c] != m[c]);
                assert(path != m);
            }
            assert(n.static_lookup(path) is None);
            assert(n.occupant_static(path, Seq::<u8>::empty()) is None);
        }
    }
}

/// For a purely literal pattern, the literal lookup of its text is exactly
/// the value of its occupant. With the insert contract's frame, a literal
/// route therefore stays findable — and by static precedence, keeps winning
/// its exact path — across every later insertion.
pub proof fn lemma_static_lookup_is_occupant<T>(t: Tree<T>, s: Seq<u8>)
    requires
        t.wf(),
        none_in(s, marker_set()),
    ensures
        t.static_lookup(s) == (match t.occupant(s) {
            Some(f) => Some(f.0),
            None => None::<T>,
        }),
{
    if s.len() > 0 {
        lemma_first_in(s, marker_set());
        let k = first_in(s, marker_set());
        assert(k == s.len());
        assert(s.take(k) =~= s);
        assert(s.skip(k) =~= Seq::<u8>::empty());
        match t.static_children.spec_get(s[0]) {
            Some(c) => {
                let kk = first_in(t.static_children.indices@, set![s[0]]);
                lemma_first_in(t.static_children.indices@, set![s[0]]);
                assert(c == t.static_children.children@[kk]);
                assert(c.wf_shape() && c.matching@.len() > 0);
                lemma_node_static_is_occupant(c, s);
            },
            None => {},
        }
    }
}


/// Literal extraction (the law): whenever a purely literal pattern has an
/// occupant — as after its successful insert, and preserved by the frame of
/// every later insert — looking up exactly its text returns the stored
/// value, with no parameters bound and no catch-all taken.
pub proof fn lemma_literal_extraction<T>(t: Tree<T>, s: Seq<u8>)
    requires
        t.wf(),
        none_in(s, marker_set()),
        t.occupant(s) is Some,
    ensures
        t.look(s) matches Some(g) && Some(g.0) == (match t.occupant(s) {
            Some(f) => Some(f.0),
            None => None::<T>,
        }) && g.2 == Seq::<Seq<u8>>::empty() && !g.3,
{
    lemma_static_lookup_is_occupant(t, s);
    lemma_static_precedence(t, s);
}


/// Patterns of one shape address one slot: the conflict law's relation
/// implies the frame law's, so a route shown present through one pattern is
/// exactly the occupant that an insert of a same-shaped pattern would need.
pub proof fn lemma_same_shape_same_slot(a: Seq<u8>, pa: bool, b: Seq<u8>, pb: bool)
    requires
        same_shape(a, b),
        pa == pb,
    ensures
        same_slot(a, pa, b, pb),
    decreases a.len() + b.len(),
{
    if a.len() == 0 || b.len() == 0 {
    } else if a[0] == COLON {
        let ta = a.skip(1).skip(first_in(a.skip(1), slash_set()));
        let tb = b.skip(1).skip(first_in(b.skip(1), slash_set()));
        lemma_first_in(a.skip(1), slash_set());
        lemma_first_in(b.skip(1), slash_set());
        lemma_same_shape_same_slot(ta, true, tb, true);
        if ta.len() != 0 {
            assert(ta[0] == a.skip(1)[first_in(a.skip(1), slash_set())]);
        }
        assert(same_slot(ta, true, b, pb) == same_slot(ta, true, tb, true));
    } else if a[0] == STAR {
    } else {
        let ka = first_in(a, marker_set());
        let kb = first_in(b, marker_set());
        lemma_first_in(a, marker_set());
        lemma_first_in(b, marker_set());
        assert(ka >= 1);
        assert(a.take(ka).len() == ka && b.take(kb).len() == kb);
        assert(kb == ka);
        assert(b[0] == b.take(kb)[0] && a[0] == a.take(ka)[0]);
        assert(a[0] == b[0]);
        lemma_same_shape_same_slot(a.skip(ka), false, b.skip(kb), false);
    }
}


/// Conflict rejection (the law): two patterns that differ only in their
/// parameter or catch-all names address one position in the table. Whenever
/// one of them occupies that position — as `Tree::insert` guarantees of a
/// pattern it accepted — the other occupies it too, so inserting the other
/// is the conflict that `Tree::insert`'s contract rejects.
pub proof fn lemma_conflict_rejection<T>(t: Tree<T>, a: Seq<u8>, b: Seq<u8>)
    requires
        same_shape(a, b),
        t.present(a),
    ensures
        t.present(b),
{
    let ka = first_in(a, marker_set());
    let kb = first_in(b, marker_set());
    lemma_first_in(a, marker_set());
    lemma_first_in(b, marker_set());
    assert(a.len() > 0 && a[0] != COLON && a[0] != STAR);
    assert(ka >= 1);
    assert(a.take(ka) == b.take(kb));
    assert(a.take(ka).len() == ka && b.take(kb).len() == kb);
    assert(kb == ka);
    assert(b[0] == b.take(kb)[0] && a[0] == a.take(ka)[0]);
    assert(a[0] == b[0]);
    match t.static_children.spec_get(a[0]) {
        Some(c) => {
            lemma_shape_static(c, a.take(ka), a.skip(ka), b.skip(kb));
        },
        None => {},
    }
}


impl<T> Node<T> {
    /// The (value, names) pair of the endpoint occupying the position a
    /// pattern tail addresses, if the position exists and is occupied.
    pub closed spec fn occupant_rest(self, s: Seq<u8>, after_param: bool) -> Option<
        (T, Seq<Seq<u8>>),
    >
        decreases s.len(), 0int, self, 1int,
        via Self::occupant_rest_dec
    {
        if s.len() == 0 {
            if after_param {
                match self.param_child {
                    Some(p) => match p.endpoint {
                        Some(ep) => Some(
                            (ep.value, ep.param_mapping@.map_values(|n: Vec<u8>| n@)),
                        ),
                        None => None,
                    },
                    None => None,
                }
            } else {
                match self.endpoint {
                    Some(ep) => Some((ep.value, ep.param_mapping@.map_values(|n: Vec<u8>| n@))),
                    None => None,
                }
            }
        } else if s[0] == COLON {
            let t = s.skip(1);
            let k = first_in(t, slash_set());
            if self.param_child is Some {
                self.occupant_rest(t.skip(k), true)
            } else {
                None
            }
        } else if s[0] == STAR {
            match self.catch_all_child {
                Some(c) => Some(
                    (c.endpoint.value, c.endpoint.param_mapping@.map_values(|n: Vec<u8>| n@)),
                ),
                None => None,
            }
        } else {
            let k = first_in(s, marker_set());
            if after_param {
                match self.param_child {
                    Some(p) => match p.child {
                        Some(c) => c.occupant_static(s.take(k), s.skip(k)),
                        None => None,
                    },
                    None => None,
                }
            } else {
                match self.static_children.spec_get(s[0]) {
                    Some(c) => c.occupant_static(s.take(k), s.skip(k)),
                    None => None,
                }
            }
        }
    }

    #[via_fn]
    proof fn occupant_rest_dec(self, s: Seq<u8>, after_param: bool) {
        if s.len() != 0 {
            if s[0] == COLON {
                lemma_first_in(s.skip(1), slash_set());
            } else if s[0] != STAR {
                lemma_first_in(s, marker_set());
                assert(first_in(s, marker_set()) >= 1);
                if after_param {
                    if self.param_child is Some {
                        let p = self.param_child->Some_0;
                        if p.child is Some {
                            assert(decreases_to!(self => self.param_child));
                            assert(decreases_to!(self.param_child => self.param_child->Some_0));
                            assert(decreases_to!(p => p.child));
                            assert(decreases_to!(p.child => p.child->Some_0));
                            assert(decreases_to!(self => p.child->Some_0));
                        }
                    }
                } else {
                    if self.static_children.spec_get(s[0]) is Some {
                        let kk = first_in(self.static_children.indices@, set![s[0]]);
                        lemma_first_in(self.static_children.indices@, set![s[0]]);
                        assert(decreases_to!(self => self.static_children));
                        assert(decreases_to!(self.static_children => self.static_children.children));
                        assert(decreases_to!(self.static_children.children => self.static_children.children@));
                        assert(decreases_to!(self.static_children.children@ => self.static_children.children@[kk]));
                        assert(decreases_to!(self => self.static_children.children@[kk]));
                    }
                }
            }
        }
    }

    /// The static-walk part of [`Node::occupant_rest`].
    pub closed spec fn occupant_static(self, text: Seq<u8>, rest: Seq<u8>) -> Option<
        (T, Seq<Seq<u8>>),
    >
        decreases rest.len(), text.len(), self, 0int,
        via Self::occupant_static_dec
    {
        if text.len() == 0 {
            None
        } else {
            let c = common_len(text, self.matching@);
            if c < self.matching@.len() {
                None
            } else if c == text.len() {
                self.occupant_rest(rest, false)
            } else {
                match self.static_children.spec_get(text[c]) {
                    Some(ch) => ch.occupant_static(text.skip(c), rest),
                    None => None,
                }
            }
        }
    }

    #[via_fn]
    proof fn occupant_static_dec(self, text: Seq<u8>, rest: Seq<u8>) {
        if text.len() != 0 {
            let c = common_len(text, self.matching@);
            lemma_common_len(text, self.matching@);
            if c >= self.matching@.len() && c != text.len() {
                if self.static_children.spec_get(text[c]) is Some {
                    let kk = first_in(self.static_children.indices@, set![text[c]]);
                    lemma_first_in(self.static_children.indices@, set![text[c]]);
                    assert(decreases_to!(self => self.static_children));
                    assert(decreases_to!(self.static_children => self.static_children.children));
                    assert(decreases_to!(self.static_children.children => self.static_children.children@));
                    assert(decreases_to!(self.static_children.children@ => self.static_children.children@[kk]));
                    assert(decreases_to!(self => self.static_children.children@[kk]));
                }
            }
        }
    }
}

impl<T> Tree<T> {
    /// The (value, names) pair stored where pattern `s` ends, if that
    /// position exists in the table and is occupied.
    pub closed spec fn occupant(self, s: Seq<u8>) -> Option<(T, Seq<Seq<u8>>)> {
        if s.len() == 0 || s[0] == COLON || s[0] == STAR {
            None
        } else {
            let k = first_in(s, marker_set());
            match self.static_children.spec_get(s[0]) {
                Some(c) => c.occupant_static(s.take(k), s.skip(k)),
                None => None,
            }
        }
    }
}


/// `occupant_rest` never reads a node's own literal text: two nodes equal
/// in every other field hold the same occupants.
proof fn lemma_occupant_rest_same_fields<T>(n1: Node<T>, n2: Node<T>, s: Seq<u8>, ap: bool)
    requires
        n1.endpoint == n2.endpoint,
        n1.static_children == n2.static_children,
        n1.param_child == n2.param_child,
        n1.catch_all_child == n2.catch_all_child,
    ensures
        n1.occupant_rest(s, ap) == n2.occupant_rest(s, ap),
    decreases s.len(),
{
    if s.len() != 0 && s[0] == COLON {
        let t = s.skip(1);
        let k = first_in(t, slash_set());
        lemma_first_in(t, slash_set());
        lemma_occupant_rest_same_fields(n1, n2, t.skip(k), true);
    }
}

/// A freshly built node holds no occupant under any query.
proof fn lemma_fresh_no_occupant<T>(n: Node<T>, m: Seq<u8>)
    requires
        is_fresh_node(n, m),
    ensures
        forall|s: Seq<u8>, ap: bool| (#[trigger] n.occupant_rest(s, ap)) is None,
        forall|text: Seq<u8>, rest: Seq<u8>| (#[trigger] n.occupant_static(text, rest)) is None,
{
    assert forall|s: Seq<u8>, ap: bool| (#[trigger] n.occupant_rest(s, ap)) is None by {
        if s.len() != 0 && s[0] != COLON && s[0] != STAR && !ap {
            lemma_first_in(n.static_children.indices@, set![s[0]]);
        }
    }
    assert forall|text: Seq<u8>, rest: Seq<u8>| (#[trigger] n.occupant_static(text, rest))
        is None by {
        if text.len() != 0 {
            let c = common_len(text, n.matching@);
            lemma_common_len(text, n.matching@);
            if c >= n.matching@.len() {
                if c == text.len() {
                    assert(n.occupant_rest(rest, false) is None);
                } else {
                    lemma_first_in(n.static_children.indices@, set![text[c]]);
                    assert(n.static_children.spec_get(text[c]) is None);
                }
            }
        }
    }
}

/// Installing an empty parameter child changes no occupant: its endpoint
/// slot is empty and it has no continuation.
proof fn lemma_fresh_param_no_occupant<T>(n1: Node<T>, n2: Node<T>, s: Seq<u8>, ap: bool)
    requires
        n1.param_child is None,
        n2.param_child matches Some(p) && p.endpoint is None && p.child is None,
        n1.endpoint == n2.endpoint,
        n1.static_children == n2.static_children,
        n1.catch_all_child == n2.catch_all_child,
    ensures
        n1.occupant_rest(s, ap) == n2.occupant_rest(s, ap),
    decreases s.len(),
{
    if s.len() != 0 && s[0] == COLON {
        let t = s.skip(1);
        let k = first_in(t, slash_set());
        lemma_first_in(t, slash_set());
        lemma_fresh_param_no_occupant(n1, n2, t.skip(k), true);
    }
}

/// Splitting a node moves every occupant with it: each pattern query, with
/// the tail after its literal run opening on a marker or empty as parsed
/// patterns do, finds the same occupant before and after the split.
proof fn lemma_split_frame<T>(pre: Node<T>, post: Node<T>, common: int, text: Seq<u8>, rest: Seq<u8>)
    requires
        1 <= common < pre.matching@.len(),
        post.matching@ == pre.matching@.take(common),
        post.endpoint is None,
        post.param_child is None,
        post.catch_all_child is None,
        post.static_children.indices@ == seq![pre.matching@[common]],
        post.static_children.children@.len() == 1,
        post.static_children.children@[0].endpoint == pre.endpoint,
        post.static_children.children@[0].static_children == pre.static_children,
        post.static_children.children@[0].param_child == pre.param_child,
        post.static_children.children@[0].catch_all_child == pre.catch_all_child,
        post.static_children.children@[0].matching@ == pre.matching@.skip(common),
        rest.len() == 0 || rest[0] == COLON || rest[0] == STAR,
    ensures
        post.occupant_static(text, rest) == pre.occupant_static(text, rest),
{
    if text.len() != 0 {
        let m = pre.matching@;
        let c_old = common_len(text, m);
        lemma_common_len(text, m);
        if c_old < common {
            lemma_common_len_is(text, m.take(common), c_old);
            assert(post.occupant_static(text, rest) is None);
            assert(pre.occupant_static(text, rest) is None);
        } else {
            lemma_common_len_is(text, m.take(common), common);
            if common == text.len() {
                assert(pre.occupant_static(text, rest) is None);
                assert(post.occupant_static(text, rest) == post.occupant_rest(rest, false));
                assert(post.occupant_rest(rest, false) is None);
            } else {
                let c0 = post.static_children.children@[0];
                if text[common] == m[common] {
                    lemma_first_in_is(
                        post.static_children.indices@,
                        set![text[common]],
                        0,
                    );
                    assert(post.static_children.spec_get(text[common]) == Some(c0));
                    let ts = text.skip(common);
                    assert(post.occupant_static(text, rest) == c0.occupant_static(ts, rest));
                    assert forall|j: int| 0 <= j < c_old - common implies ts[j] == m.skip(
                        common,
                    )[j] by {
                        assert(ts[j] == text[common + j] && m.skip(common)[j] == m[common + j]);
                    }
                    if c_old < text.len() && c_old < m.len() {
                        assert(ts[c_old - common] == text[c_old as int]);
                        assert(m.skip(common)[c_old - common] == m[c_old as int]);
                    }
                    lemma_common_len_is(ts, m.skip(common), c_old - common);
                    if c_old == m.len() {
                        if c_old == text.len() {
                            assert(ts.len() == c_old - common);
                            assert(c0.occupant_static(ts, rest) == c0.occupant_rest(
                                rest,
                                false,
                            ));
                            assert(pre.occupant_static(text, rest) == pre.occupant_rest(
                                rest,
                                false,
                            ));
                            lemma_occupant_rest_same_fields(c0, pre, rest, false);
                        } else {
                            assert(ts[m.len() - common] == text[m.len() as int]);
                            match pre.static_children.spec_get(text[m.len() as int]) {
                                Some(ch) => {
                                    assert(c0.occupant_static(ts, rest) == ch.occupant_static(
                                        ts.skip(m.len() - common),
                                        rest,
                                    ));
                                    assert(pre.occupant_static(text, rest)
                                        == ch.occupant_static(
                                        text.skip(m.len() as int),
                                        rest,
                                    ));
                                    assert(ts.skip(m.len() - common) =~= text.skip(
                                        m.len() as int,
                                    ));
                                },
                                None => {
                                    assert(c0.occupant_static(ts, rest) is None);
                                    assert(pre.occupant_static(text, rest) is None);
                                },
                            }
                        }
                    } else {
                        assert(c_old - common < c0.matching@.len());
                        assert(c0.occupant_static(ts, rest) is None);
                        assert(pre.occupant_static(text, rest) is None);
                    }
                } else {
                    lemma_first_in_is(
                        post.static_children.indices@,
                        set![text[common]],
                        1,
                    );
                    assert(c_old == common);
                    assert(post.occupant_static(text, rest) is None);
                    assert(pre.occupant_static(text, rest) is None);
                }
            }
        }
    }
}


/// A query that does not open on literal text under `after_param == false`
/// never reads a node's static children: two nodes equal in endpoint,
/// parameter child and catch-all child answer it alike.
proof fn lemma_rest_frame_same_param<T>(n1: Node<T>, n2: Node<T>, s2: Seq<u8>, b2: bool)
    requires
        n1.endpoint == n2.endpoint,
        n1.param_child == n2.param_child,
        n1.catch_all_child == n2.catch_all_child,
        !(s2.len() != 0 && s2[0] != COLON && s2[0] != STAR && !b2),
    ensures
        n1.occupant_rest(s2, b2) == n2.occupant_rest(s2, b2),
{
    if s2.len() != 0 && s2[0] == COLON {
        let t2 = s2.skip(1);
        let k2 = first_in(t2, slash_set());
        lemma_first_in(t2, slash_set());
        let tail2 = t2.skip(k2);
        if tail2.len() != 0 {
            assert(tail2[0] == t2[k2]);
        }
        assert(n1.occupant_rest(tail2, true) == n2.occupant_rest(tail2, true));
    }
}


/// Changing only a node's own endpoint leaves every occupant alone except
/// the slot of the empty tail.
proof fn lemma_occupant_frame_endpoint<T>(n1: Node<T>, n2: Node<T>, s2: Seq<u8>, b2: bool)
    requires
        n1.static_children == n2.static_children,
        n1.param_child == n2.param_child,
        n1.catch_all_child == n2.catch_all_child,
        !same_slot(Seq::<u8>::empty(), false, s2, b2),
    ensures
        n1.occupant_rest(s2, b2) == n2.occupant_rest(s2, b2),
    decreases s2.len(),
{
    if s2.len() != 0 && s2[0] == COLON {
        let t2 = s2.skip(1);
        let k2 = first_in(t2, slash_set());
        lemma_first_in(t2, slash_set());
        lemma_occupant_frame_endpoint(n1, n2, t2.skip(k2), true);
    }
}

/// Changing only the parameter child's own endpoint leaves every occupant
/// alone except the slot of the empty tail behind a parameter.
proof fn lemma_occupant_frame_param_endpoint<T>(n1: Node<T>, n2: Node<T>, s2: Seq<u8>, b2: bool)
    requires
        n1.endpoint == n2.endpoint,
        n1.static_children == n2.static_children,
        n1.catch_all_child == n2.catch_all_child,
        n1.param_child matches Some(p1) && n2.param_child matches Some(p2) && p1.child
            == p2.child,
        !same_slot(Seq::<u8>::empty(), true, s2, b2),
    ensures
        n1.occupant_rest(s2, b2) == n2.occupant_rest(s2, b2),
    decreases s2.len(),
{
    if s2.len() != 0 && s2[0] == COLON {
        let t2 = s2.skip(1);
        let k2 = first_in(t2, slash_set());
        lemma_first_in(t2, slash_set());
        lemma_occupant_frame_param_endpoint(n1, n2, t2.skip(k2), true);
    }
}

/// Changing only a node's catch-all child leaves every occupant alone
/// except the slots of catch-all tails.
proof fn lemma_occupant_frame_catch_all<T>(n1: Node<T>, n2: Node<T>, s2: Seq<u8>, b2: bool)
    requires
        n1.endpoint == n2.endpoint,
        n1.static_children == n2.static_children,
        n1.param_child == n2.param_child,
        s2.len() == 0 || s2[0] != STAR,
    ensures
        n1.occupant_rest(s2, b2) == n2.occupant_rest(s2, b2),
    decreases s2.len(),
{
    if s2.len() != 0 && s2[0] == COLON {
        let t2 = s2.skip(1);
        let k2 = first_in(t2, slash_set());
        lemma_first_in(t2, slash_set());
        if t2.skip(k2).len() != 0 {
            assert(t2.skip(k2)[0] == t2[k2]);
        }
        lemma_occupant_frame_catch_all(n1, n2, t2.skip(k2), true);
    }
}


/// Occupancy and the occupant agree below one node: the conflict test
/// `present_rest` holds exactly where `occupant_rest` names an endpoint.
proof fn lemma_present_is_occupant_rest<T>(n: Node<T>, s: Seq<u8>, after_param: bool)
    ensures
        n.present_rest(s, after_param) == (n.occupant_rest(s, after_param) is Some),
    decreases s.len(), 0int, n, 1int,
{
    if s.len() == 0 {
    } else if s[0] == COLON {
        let t = s.skip(1);
        let k = first_in(t, slash_set());
        lemma_first_in(t, slash_set());
        lemma_present_is_occupant_rest(n, t.skip(k), true);
    } else if s[0] == STAR {
    } else {
        let k = first_in(s, marker_set());
        lemma_first_in(s, marker_set());
        if after_param {
            match n.param_child {
                Some(p) => match p.child {
                    Some(c) => {
                        assert(decreases_to!(n => n.param_child));
                        assert(decreases_to!(n.param_child => n.param_child->Some_0));
                        assert(decreases_to!(p => p.child));
                        assert(decreases_to!(p.child => p.child->Some_0));
                        assert(decreases_to!(n => p.child->Some_0));
                        lemma_present_is_occupant_static(*c, s.take(k), s.skip(k));
                    },
                    None => {},
                },
                None => {},
            }
        } else {
            match n.static_children.spec_get(s[0]) {
                Some(c) => {
                    let kk = first_in(n.static_children.indices@, set![s[0]]);
                    lemma_first_in(n.static_children.indices@, set![s[0]]);
                    assert(decreases_to!(n => n.static_children));
                    assert(decreases_to!(n.static_children => n.static_children.children));
                    assert(decreases_to!(n.static_children.children => n.static_children.children@));
                    assert(decreases_to!(n.static_children.children@ => n.static_children.children@[kk]));
                    assert(decreases_to!(n => n.static_children.children@[kk]));
                    lemma_present_is_occupant_static(c, s.take(k), s.skip(k));
                },
                None => {},
            }
        }
    }
}

/// The static-walk part of the same fact.
proof fn lemma_present_is_occupant_static<T>(n: Node<T>, text: Seq<u8>, rest: Seq<u8>)
    ensures
        n.present_static(text, rest) == (n.occupant_static(text, rest) is Some),
    decreases rest.len(), text.len(), n, 0int,
{
    if text.len() != 0 {
        let c = common_len(text, n.matching@);
        lemma_common_len(text, n.matching@);
        if c >= n.matching@.len() {
            if c == text.len() {
                lemma_present_is_occupant_rest(n, rest, false);
            } else {
                match n.static_children.spec_get(text[c]) {
                    Some(ch) => {
                        let kk = first_in(n.static_children.indices@, set![text[c]]);
                        lemma_first_in(n.static_children.indices@, set![text[c]]);
                        assert(decreases_to!(n => n.static_children));
                        assert(decreases_to!(n.static_children => n.static_children.children));
                        assert(decreases_to!(n.static_children.children => n.static_children.children@));
                        assert(decreases_to!(n.static_children.children@ => n.static_children.children@[kk]));
                        assert(decreases_to!(n => n.static_children.children@[kk]));
                        lemma_present_is_occupant_static(ch, text.skip(c), rest);
                    },
                    None => {},
                }
            }
        }
    }
}

/// A position is occupied exactly when it has an occupant: the conflict
/// side of `insert`'s contract and its storage side name one thing.
pub proof fn lemma_present_is_occupant<T>(t: Tree<T>, s: Seq<u8>)
    ensures
        t.present(s) == (t.occupant(s) is Some),
{
    if s.len() > 0 && s[0] != COLON && s[0] != STAR {
        let k = first_in(s, marker_set());
        match t.static_children.spec_get(s[0]) {
            Some(c) => {
                lemma_present_is_occupant_static(c, s.take(k), s.skip(k));
            },
            None => {},
        }
    }
}


} // verus!
