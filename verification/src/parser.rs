//! The segment parser: splits one raw pattern into an ordered sequence of
//! typed segments. `:` opens a named parameter whose name runs to the next
//! `/`; `*` opens a catch-all whose name is the remainder of the pattern;
//! anything else is literal text running to the next `:` or `*`.

use crate::bytes::{
    copy_range, find_byte, find_byte2, find_byte3, first_in, lemma_first_in, lemma_first_in_is,
    none_in, COLON, SLASH, STAR,
};
use crate::error::InsertError;
use vstd::prelude::*;
use vstd::slice::slice_subrange;

verus! {

/// The set holding only the component separator.
pub open spec fn slash_set() -> Set<u8> {
    set![SLASH]
}

/// The two bytes that open a parameter or catch-all segment.
pub open spec fn marker_set() -> Set<u8> {
    set![COLON, STAR]
}

/// The bytes that may not occur in a parameter or catch-all name.
pub open spec fn special_set() -> Set<u8> {
    set![SLASH, COLON, STAR]
}

/// True of a valid parameter or catch-all name: non-empty, holding none of
/// `/`, `:`, `*`.
pub open spec fn name_ok(n: Seq<u8>) -> bool {
    n.len() > 0 && none_in(n, special_set())
}

/// True when the whole pattern text `s` parses into segments without error.
pub open spec fn tail_ok(s: Seq<u8>) -> bool
    decreases s.len(),
    via tail_ok_dec
{
    if s.len() == 0 {
        true
    } else if s[0] == COLON {
        let t = s.skip(1);
        let k = first_in(t, slash_set());
        name_ok(t.take(k)) && tail_ok(t.skip(k))
    } else if s[0] == STAR {
        name_ok(s.skip(1))
    } else {
        tail_ok(s.skip(first_in(s, marker_set())))
    }
}

#[via_fn]
proof fn tail_ok_dec(s: Seq<u8>) {
    if s.len() != 0 {
        if s[0] == COLON {
            lemma_first_in(s.skip(1), slash_set());
        } else if s[0] != STAR {
            lemma_first_in(s, marker_set());
            assert(first_in(s, marker_set()) >= 1);
        }
    }
}

/// True of a pattern that `insert` accepts: non-empty, opening with a
/// literal segment, and parsing to the end without error.
pub open spec fn route_ok(s: Seq<u8>) -> bool {
    s.len() > 0 && s[0] != COLON && s[0] != STAR && tail_ok(s)
}


/// True when two patterns differ at most in their parameter and catch-all
/// names: the literal text and the segment structure coincide.
pub open spec fn same_shape(a: Seq<u8>, b: Seq<u8>) -> bool
    decreases a.len(),
    via same_shape_dec
{
    if a.len() == 0 || b.len() == 0 {
        a.len() == 0 && b.len() == 0
    } else if a[0] == COLON {
        b[0] == COLON && same_shape(
            a.skip(1).skip(first_in(a.skip(1), slash_set())),
            b.skip(1).skip(first_in(b.skip(1), slash_set())),
        )
    } else if a[0] == STAR {
        b[0] == STAR
    } else {
        let ka = first_in(a, marker_set());
        let kb = first_in(b, marker_set());
        a.take(ka) == b.take(kb) && same_shape(a.skip(ka), b.skip(kb))
    }
}

#[via_fn]
proof fn same_shape_dec(a: Seq<u8>, b: Seq<u8>) {
    if a.len() != 0 && b.len() != 0 {
        if a[0] == COLON {
            lemma_first_in(a.skip(1), slash_set());
        } else if a[0] != STAR {
            lemma_first_in(a, marker_set());
            assert(first_in(a, marker_set()) >= 1);
        }
    }
}


/// True when two pattern tails, each with its "just behind a parameter"
/// flag, address one endpoint slot at a node. Parameter and catch-all
/// names never matter, and a tail that is exactly `:name` addresses the
/// same slot as the empty tail behind that parameter.
pub open spec fn same_slot(a: Seq<u8>, pa: bool, b: Seq<u8>, pb: bool) -> bool
    decreases a.len() + b.len(),
    via same_slot_dec
{
    if a.len() != 0 && a[0] == COLON {
        same_slot(a.skip(1).skip(first_in(a.skip(1), slash_set())), true, b, pb)
    } else if b.len() != 0 && b[0] == COLON {
        same_slot(a, pa, b.skip(1).skip(first_in(b.skip(1), slash_set())), true)
    } else if a.len() == 0 || b.len() == 0 {
        a.len() == 0 && b.len() == 0 && pa == pb
    } else if a[0] == STAR {
        b[0] == STAR
    } else if b[0] == STAR {
        false
    } else {
        let ka = first_in(a, marker_set());
        let kb = first_in(b, marker_set());
        pa == pb && a.take(ka) == b.take(kb) && same_slot(a.skip(ka), false, b.skip(kb), false)
    }
}

#[via_fn]
proof fn same_slot_dec(a: Seq<u8>, pa: bool, b: Seq<u8>, pb: bool) {
    if a.len() != 0 && a[0] == COLON {
        lemma_first_in(a.skip(1), slash_set());
    } else if b.len() != 0 && b[0] == COLON {
        lemma_first_in(b.skip(1), slash_set());
    } else if a.len() != 0 && b.len() != 0 && a[0] != STAR && b[0] != STAR {
        lemma_first_in(a, marker_set());
        lemma_first_in(b, marker_set());
        assert(first_in(a, marker_set()) >= 1);
        assert(first_in(b, marker_set()) >= 1);
    }
}

/// The parameter and catch-all names of pattern text `s`, in order.
pub open spec fn names_of(s: Seq<u8>) -> Seq<Seq<u8>>
    decreases s.len(),
    via names_of_dec
{
    if s.len() == 0 {
        Seq::empty()
    } else if s[0] == COLON {
        let t = s.skip(1);
        let k = first_in(t, slash_set());
        seq![t.take(k)] + names_of(t.skip(k))
    } else if s[0] == STAR {
        seq![s.skip(1)]
    } else {
        names_of(s.skip(first_in(s, marker_set())))
    }
}

#[via_fn]
proof fn names_of_dec(s: Seq<u8>) {
    if s.len() != 0 {
        if s[0] == COLON {
            lemma_first_in(s.skip(1), slash_set());
        } else if s[0] != STAR {
            lemma_first_in(s, marker_set());
            assert(first_in(s, marker_set()) >= 1);
        }
    }
}

/// One unit of a pattern: literal text, a named parameter matching a single
/// path component, or a named catch-all matching the remainder of a path.
#[derive(Debug)]
pub enum Segment {
    Static(Vec<u8>),
    Param(Vec<u8>),
    CatchAll(Vec<u8>),
}

impl Segment {
    /// The name bound by this segment, if it binds one.
    pub fn name(&self) -> (r: Option<&Vec<u8>>)
        ensures
            match self {
                Segment::Static(_) => r is None,
                Segment::Param(n) => r matches Some(m) && m@ == n@,
                Segment::CatchAll(n) => r matches Some(m) && m@ == n@,
            },
    {
        match self {
            Segment::Static(_) => None,
            Segment::Param(name) => Some(name),
            Segment::CatchAll(name) => Some(name),
        }
    }
}

/// A one-shot cursor over a pattern's bytes yielding its segments in order.
pub struct SegmentsIter<'a> {
    inner: &'a [u8],
}

impl<'a> View for SegmentsIter<'a> {
    type V = Seq<u8>;

    closed spec fn view(&self) -> Seq<u8> {
        self.inner@
    }
}

impl<'a> SegmentsIter<'a> {
    pub fn new(inner: &'a [u8]) -> (s: Self)
        ensures
            s@ == inner@,
    {
        Self { inner }
    }

    /// The next segment of the pattern: `None` once the text is exhausted,
    /// an error on an empty or ill-formed name, and the segment with the
    /// consumed text dropped from the cursor otherwise.
    pub fn next(&mut self) -> (r: Option<Result<Segment, InsertError>>)
        ensures
            ({
                let s = old(self)@;
                if s.len() == 0 {
                    r is None && final(self)@ == s
                } else if s[0] == COLON {
                    let t = s.skip(1);
                    let k = first_in(t, slash_set());
                    if name_ok(t.take(k)) {
                        &&& r matches Some(Ok(Segment::Param(n))) && n@ == t.take(k)
                        &&& final(self)@ == t.skip(k)
                    } else {
                        r matches Some(Err(_)) && final(self)@ == s
                    }
                } else if s[0] == STAR {
                    if name_ok(s.skip(1)) {
                        &&& r matches Some(Ok(Segment::CatchAll(n))) && n@ == s.skip(1)
                        &&& final(self)@ == Seq::<u8>::empty()
                    } else {
                        r matches Some(Err(_)) && final(self)@ == s
                    }
                } else {
                    let k = first_in(s, marker_set());
                    &&& r matches Some(Ok(Segment::Static(n))) && n@ == s.take(k)
                    &&& final(self)@ == s.skip(k)
                    &&& 1 <= k <= s.len()
                }
            }),
    {
        let inner = self.inner;
        if inner.len() == 0 {
            return None;
        }
        let b = inner[0];
        if b == COLON {
            let t = slice_subrange(inner, 1, inner.len());
            proof {
                assert(t@ =~= self@.skip(1));
            }
            let k = match find_byte(SLASH, t) {
                Some(i) => i,
                None => t.len(),
            };
            proof {
                lemma_first_in_is(t@, slash_set(), k as int);
            }
            let name = slice_subrange(t, 0, k);
            proof {
                assert(name@ =~= t@.take(k as int));
            }
            match find_byte3(SLASH, COLON, STAR, name) {
                Some(i) => {
                    proof {
                        assert(special_set().contains(name@[i as int]));
                        assert(!name_ok(t@.take(k as int)));
                    }
                    return Some(Err(InsertError::new()));
                },
                None => {},
            }
            if name.len() == 0 {
                return Some(Err(InsertError::new()));
            }
            let nv = copy_range(name, 0, name.len());
            proof {
                assert(nv@ =~= t@.take(k as int));
                assert(name_ok(t@.take(k as int)));
            }
            self.inner = slice_subrange(t, k, t.len());
            proof {
                assert(self@ =~= old(self)@.skip(1).skip(k as int));
            }
            Some(Ok(Segment::Param(nv)))
        } else if b == STAR {
            let name = slice_subrange(inner, 1, inner.len());
            proof {
                assert(name@ =~= self@.skip(1));
            }
            match find_byte3(SLASH, COLON, STAR, name) {
                Some(i) => {
                    proof {
                        assert(special_set().contains(name@[i as int]));
                        assert(!name_ok(old(self)@.skip(1)));
                    }
                    return Some(Err(InsertError::new()));
                },
                None => {},
            }
            if name.len() == 0 {
                return Some(Err(InsertError::new()));
            }
            let nv = copy_range(name, 0, name.len());
            self.inner = slice_subrange(inner, inner.len(), inner.len());
            proof {
                assert(name_ok(old(self)@.skip(1)));
                assert(self@ =~= Seq::<u8>::empty());
            }
            Some(Ok(Segment::CatchAll(nv)))
        } else {
            let k = match find_byte2(COLON, STAR, inner) {
                Some(i) => i,
                None => inner.len(),
            };
            proof {
                lemma_first_in_is(inner@, marker_set(), k as int);
            }
            let seg = copy_range(inner, 0, k);
            self.inner = slice_subrange(inner, k, inner.len());
            proof {
                assert(seg@ =~= old(self)@.take(k as int));
                assert(self@ =~= old(self)@.skip(k as int));
            }
            Some(Ok(Segment::Static(seg)))
        }
    }
}

} // verus!
