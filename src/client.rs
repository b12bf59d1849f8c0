//! The identifiers of clients.
use vstd::prelude::*;

verus! {

/// A client identifier: a value that can be compared and copied, and is
/// known to the proofs by its view.
pub trait Client: View + Sized {
    /// Whether `self` and `other` name the same client.
    fn same(&self, other: &Self) -> (r: bool)
        ensures
            r == (self@ == other@),
    ;

    /// A copy of `self`.
    fn duplicate(&self) -> (r: Self)
        ensures
            r@ == self@,
    ;
}

impl Client for String {
    fn same(&self, other: &Self) -> (r: bool) {
        <String as PartialEq>::eq(self, other)
    }

    fn duplicate(&self) -> (r: Self) {
        self.clone()
    }
}

impl Client for () {
    fn same(&self, other: &Self) -> (r: bool) {
        true
    }

    fn duplicate(&self) -> (r: Self) {
        ()
    }
}

impl Client for u32 {
    fn same(&self, other: &Self) -> (r: bool) {
        *self == *other
    }

    fn duplicate(&self) -> (r: Self) {
        *self
    }
}

impl Client for u64 {
    fn same(&self, other: &Self) -> (r: bool) {
        *self == *other
    }

    fn duplicate(&self) -> (r: Self) {
        *self
    }
}

impl Client for usize {
    fn same(&self, other: &Self) -> (r: bool) {
        *self == *other
    }

    fn duplicate(&self) -> (r: Self) {
        *self
    }
}

impl Client for i64 {
    fn same(&self, other: &Self) -> (r: bool) {
        *self == *other
    }

    fn duplicate(&self) -> (r: Self) {
        *self
    }
}

/// Whether `v` holds a client whose view is `c`.
pub open spec fn has_client<C: View>(v: Seq<C>, c: C::V) -> bool {
    exists|i: int| 0 <= i < v.len() && #[trigger] v[i]@ == c
}

/// Whether no two clients of `v` have the same view.
pub open spec fn no_dup<C: View>(v: Seq<C>) -> bool {
    forall|i: int, j: int| 0 <= i < v.len() && 0 <= j < v.len() && i != j ==> v[i]@ != v[j]@
}

/// The position of the client `c` in `v`, if it is there.
pub fn position<C: Client>(v: &Vec<C>, c: &C) -> (r: Option<usize>)
    ensures
        match r {
            Some(i) => i < v@.len() && v@[i as int]@ == c@,
            None => !has_client(v@, c@),
        },
{
    let mut i: usize = 0;
    while i < v.len()
        invariant
            i <= v@.len(),
            forall|j: int| 0 <= j < i ==> v@[j]@ != c@,
        decreases v.len() - i,
    {
        if v[i].same(c) {
            return Some(i);
        }
        i = i + 1;
    }
    None
}

/// Adds `c` to `v` unless a client with its view is there already.
pub fn add_client<C: Client>(v: &mut Vec<C>, c: &C)
    requires
        no_dup(old(v)@),
    ensures
        no_dup(final(v)@),
        forall|x: C::V| has_client(final(v)@, x) <==> (has_client(old(v)@, x) || x == c@),
{
    match position(v, c) {
        Some(i) => {},
        None => {
            let d = c.duplicate();
            v.push(d);
            assert forall|x: C::V| has_client(final(v)@, x) <==> (has_client(old(v)@, x) || x == c@) by {
                if has_client(old(v)@, x) {
                    let i = choose|i: int| 0 <= i < old(v)@.len() && #[trigger] old(v)@[i]@ == x;
                    assert(final(v)@[i]@ == x);
                }
                if x == c@ {
                    assert(final(v)@[old(v)@.len() as int]@ == x);
                }
            }
        },
    }
}

/// Removes the client with the view of `c` from `v`, if it is there.
pub fn remove_client<C: Client>(v: &mut Vec<C>, c: &C)
    requires
        no_dup(old(v)@),
    ensures
        no_dup(final(v)@),
        forall|x: C::V| has_client(final(v)@, x) <==> (has_client(old(v)@, x) && x != c@),
{
    match position(v, c) {
        Some(i) => {
            let ghost ov = v@;
            v.remove(i);
            assert forall|x: C::V| has_client(final(v)@, x) <==> (has_client(ov, x) && x != c@) by {
                if has_client(ov, x) && x != c@ {
                    let j = choose|j: int| 0 <= j < ov.len() && #[trigger] ov[j]@ == x;
                    if j < i {
                        assert(final(v)@[j]@ == x);
                    } else {
                        assert(final(v)@[j - 1]@ == x);
                    }
                }
                if has_client(final(v)@, x) {
                    let j = choose|j: int| 0 <= j < final(v)@.len() && #[trigger] final(v)@[j]@ == x;
                    if j < i {
                        assert(ov[j]@ == x);
                    } else {
                        assert(ov[j + 1]@ == x);
                    }
                }
            }
        },
        None => {},
    }
}

} // verus!
