//! The trie of a broadcast map.
//!
//! Each node holds the clients registered exactly at its path, the clients
//! registered strictly below it, its children by literal segment, and one
//! child that stands for any segment: the merge of all the literal
//! children, kept so that a placeholder in a mask is followed without
//! visiting the siblings.
use vstd::prelude::*;
use crate::client::{Client, has_client, no_dup, add_client, remove_client};
use crate::broadcastmap::mask_matches;
use crate::trie::{Child, child_at, keys_unique, find_child, lemma_child_at, lemma_child_at_none, lemma_child_update, lemma_child_push, lemma_child_remove};
use crate::segments::views;
use crate::mkmf::sub_chars;

verus! {

/// A node of the broadcast trie.
pub struct Broadcast<C> {
    pub childs: Vec<Child<Vec<char>, Broadcast<C>>>,
    pub childs_any: Option<Box<Broadcast<C>>>,
    pub members: Vec<C>,
    pub members_wildcard: Vec<C>,
}

/// Whether `b` holds `c` registered at the name `name`, read from `b`.
pub open spec fn bholds<C: View>(b: Broadcast<C>, c: C::V, name: Seq<Seq<char>>) -> bool
    decreases name.len(),
{
    if name.len() == 0 {
        has_client(b.members@, c)
    } else {
        match child_at(b.childs@, name[0]) {
            Some(ch) => bholds(ch, c, name.drop_first()),
            None => false,
        }
    }
}

/// Whether a child among `v` holds `c` registered at `q`.
pub open spec fn some_child_holds<C: View>(
    v: Seq<Child<Vec<char>, Broadcast<C>>>,
    c: C::V,
    q: Seq<Seq<char>>,
) -> bool {
    exists|i: int| 0 <= i < v.len() && #[trigger] bholds(v[i].node, c, q)
}

impl<C: Client> Broadcast<C> {
    pub open spec fn is_empty_spec(&self) -> bool {
        &&& self.childs@.len() == 0
        &&& self.childs_any is None
        &&& self.members@.len() == 0
        &&& self.members_wildcard@.len() == 0
    }

    /// The node is well formed: its sets hold no client twice, its keys are
    /// unique, its children are well formed and not empty, the wildcard set
    /// holds exactly the clients registered below, and the placeholder child
    /// holds exactly what the literal children hold.
    pub open spec fn wf(&self) -> bool
        decreases self,
    {
        &&& no_dup(self.members@)
        &&& no_dup(self.members_wildcard@)
        &&& keys_unique(self.childs@)
        &&& forall|i: int|
            0 <= i < self.childs@.len() ==> (#[trigger] self.childs@[i]).node.wf()
                && !self.childs@[i].node.is_empty_spec()
        &&& forall|c: C::V| #[trigger]
            has_client(self.members_wildcard@, c) == exists|q: Seq<Seq<char>>|
                #[trigger] some_child_holds(self.childs@, c, q)
        &&& match self.childs_any {
            Some(a) => {
                &&& a.wf()
                &&& !a.is_empty_spec()
                &&& forall|c: C::V, q: Seq<Seq<char>>| #[trigger]
                    bholds(*a, c, q) == some_child_holds(self.childs@, c, q)
            },
            None => self.childs@.len() == 0,
        }
    }

    /// An empty node.
    pub fn new() -> (r: Self)
        ensures
            r.wf(),
            r.is_empty_spec(),
            forall|c: C::V, q: Seq<Seq<char>>| !#[trigger] bholds(r, c, q),
    {
        let r = Broadcast {
            childs: Vec::new(),
            childs_any: None,
            members: Vec::new(),
            members_wildcard: Vec::new(),
        };
        assert forall|c: C::V, q: Seq<Seq<char>>| !#[trigger] bholds(r, c, q) by {
            if q.len() > 0 {
                assert(child_at(r.childs@, q[0]) is None);
            }
        }
        assert forall|c: C::V| #[trigger]
            has_client(r.members_wildcard@, c) == exists|q: Seq<Seq<char>>|
                #[trigger] some_child_holds(r.childs@, c, q) by {}
        r
    }

    /// Whether the node holds nothing.
    pub fn is_empty(&self) -> (r: bool)
        ensures
            r == self.is_empty_spec(),
    {
        self.childs.len() == 0 && self.childs_any.is_none() && self.members.len() == 0
            && self.members_wildcard.len() == 0
    }
}

/// Whether `o` is a node that holds `c` registered at `q`.
pub open spec fn bopt<C: View>(o: Option<Broadcast<C>>, c: C::V, q: Seq<Seq<char>>) -> bool {
    match o {
        Some(x) => bholds(x, c, q),
        None => false,
    }
}

/// `b` with `t` added when `add`, taken away otherwise.
pub open spec fn change(b: bool, t: bool, add: bool) -> bool {
    if add {
        b || t
    } else {
        b && !t
    }
}

/// A node whose child under `k` changed by the registration of `c` at `r`,
/// all else kept, changed by the registration of `c` at `k` then `r`.
proof fn lemma_blift<C: Client>(
    o: Broadcast<C>,
    n: Broadcast<C>,
    k: Seq<char>,
    r: Seq<Seq<char>>,
    c: C::V,
    add: bool,
)
    requires
        n.members == o.members,
        forall|k2: Seq<char>| k2 != k ==> #[trigger] child_at(n.childs@, k2) == child_at(o.childs@, k2),
        forall|c2: C::V, q: Seq<Seq<char>>| #[trigger]
            bopt(child_at(n.childs@, k), c2, q) == change(
                bopt(child_at(o.childs@, k), c2, q),
                c2 == c && q == r,
                add,
            ),
    ensures
        forall|c2: C::V, name: Seq<Seq<char>>| #[trigger]
            bholds(n, c2, name) == change(bholds(o, c2, name), c2 == c && name == seq![k] + r, add),
{
    assert forall|c2: C::V, name: Seq<Seq<char>>| #[trigger]
        bholds(n, c2, name) == change(bholds(o, c2, name), c2 == c && name == seq![k] + r, add) by {
        if name.len() > 0 && name[0] == k && name.drop_first() == r {
            assert(name == seq![k] + r);
        }
        if name == seq![k] + r {
            assert(name.drop_first() == r);
        }
        if name.len() > 0 {
            assert(bholds(n, c2, name) == bopt(child_at(n.childs@, name[0]), c2, name.drop_first()));
            assert(bholds(o, c2, name) == bopt(child_at(o.childs@, name[0]), c2, name.drop_first()));
        }
    }
}

/// Whether a child other than the one at `i` among `v` holds `c` at `q`.
pub open spec fn other_child_holds<C: View>(
    v: Seq<Child<Vec<char>, Broadcast<C>>>,
    i: int,
    c: C::V,
    q: Seq<Seq<char>>,
) -> bool {
    exists|j: int| 0 <= j < v.len() && j != i && #[trigger] bholds(v[j].node, c, q)
}

/// The child at `i` replaced, the others kept.
proof fn lemma_some_update<C: View>(
    o: Seq<Child<Vec<char>, Broadcast<C>>>,
    n: Seq<Child<Vec<char>, Broadcast<C>>>,
    i: int,
)
    requires
        0 <= i < o.len(),
        n.len() == o.len(),
        forall|j: int| 0 <= j < o.len() && j != i ==> n[j] == o[j],
    ensures
        forall|c: C::V, q: Seq<Seq<char>>| #[trigger]
            some_child_holds(n, c, q) == (other_child_holds(o, i, c, q) || bholds(n[i].node, c, q)),
        forall|c: C::V, q: Seq<Seq<char>>| #[trigger]
            some_child_holds(o, c, q) == (other_child_holds(o, i, c, q) || bholds(o[i].node, c, q)),
{
    assert forall|c: C::V, q: Seq<Seq<char>>| #[trigger]
        some_child_holds(n, c, q) == (other_child_holds(o, i, c, q) || bholds(n[i].node, c, q)) by {
        if some_child_holds(n, c, q) {
            let j = choose|j: int| 0 <= j < n.len() && #[trigger] bholds(n[j].node, c, q);
            if j != i {
                assert(n[j] == o[j]);
            }
        }
        if other_child_holds(o, i, c, q) {
            let j = choose|j: int| 0 <= j < o.len() && j != i && #[trigger] bholds(o[j].node, c, q);
            assert(n[j] == o[j]);
        }
    }
}

/// A child pushed at the end.
proof fn lemma_some_push<C: View>(o: Seq<Child<Vec<char>, Broadcast<C>>>, x: Child<Vec<char>, Broadcast<C>>)
    ensures
        forall|c: C::V, q: Seq<Seq<char>>| #[trigger]
            some_child_holds(o.push(x), c, q) == (some_child_holds(o, c, q) || bholds(x.node, c, q)),
{
    let n = o.push(x);
    assert forall|c: C::V, q: Seq<Seq<char>>| #[trigger]
        some_child_holds(n, c, q) == (some_child_holds(o, c, q) || bholds(x.node, c, q)) by {
        if some_child_holds(n, c, q) {
            let j = choose|j: int| 0 <= j < n.len() && #[trigger] bholds(n[j].node, c, q);
            if j < o.len() {
                assert(n[j] == o[j]);
            }
        }
        if some_child_holds(o, c, q) {
            let j = choose|j: int| 0 <= j < o.len() && #[trigger] bholds(o[j].node, c, q);
            assert(n[j] == o[j]);
        }
        if bholds(x.node, c, q) {
            assert(n[o.len() as int] == x);
        }
    }
}

/// The child at `i`, which holds nothing, taken out.
proof fn lemma_some_remove<C: View>(o: Seq<Child<Vec<char>, Broadcast<C>>>, i: int)
    requires
        0 <= i < o.len(),
        forall|c: C::V, q: Seq<Seq<char>>| !#[trigger] bholds(o[i].node, c, q),
    ensures
        forall|c: C::V, q: Seq<Seq<char>>| #[trigger]
            some_child_holds(o.remove(i), c, q) == some_child_holds(o, c, q),
{
    let n = o.remove(i);
    assert forall|c: C::V, q: Seq<Seq<char>>| #[trigger]
        some_child_holds(n, c, q) == some_child_holds(o, c, q) by {
        if some_child_holds(n, c, q) {
            let j = choose|j: int| 0 <= j < n.len() && #[trigger] bholds(n[j].node, c, q);
            if j < i {
                assert(n[j] == o[j]);
            } else {
                assert(n[j] == o[j + 1]);
            }
        }
        if some_child_holds(o, c, q) {
            let j = choose|j: int| 0 <= j < o.len() && #[trigger] bholds(o[j].node, c, q);
            assert(j != i);
            if j < i {
                assert(n[j] == o[j]);
            } else {
                assert(n[j - 1] == o[j]);
            }
        }
    }
}

/// An empty node holds nothing.
pub proof fn lemma_bempty<C: Client>(b: Broadcast<C>)
    requires
        b.is_empty_spec(),
    ensures
        forall|c: C::V, q: Seq<Seq<char>>| !#[trigger] bholds(b, c, q),
{
    assert forall|c: C::V, q: Seq<Seq<char>>| !#[trigger] bholds(b, c, q) by {
        if q.len() > 0 {
            assert(child_at(b.childs@, q[0]) is None);
        }
    }
}

/// What a well-formed node holds anywhere, it holds at its own path or
/// in its wildcard set.
proof fn lemma_bholds_somewhere<C: Client>(b: Broadcast<C>, c: C::V)
    requires
        b.wf(),
    ensures
        (exists|q: Seq<Seq<char>>| #[trigger] bholds(b, c, q)) == (has_client(b.members@, c)
            || has_client(b.members_wildcard@, c)),
        has_client(b.members_wildcard@, c) == exists|name: Seq<Seq<char>>|
            name.len() > 0 && #[trigger] bholds(b, c, name),
{
    if has_client(b.members@, c) {
        assert(bholds(b, c, Seq::<Seq<char>>::empty()));
    }
    if has_client(b.members_wildcard@, c) {
        let q = choose|q: Seq<Seq<char>>| #[trigger] some_child_holds(b.childs@, c, q);
        let i = choose|i: int| 0 <= i < b.childs@.len() && #[trigger] bholds(b.childs@[i].node, c, q);
        lemma_child_at(b.childs@, i);
        let name = seq![b.childs@[i].key@] + q;
        assert(name.drop_first() == q);
        assert(bholds(b, c, name));
    }
    if exists|name: Seq<Seq<char>>| name.len() > 0 && #[trigger] bholds(b, c, name) {
        let name = choose|name: Seq<Seq<char>>| name.len() > 0 && #[trigger] bholds(b, c, name);
        let ch = child_at(b.childs@, name[0])->0;
        let i = choose|i: int| 0 <= i < b.childs@.len() && #[trigger] b.childs@[i].key@ == name[0];
        assert(bholds(b.childs@[i].node, c, name.drop_first()));
        assert(some_child_holds(b.childs@, c, name.drop_first()));
    }
    if exists|q: Seq<Seq<char>>| #[trigger] bholds(b, c, q) {
        let q = choose|q: Seq<Seq<char>>| #[trigger] bholds(b, c, q);
        if q.len() > 0 {
            assert(q.len() > 0 && bholds(b, c, q));
        }
    }
}

impl<C: Client> Broadcast<C> {
    /// Registers `c` at the name `name[from..]`.
    pub fn register(&mut self, name: &Vec<Vec<char>>, from: usize, c: &C)
        requires
            old(self).wf(),
            from <= name@.len(),
        ensures
            final(self).wf(),
            !final(self).is_empty_spec(),
            forall|c2: C::V, q: Seq<Seq<char>>| #[trigger]
                bholds(*final(self), c2, q) == (bholds(*old(self), c2, q) || (c2 == c@ && q == views(
                    name@,
                ).skip(from as int))),
        decreases name@.len() - from,
    {
        let ghost o = *self;
        let ghost full = views(name@).skip(from as int);
        if from == name.len() {
            add_client(&mut self.members, c);
            proof {
                assert(full == Seq::<Seq<char>>::empty());
                assert forall|c2: C::V, q: Seq<Seq<char>>| #[trigger]
                    bholds(*self, c2, q) == (bholds(o, c2, q) || (c2 == c@ && q == full)) by {
                    if q.len() == 0 {
                        assert(q == full);
                    }
                }
                assert(has_client(self.members@, c@));
            }
            return;
        }
        let ghost rest = views(name@).skip(from + 1);
        let ghost k = name@[from as int]@;
        proof {
            assert(full == seq![k] + rest);
        }
        add_client(&mut self.members_wildcard, c);
        let ghost ochilds = self.childs@;
        match find_child(&self.childs, &name[from]) {
            Some(i) => {
                proof {
                    lemma_child_at(ochilds, i as int);
                }
                self.childs[i].node.register(name, from + 1, c);
                proof {
                    lemma_child_update(ochilds, self.childs@, i as int);
                    lemma_some_update(ochilds, self.childs@, i as int);
                    assert forall|j: int| 0 <= j < self.childs@.len() implies (#[trigger] self.childs@[j]).node.wf()
                        && !self.childs@[j].node.is_empty_spec() by {
                        if j != i {
                            assert(self.childs@[j] == ochilds[j]);
                        }
                    }
                }
            },
            None => {
                proof {
                    lemma_child_at_none(ochilds, k);
                }
                let mut ch = Broadcast::new();
                ch.register(name, from + 1, c);
                let key = sub_chars(&name[from], 0, name[from].len());
                proof {
                    assert(name@[from as int]@.subrange(0, name@[from as int]@.len() as int) == k);
                }
                self.childs.push(Child { key, node: ch });
                proof {
                    lemma_child_push(ochilds, self.childs@.last());
                    lemma_some_push(ochilds, self.childs@.last());
                    assert(self.childs@ == ochilds.push(self.childs@.last()));
                    assert forall|j: int| 0 <= j < self.childs@.len() implies (#[trigger] self.childs@[j]).node.wf()
                        && !self.childs@[j].node.is_empty_spec() by {
                        if j < ochilds.len() {
                            assert(self.childs@[j] == ochilds[j]);
                        }
                    }
                }
            },
        }
        proof {
            assert forall|c2: C::V, q: Seq<Seq<char>>| #[trigger]
                some_child_holds(self.childs@, c2, q) == (some_child_holds(ochilds, c2, q) || (c2 == c@
                    && q == rest)) by {}
        }
        let mut a = match self.childs_any.take() {
            Some(b) => *b,
            None => Broadcast::new(),
        };
        let ghost oa = a;
        proof {
            assert forall|c2: C::V, q: Seq<Seq<char>>| #[trigger]
                bholds(oa, c2, q) == some_child_holds(ochilds, c2, q) by {
                if o.childs_any is None {
                    assert(!some_child_holds(ochilds, c2, q));
                }
            }
        }
        a.register(name, from + 1, c);
        self.childs_any = Some(Box::new(a));
        proof {
            assert forall|k2: Seq<char>| k2 != k implies #[trigger] child_at(self.childs@, k2) == child_at(
                o.childs@,
                k2,
            ) by {}
            lemma_blift(o, *self, k, rest, c@, true);
            assert forall|c2: C::V| #[trigger]
                has_client(self.members_wildcard@, c2) == exists|q: Seq<Seq<char>>|
                    #[trigger] some_child_holds(self.childs@, c2, q) by {
                if c2 == c@ {
                    assert(some_child_holds(self.childs@, c2, rest));
                }
                if exists|q: Seq<Seq<char>>| #[trigger] some_child_holds(self.childs@, c2, q) {
                    let q = choose|q: Seq<Seq<char>>| #[trigger] some_child_holds(self.childs@, c2, q);
                    if c2 != c@ {
                        assert(some_child_holds(ochilds, c2, q));
                    }
                }
                if c2 != c@ && has_client(o.members_wildcard@, c2) {
                    let q = choose|q: Seq<Seq<char>>| #[trigger] some_child_holds(ochilds, c2, q);
                    assert(some_child_holds(self.childs@, c2, q));
                }
            }
        }
    }
}

/// A well-formed node that is not empty holds something.
pub proof fn lemma_bnonempty_holds<C: Client>(b: Broadcast<C>)
    requires
        b.wf(),
        !b.is_empty_spec(),
    ensures
        exists|c: C::V, q: Seq<Seq<char>>| #[trigger] bholds(b, c, q),
    decreases b,
{
    if b.members@.len() > 0 {
        assert(bholds(b, b.members@[0]@, Seq::<Seq<char>>::empty()));
    } else if b.childs@.len() > 0 {
        let ch = b.childs@[0].node;
        assert(b.childs@[0].node.wf() && !b.childs@[0].node.is_empty_spec());
        assert(decreases_to!(b => b.childs));
        assert(decreases_to!(b.childs => b.childs@[0]));
        lemma_bnonempty_holds(ch);
        let (c, q) = choose|c: C::V, q: Seq<Seq<char>>| #[trigger] bholds(ch, c, q);
        lemma_child_at(b.childs@, 0);
        let name = seq![b.childs@[0].key@] + q;
        assert(name.drop_first() == q);
        assert(bholds(b, c, name));
    } else if b.childs_any is Some {
        let a = b.childs_any->0;
        lemma_bnonempty_holds(*a);
        let (c, q) = choose|c: C::V, q: Seq<Seq<char>>| #[trigger] bholds(*a, c, q);
        assert(some_child_holds(b.childs@, c, q));
        assert(false);
    } else {
        let c = b.members_wildcard@[0]@;
        assert(has_client(b.members_wildcard@, c));
        let q = choose|q: Seq<Seq<char>>| #[trigger] some_child_holds(b.childs@, c, q);
        assert(false);
    }
}

impl<C: Client> Broadcast<C> {
    /// Whether `c` is registered at the name `name[from..]`.
    pub fn holds_at(&self, name: &Vec<Vec<char>>, from: usize, c: &C) -> (r: bool)
        requires
            self.wf(),
            from <= name@.len(),
        ensures
            r == bholds(*self, c@, views(name@).skip(from as int)),
        decreases name@.len() - from,
    {
        let ghost full = views(name@).skip(from as int);
        if from == name.len() {
            return crate::client::position(&self.members, c).is_some();
        }
        proof {
            assert(full[0] == name@[from as int]@);
            assert(full.drop_first() == views(name@).skip(from + 1));
        }
        match find_child(&self.childs, &name[from]) {
            Some(i) => {
                proof {
                    lemma_child_at(self.childs@, i as int);
                }
                self.childs[i].node.holds_at(name, from + 1, c)
            },
            None => {
                proof {
                    lemma_child_at_none(self.childs@, name@[from as int]@);
                }
                false
            },
        }
    }

    /// Unregisters `c` from the name `name[from..]`, and prunes the
    /// children left empty.
    #[verifier::rlimit(100)]
    pub fn unregister(&mut self, name: &Vec<Vec<char>>, from: usize, c: &C)
        requires
            old(self).wf(),
            from <= name@.len(),
        ensures
            final(self).wf(),
            forall|c2: C::V, q: Seq<Seq<char>>| #[trigger]
                bholds(*final(self), c2, q) == (bholds(*old(self), c2, q) && !(c2 == c@ && q == views(
                    name@,
                ).skip(from as int))),
        decreases name@.len() - from,
    {
        let ghost o = *self;
        let ghost full = views(name@).skip(from as int);
        if from == name.len() {
            remove_client(&mut self.members, c);
            proof {
                assert(full == Seq::<Seq<char>>::empty());
                assert forall|c2: C::V, q: Seq<Seq<char>>| #[trigger]
                    bholds(*self, c2, q) == (bholds(o, c2, q) && !(c2 == c@ && q == full)) by {
                    if q.len() == 0 {
                        assert(q == full);
                    }
                }
            }
            return;
        }
        let ghost rest = views(name@).skip(from + 1);
        let ghost k = name@[from as int]@;
        proof {
            assert(full == seq![k] + rest);
        }
        let ghost ochilds = self.childs@;
        match find_child(&self.childs, &name[from]) {
            Some(i) => {
                proof {
                    lemma_child_at(ochilds, i as int);
                }
                self.childs[i].node.unregister(name, from + 1, c);
                let ghost mid = self.childs@;
                proof {
                    lemma_child_update(ochilds, mid, i as int);
                    lemma_some_update(ochilds, mid, i as int);
                }
                if self.childs[i].node.is_empty() {
                    proof {
                        lemma_bempty(mid[i as int].node);
                    }
                    self.childs.remove(i);
                    proof {
                        lemma_child_remove(mid, i as int);
                        lemma_some_remove(mid, i as int);
                        assert forall|j: int| 0 <= j < self.childs@.len() implies (#[trigger] self.childs@[j]).node.wf()
                            && !self.childs@[j].node.is_empty_spec() by {
                            if j < i {
                                assert(self.childs@[j] == ochilds[j]);
                            } else {
                                assert(self.childs@[j] == ochilds[j + 1]);
                            }
                        }
                        assert(child_at(self.childs@, k) is None);
                    }
                } else {
                    proof {
                        assert forall|j: int| 0 <= j < self.childs@.len() implies (#[trigger] self.childs@[j]).node.wf()
                            && !self.childs@[j].node.is_empty_spec() by {
                            if j != i {
                                assert(self.childs@[j] == ochilds[j]);
                            }
                        }
                    }
                }
                proof {
                    assert forall|c2: C::V, q: Seq<Seq<char>>| #[trigger]
                        some_child_holds(self.childs@, c2, q) == (other_child_holds(ochilds, i as int, c2, q)
                            || (bholds(ochilds[i as int].node, c2, q) && !(c2 == c@ && q == rest))) by {}
                    assert forall|c2: C::V, q: Seq<Seq<char>>| #[trigger]
                        bopt(child_at(self.childs@, k), c2, q) == (bopt(child_at(ochilds, k), c2, q)
                            && !(c2 == c@ && q == rest)) by {
                        assert(bholds(mid[i as int].node, c2, q) == (bholds(ochilds[i as int].node, c2, q) && !(c2 == c@ && q == rest)));
                    }
                    assert forall|c2: C::V, q: Seq<Seq<char>>| #[trigger]
                        some_child_holds(self.childs@, c2, q) == (some_child_holds(ochilds, c2, q)
                            && !(c2 == c@ && q == rest && !some_child_holds(self.childs@, c@, rest))) by {}
                    assert forall|k2: Seq<char>| k2 != k implies #[trigger] child_at(self.childs@, k2) == child_at(
                        ochilds,
                        k2,
                    ) by {}
                }
            },
            None => {
                proof {
                    lemma_child_at_none(ochilds, k);
                    assert(self.childs@ == ochilds);
                    assert forall|c2: C::V, q: Seq<Seq<char>>| #[trigger]
                        some_child_holds(self.childs@, c2, q) == (some_child_holds(ochilds, c2, q)
                            && !(c2 == c@ && q == rest && !some_child_holds(self.childs@, c@, rest))) by {}
                    assert forall|c2: C::V, q: Seq<Seq<char>>| #[trigger]
                        bopt(child_at(self.childs@, k), c2, q) == (bopt(child_at(ochilds, k), c2, q)
                            && !(c2 == c@ && q == rest)) by {}
                }
            },
        }
        let ghost nchilds = self.childs@;
        let mut still = false;
        let n = name.len();
        let mut j: usize = 0;
        while j < self.childs.len()
            invariant
                n == name@.len(),
                j <= self.childs@.len(),
                self.childs@ == nchilds,
                from < name@.len(),
                forall|m: int| 0 <= m < nchilds.len() ==> (#[trigger] nchilds[m]).node.wf(),
                still == exists|m: int| 0 <= m < j && #[trigger] bholds(nchilds[m].node, c@, views(name@).skip(from + 1)),
                rest == views(name@).skip(from + 1),
                forall|c2: C::V, q: Seq<Seq<char>>| #[trigger]
                    some_child_holds(nchilds, c2, q) == (some_child_holds(ochilds, c2, q)
                        && !(c2 == c@ && q == rest && !some_child_holds(nchilds, c@, rest))),
                forall|c2: C::V, q: Seq<Seq<char>>| #[trigger]
                    bopt(child_at(nchilds, k), c2, q) == (bopt(child_at(ochilds, k), c2, q)
                        && !(c2 == c@ && q == rest)),
                forall|k2: Seq<char>| k2 != k ==> #[trigger] child_at(nchilds, k2) == child_at(ochilds, k2),
            decreases self.childs.len() - j,
        {
            if self.childs[j].node.holds_at(name, from + 1, c) {
                still = true;
            }
            j = j + 1;
        }
        proof {
            assert(still == some_child_holds(nchilds, c@, rest));
        }
        let ghost oany = self.childs_any;
        match self.childs_any.take() {
            Some(b) => {
                let mut a = *b;
                if !still {
                    a.unregister(name, from + 1, c);
                }
                proof {
                    assert forall|c2: C::V, q: Seq<Seq<char>>| #[trigger]
                        bholds(a, c2, q) == some_child_holds(nchilds, c2, q) by {
                        assert(bholds(*b, c2, q) == some_child_holds(ochilds, c2, q));
                    }
                }
                if !a.is_empty() {
                    self.childs_any = Some(Box::new(a));
                } else {
                    proof {
                        lemma_bempty(a);
                        if nchilds.len() > 0 {
                            lemma_bnonempty_holds(nchilds[0].node);
                            let (c2, q) = choose|c2: C::V, q: Seq<Seq<char>>| #[trigger] bholds(nchilds[0].node, c2, q);
                            assert(some_child_holds(nchilds, c2, q));
                            assert(bholds(a, c2, q));
                        }
                    }
                }
            },
            None => {
                proof {
                    assert(ochilds.len() == 0);
                    assert(nchilds.len() == 0);
                }
            },
        }
        let keep = match &self.childs_any {
            Some(a) => crate::client::position(&a.members, c).is_some()
                || crate::client::position(&a.members_wildcard, c).is_some(),
            None => false,
        };
        proof {
            if self.childs_any is Some {
                let a = self.childs_any->0;
                {
                    lemma_bholds_somewhere(*a, c@);
                    assert(keep == exists|q: Seq<Seq<char>>| #[trigger] bholds(*a, c@, q));
                    assert forall|c2: C::V, q: Seq<Seq<char>>| #[trigger]
                        bholds(*a, c2, q) == some_child_holds(nchilds, c2, q) by {}
                    if keep {
                        let q = choose|q: Seq<Seq<char>>| #[trigger] bholds(*a, c@, q);
                        assert(some_child_holds(nchilds, c@, q));
                    }
                    if exists|q: Seq<Seq<char>>| #[trigger] some_child_holds(nchilds, c@, q) {
                        let q = choose|q: Seq<Seq<char>>| #[trigger] some_child_holds(nchilds, c@, q);
                        assert(bholds(*a, c@, q));
                    }
                }
            }
            assert(keep == exists|q: Seq<Seq<char>>| #[trigger] some_child_holds(nchilds, c@, q));
        }
        if !keep {
            remove_client(&mut self.members_wildcard, c);
        }
        proof {
            assert forall|c2: C::V| #[trigger]
                has_client(self.members_wildcard@, c2) == exists|q: Seq<Seq<char>>|
                    #[trigger] some_child_holds(self.childs@, c2, q) by {
                assert(has_client(o.members_wildcard@, c2) == exists|q: Seq<Seq<char>>|
                    #[trigger] some_child_holds(ochilds, c2, q));
                assert(self.childs@ == nchilds);
                if c2 == c@ && keep {
                    let q = choose|q: Seq<Seq<char>>| #[trigger] some_child_holds(nchilds, c@, q);
                    assert(some_child_holds(ochilds, c@, q));
                    assert(has_client(o.members_wildcard@, c2));
                }
                if c2 != c@ {
                    if exists|q: Seq<Seq<char>>| #[trigger] some_child_holds(ochilds, c2, q) {
                        let q = choose|q: Seq<Seq<char>>| #[trigger] some_child_holds(ochilds, c2, q);
                        assert(some_child_holds(nchilds, c2, q));
                    }
                    if exists|q: Seq<Seq<char>>| #[trigger] some_child_holds(nchilds, c2, q) {
                        let q = choose|q: Seq<Seq<char>>| #[trigger] some_child_holds(nchilds, c2, q);
                        assert(some_child_holds(ochilds, c2, q));
                    }
                }
            }
            lemma_blift(o, *self, k, rest, c@, false);
        }
    }
}

/// Whether `b` holds `x` registered at a name that the mask `m` covers.
pub open spec fn bcovered<C: View>(
    b: Broadcast<C>,
    x: C::V,
    m: Seq<Seq<char>>,
    wild: Seq<Seq<char>>,
    any: Seq<Seq<char>>,
) -> bool {
    exists|name: Seq<Seq<char>>| #[trigger] bholds(b, x, name) && mask_matches(m, name, wild, any)
}

/// Adds every client of `src` to `acc`.
fn add_all<C: Client>(acc: &mut Vec<C>, src: &Vec<C>)
    requires
        no_dup(old(acc)@),
    ensures
        no_dup(final(acc)@),
        forall|x: C::V| #[trigger]
            has_client(final(acc)@, x) == (has_client(old(acc)@, x) || has_client(src@, x)),
{
    let ghost a0 = acc@;
    let mut i: usize = 0;
    while i < src.len()
        invariant
            i <= src@.len(),
            no_dup(acc@),
            forall|x: C::V| #[trigger]
                has_client(acc@, x) == (has_client(a0, x) || exists|j: int| 0 <= j < i && #[trigger] src@[j]@ == x),
        decreases src.len() - i,
    {
        add_client(acc, &src[i]);
        i = i + 1;
    }
}

impl<C: Client> Broadcast<C> {
    /// Adds to `acc` the clients registered at a name that the mask
    /// `mask[from..]` covers.
    pub fn collect_mask(
        &self,
        mask: &Vec<Vec<char>>,
        from: usize,
        wild: &Vec<Vec<char>>,
        any: &Vec<Vec<char>>,
        acc: &mut Vec<C>,
    )
        requires
            self.wf(),
            from <= mask@.len(),
            no_dup(old(acc)@),
        ensures
            no_dup(final(acc)@),
            forall|x: C::V| #[trigger]
                has_client(final(acc)@, x) == (has_client(old(acc)@, x) || bcovered(
                    *self,
                    x,
                    views(mask@).skip(from as int),
                    views(wild@),
                    views(any@),
                )),
        decreases mask@.len() - from,
    {
        let ghost m = views(mask@).skip(from as int);
        let ghost w = views(wild@);
        let ghost a = views(any@);
        if from == mask.len() {
            add_all(acc, &self.members);
            proof {
                assert forall|x: C::V| bcovered(*self, x, m, w, a) == has_client(self.members@, x) by {
                    if bcovered(*self, x, m, w, a) {
                        let name = choose|name: Seq<Seq<char>>| #[trigger] bholds(*self, x, name) && mask_matches(m, name, w, a);
                        assert(name.len() == 0);
                    }
                    if has_client(self.members@, x) {
                        assert(bholds(*self, x, Seq::<Seq<char>>::empty()));
                    }
                }
            }
            return;
        }
        let ghost rest = views(mask@).skip(from + 1);
        proof {
            assert(m[0] == mask@[from as int]@);
            assert(m.drop_first() == rest);
        }
        if crate::rule::token_in(wild, &mask[from]) {
            add_all(acc, &self.members_wildcard);
            proof {
                assert forall|x: C::V| bcovered(*self, x, m, w, a) == has_client(self.members_wildcard@, x) by {
                    lemma_bholds_somewhere(*self, x);
                    if has_client(self.members_wildcard@, x) {
                        let name = choose|name: Seq<Seq<char>>| name.len() > 0 && #[trigger] bholds(*self, x, name);
                        assert(mask_matches(m, name, w, a));
                    }
                }
            }
            return;
        }
        if crate::rule::token_in(any, &mask[from]) {
            match &self.childs_any {
                Some(b) => {
                    b.collect_mask(mask, from + 1, wild, any, acc);
                    proof {
                        assert forall|x: C::V| bcovered(**b, x, rest, w, a) == bcovered(*self, x, m, w, a) by {
                            if bcovered(**b, x, rest, w, a) {
                                let q = choose|q: Seq<Seq<char>>| #[trigger] bholds(**b, x, q) && mask_matches(rest, q, w, a);
                                assert(some_child_holds(self.childs@, x, q));
                                let i = choose|i: int| 0 <= i < self.childs@.len() && #[trigger] bholds(self.childs@[i].node, x, q);
                                lemma_child_at(self.childs@, i);
                                let name = seq![self.childs@[i].key@] + q;
                                assert(name.drop_first() == q);
                                assert(bholds(*self, x, name) && mask_matches(m, name, w, a));
                            }
                            if bcovered(*self, x, m, w, a) {
                                let name = choose|name: Seq<Seq<char>>| #[trigger] bholds(*self, x, name) && mask_matches(m, name, w, a);
                                let i = choose|i: int| 0 <= i < self.childs@.len() && #[trigger] self.childs@[i].key@ == name[0];
                                assert(bholds(self.childs@[i].node, x, name.drop_first()));
                                assert(some_child_holds(self.childs@, x, name.drop_first()));
                                assert(bholds(**b, x, name.drop_first()) && mask_matches(rest, name.drop_first(), w, a));
                            }
                        }
                    }
                },
                None => {
                    proof {
                        assert forall|x: C::V| !bcovered(*self, x, m, w, a) by {
                            if bcovered(*self, x, m, w, a) {
                                let name = choose|name: Seq<Seq<char>>| #[trigger] bholds(*self, x, name) && mask_matches(m, name, w, a);
                                assert(child_at(self.childs@, name[0]) is None);
                            }
                        }
                    }
                },
            }
            return;
        }
        match find_child(&self.childs, &mask[from]) {
            Some(i) => {
                self.childs[i].node.collect_mask(mask, from + 1, wild, any, acc);
                proof {
                    lemma_child_at(self.childs@, i as int);
                    let ch = self.childs@[i as int].node;
                    assert forall|x: C::V| bcovered(ch, x, rest, w, a) == bcovered(*self, x, m, w, a) by {
                        if bcovered(ch, x, rest, w, a) {
                            let q = choose|q: Seq<Seq<char>>| #[trigger] bholds(ch, x, q) && mask_matches(rest, q, w, a);
                            let name = seq![m[0]] + q;
                            assert(name.drop_first() == q);
                            assert(bholds(*self, x, name) && mask_matches(m, name, w, a));
                        }
                        if bcovered(*self, x, m, w, a) {
                            let name = choose|name: Seq<Seq<char>>| #[trigger] bholds(*self, x, name) && mask_matches(m, name, w, a);
                            assert(bholds(ch, x, name.drop_first()) && mask_matches(rest, name.drop_first(), w, a));
                        }
                    }
                }
            },
            None => {
                proof {
                    lemma_child_at_none(self.childs@, m[0]);
                    assert forall|x: C::V| !bcovered(*self, x, m, w, a) by {
                        if bcovered(*self, x, m, w, a) {
                            let name = choose|name: Seq<Seq<char>>| #[trigger] bholds(*self, x, name) && mask_matches(m, name, w, a);
                            assert(name[0] == m[0]);
                        }
                    }
                }
            },
        }
    }
}

} // verus!
