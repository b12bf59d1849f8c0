//! The segmented match trie.
//!
//! A node holds the clients whose rule ends at it, those whose rule ends in
//! a wildcard at it, and its children by literal, placeholder, formula and
//! expression steps. What a trie holds is a set of (client, steps, wildcard)
//! triples, given by `node_has`.
use vstd::prelude::*;
use crate::client::{Client, has_client, no_dup, add_client, remove_client};
use crate::mkmf::Formula;
use crate::rule::{Config, Edge, Step, edges};
use crate::rx::CompiledRegex;
use crate::segments::{chars_eq, views};

verus! {

/// A child node of type `N`, under a key of type `K`.
pub struct Child<K, N> {
    pub key: K,
    pub node: N,
}

/// A node of the trie.
pub struct Node<C> {
    pub members: Vec<C>,
    pub wild_members: Vec<C>,
    pub lits: Vec<Child<Vec<char>, Node<C>>>,
    pub any: Option<Box<Node<C>>>,
    pub forms: Vec<Child<Formula, Node<C>>>,
    pub regs: Vec<Child<CompiledRegex, Node<C>>>,
}

/// A key of children, compared by its view.
pub trait Key: View + Sized {
    fn key_eq(&self, o: &Self) -> (r: bool)
        ensures
            r == (self@ == o@),
    ;
}

impl Key for Vec<char> {
    fn key_eq(&self, o: &Self) -> (r: bool) {
        chars_eq(self, o)
    }
}

impl Key for Formula {
    fn key_eq(&self, o: &Self) -> (r: bool) {
        *self == *o
    }
}

impl Key for CompiledRegex {
    fn key_eq(&self, o: &Self) -> (r: bool) {
        chars_eq(self.source_chars(), o.source_chars())
    }
}

/// The child under key `k` among `v`, if there is one.
pub open spec fn child_at<K: View, N>(v: Seq<Child<K, N>>, k: K::V) -> Option<N> {
    if exists|i: int| 0 <= i < v.len() && #[trigger] v[i].key@ == k {
        Some(v[choose|i: int| 0 <= i < v.len() && #[trigger] v[i].key@ == k].node)
    } else {
        None
    }
}

/// The child of `n` that the step `e` leads to, if there is one.
pub open spec fn child_for<C>(n: Node<C>, e: Edge) -> Option<Node<C>> {
    match e {
        Edge::Lit(k) => child_at(n.lits@, k),
        Edge::Any => match n.any {
            Some(b) => Some(*b),
            None => None,
        },
        Edge::Form(f) => child_at(n.forms@, f),
        Edge::Re(src) => child_at(n.regs@, src),
    }
}

/// Whether the trie `n` holds the client `c` under the steps `p`, ending in
/// a wildcard when `w`.
pub open spec fn node_has<C: View>(n: Node<C>, c: C::V, p: Seq<Edge>, w: bool) -> bool
    decreases p.len(),
{
    if p.len() == 0 {
        if w {
            has_client(n.wild_members@, c)
        } else {
            has_client(n.members@, c)
        }
    } else {
        match child_for(n, p[0]) {
            Some(ch) => node_has(ch, c, p.drop_first(), w),
            None => false,
        }
    }
}

/// Whether `o` is a node that holds `c` under `q`, ending in a wildcard
/// when `w`.
pub open spec fn opt_has<C: View>(o: Option<Node<C>>, c: C::V, q: Seq<Edge>, w: bool) -> bool {
    match o {
        Some(x) => node_has(x, c, q, w),
        None => false,
    }
}

/// No two children share a key.
pub open spec fn keys_unique<K: View, N>(v: Seq<Child<K, N>>) -> bool {
    forall|i: int, j: int| 0 <= i < v.len() && 0 <= j < v.len() && i != j ==> v[i].key@ != v[j].key@
}

/// Keys are unique, and every child is well formed and not empty.
pub open spec fn children_ok<K: View, C: Client>(v: Seq<Child<K, Node<C>>>) -> bool {
    &&& keys_unique(v)
    &&& forall|i: int| 0 <= i < v.len() ==> (#[trigger] v[i]).node.wf() && !v[i].node.is_empty_spec()
}

impl<C: Client> Node<C> {
    pub open spec fn is_empty_spec(&self) -> bool {
        &&& self.members@.len() == 0
        &&& self.wild_members@.len() == 0
        &&& self.lits@.len() == 0
        &&& self.any is None
        &&& self.forms@.len() == 0
        &&& self.regs@.len() == 0
    }

    /// The node is well formed: no client twice in a set, no key twice
    /// among the children of a kind, every child well formed and not empty.
    pub open spec fn wf(&self) -> bool
        decreases self,
    {
        &&& no_dup(self.members@)
        &&& no_dup(self.wild_members@)
        &&& keys_unique(self.lits@)
        &&& keys_unique(self.forms@)
        &&& keys_unique(self.regs@)
        &&& forall|i: int|
            0 <= i < self.lits@.len() ==> (#[trigger] self.lits@[i]).node.wf()
                && !self.lits@[i].node.is_empty_spec()
        &&& forall|i: int|
            0 <= i < self.forms@.len() ==> (#[trigger] self.forms@[i]).node.wf()
                && !self.forms@[i].node.is_empty_spec()
        &&& forall|i: int|
            0 <= i < self.regs@.len() ==> (#[trigger] self.regs@[i]).node.wf()
                && !self.regs@[i].node.is_empty_spec()
        &&& match self.any {
            Some(b) => b.wf() && !b.is_empty_spec(),
            None => true,
        }
    }

    /// An empty node.
    pub fn new() -> (r: Node<C>)
        ensures
            r.wf(),
            r.is_empty_spec(),
            forall|c: C::V, p: Seq<Edge>, w: bool| !node_has(r, c, p, w),
    {
        let r = Node {
            members: Vec::new(),
            wild_members: Vec::new(),
            lits: Vec::new(),
            any: None,
            forms: Vec::new(),
            regs: Vec::new(),
        };
        assert forall|c: C::V, p: Seq<Edge>, w: bool| !node_has(r, c, p, w) by {
            if p.len() > 0 {
                assert(child_for(r, p[0]) is None);
            }
        }
        r
    }

    /// Whether the node holds nothing.
    pub fn is_empty(&self) -> (r: bool)
        ensures
            r == self.is_empty_spec(),
    {
        self.members.len() == 0 && self.wild_members.len() == 0 && self.lits.len() == 0
            && self.any.is_none() && self.forms.len() == 0 && self.regs.len() == 0
    }
}

/// `b` with `t` added when `add`, taken away otherwise.
pub open spec fn change(b: bool, t: bool, add: bool) -> bool {
    if add {
        b || t
    } else {
        b && !t
    }
}

proof fn lemma_cons(p: Seq<Edge>, e: Edge, r: Seq<Edge>)
    ensures
        (p == seq![e] + r) <==> (p.len() > 0 && p[0] == e && p.drop_first() == r),
{
    if p.len() > 0 && p[0] == e && p.drop_first() == r {
        assert(p == seq![e] + r);
    }
    if p == seq![e] + r {
        assert(p.drop_first() == r);
    }
}

/// A node that holds something is not empty.
pub proof fn lemma_has_nonempty<C: Client>(n: Node<C>, c: C::V, p: Seq<Edge>, w: bool)
    requires
        node_has(n, c, p, w),
    ensures
        !n.is_empty_spec(),
{
}

/// With unique keys, the child under the key of position `i` is the one at `i`.
pub proof fn lemma_child_at<K: View, N>(v: Seq<Child<K, N>>, i: int)
    requires
        keys_unique(v),
        0 <= i < v.len(),
    ensures
        child_at(v, v[i].key@) == Some(v[i].node),
{
    let k = v[i].key@;
    assert(v[i].key@ == k);
    let j = choose|j: int| 0 <= j < v.len() && #[trigger] v[j].key@ == k;
    assert(j == i);
}

/// No child is under a key that no position holds.
pub proof fn lemma_child_at_none<K: View, N>(v: Seq<Child<K, N>>, k: K::V)
    requires
        forall|j: int| 0 <= j < v.len() ==> v[j].key@ != k,
    ensures
        child_at(v, k) is None,
{
}

/// The child at `i` replaced, the keys kept.
pub proof fn lemma_child_update<K: View, N>(o: Seq<Child<K, N>>, n: Seq<Child<K, N>>, i: int)
    requires
        keys_unique(o),
        0 <= i < o.len(),
        n.len() == o.len(),
        forall|j: int| 0 <= j < o.len() && j != i ==> n[j] == o[j],
        n[i].key@ == o[i].key@,
    ensures
        keys_unique(n),
        forall|k: K::V|
            #[trigger] child_at(n, k) == if k == o[i].key@ {
                Some(n[i].node)
            } else {
                child_at(o, k)
            },
{
    assert forall|a: int, b: int| 0 <= a < n.len() && 0 <= b < n.len() && a != b implies n[a].key@
        != n[b].key@ by {
        if a != i {
            assert(n[a] == o[a]);
        }
        if b != i {
            assert(n[b] == o[b]);
        }
    }
    assert forall|k: K::V|
        #[trigger] child_at(n, k) == if k == o[i].key@ {
            Some(n[i].node)
        } else {
            child_at(o, k)
        } by {
        if k == o[i].key@ {
            lemma_child_at(n, i);
        } else {
            if exists|j: int| 0 <= j < o.len() && #[trigger] o[j].key@ == k {
                let j = choose|j: int| 0 <= j < o.len() && #[trigger] o[j].key@ == k;
                lemma_child_at(o, j);
                assert(n[j] == o[j]);
                lemma_child_at(n, j);
            } else {
                assert forall|j: int| 0 <= j < n.len() implies n[j].key@ != k by {
                    if j != i {
                        assert(n[j] == o[j]);
                    }
                }
            }
        }
    }
}

/// A new child under a new key.
pub proof fn lemma_child_push<K: View, N>(o: Seq<Child<K, N>>, x: Child<K, N>)
    requires
        keys_unique(o),
        forall|j: int| 0 <= j < o.len() ==> o[j].key@ != x.key@,
    ensures
        keys_unique(o.push(x)),
        forall|k: K::V|
            #[trigger] child_at(o.push(x), k) == if k == x.key@ {
                Some(x.node)
            } else {
                child_at(o, k)
            },
{
    let n = o.push(x);
    assert forall|a: int, b: int| 0 <= a < n.len() && 0 <= b < n.len() && a != b implies n[a].key@
        != n[b].key@ by {
        if a < o.len() {
            assert(n[a] == o[a]);
        }
        if b < o.len() {
            assert(n[b] == o[b]);
        }
    }
    assert forall|k: K::V|
        #[trigger] child_at(n, k) == if k == x.key@ {
            Some(x.node)
        } else {
            child_at(o, k)
        } by {
        if k == x.key@ {
            assert(n[o.len() as int] == x);
            lemma_child_at(n, o.len() as int);
        } else {
            if exists|j: int| 0 <= j < o.len() && #[trigger] o[j].key@ == k {
                let j = choose|j: int| 0 <= j < o.len() && #[trigger] o[j].key@ == k;
                lemma_child_at(o, j);
                assert(n[j] == o[j]);
                lemma_child_at(n, j);
            } else {
                assert forall|j: int| 0 <= j < n.len() implies n[j].key@ != k by {
                    if j < o.len() {
                        assert(n[j] == o[j]);
                    }
                }
            }
        }
    }
}

/// The child at `i` taken out.
pub proof fn lemma_child_remove<K: View, N>(o: Seq<Child<K, N>>, i: int)
    requires
        keys_unique(o),
        0 <= i < o.len(),
    ensures
        keys_unique(o.remove(i)),
        forall|k: K::V|
            #[trigger] child_at(o.remove(i), k) == if k == o[i].key@ {
                None
            } else {
                child_at(o, k)
            },
{
    let n = o.remove(i);
    assert forall|a: int, b: int| 0 <= a < n.len() && 0 <= b < n.len() && a != b implies n[a].key@
        != n[b].key@ by {
        let a2 = if a < i { a } else { a + 1 };
        let b2 = if b < i { b } else { b + 1 };
        assert(n[a] == o[a2]);
        assert(n[b] == o[b2]);
    }
    assert forall|k: K::V|
        #[trigger] child_at(n, k) == if k == o[i].key@ {
            None
        } else {
            child_at(o, k)
        } by {
        if k == o[i].key@ {
            assert forall|j: int| 0 <= j < n.len() implies n[j].key@ != k by {
                let j2 = if j < i { j } else { j + 1 };
                assert(n[j] == o[j2]);
            }
        } else {
            if exists|j: int| 0 <= j < o.len() && #[trigger] o[j].key@ == k {
                let j = choose|j: int| 0 <= j < o.len() && #[trigger] o[j].key@ == k;
                lemma_child_at(o, j);
                let j2 = if j < i { j } else { j - 1 };
                assert(n[j2] == o[j]);
                lemma_child_at(n, j2);
            } else {
                assert forall|j: int| 0 <= j < n.len() implies n[j].key@ != k by {
                    let j2 = if j < i { j } else { j + 1 };
                    assert(n[j] == o[j2]);
                }
            }
        }
    }
}

/// The position of the child under key `k`, if there is one.
pub fn find_child<K: Key, N>(v: &Vec<Child<K, N>>, k: &K) -> (r: Option<usize>)
    ensures
        match r {
            Some(i) => i < v@.len() && v@[i as int].key@ == k@,
            None => forall|j: int| 0 <= j < v@.len() ==> v@[j].key@ != k@,
        },
{
    let mut i: usize = 0;
    while i < v.len()
        invariant
            i <= v@.len(),
            forall|j: int| 0 <= j < i ==> v@[j].key@ != k@,
        decreases v.len() - i,
    {
        if v[i].key.key_eq(k) {
            return Some(i);
        }
        i = i + 1;
    }
    None
}

/// An empty node holds nothing.
pub proof fn lemma_empty_holds_nothing<C: Client>(n: Node<C>)
    requires
        n.is_empty_spec(),
    ensures
        forall|c: C::V, p: Seq<Edge>, w: bool| !#[trigger] node_has(n, c, p, w),
{
    assert forall|c: C::V, p: Seq<Edge>, w: bool| !#[trigger] node_has(n, c, p, w) by {
        if p.len() > 0 {
            assert(child_for(n, p[0]) is None);
        }
    }
}

/// A node whose child for step `e` changed by the triple of `c`, `r`, `w`,
/// all else kept, changed by the triple of `c`, `e` then `r`, and `w`.
proof fn lemma_lift<C: Client>(
    o: Node<C>,
    n: Node<C>,
    e: Edge,
    r: Seq<Edge>,
    c: C::V,
    w: bool,
    add: bool,
)
    requires
        n.members == o.members,
        n.wild_members == o.wild_members,
        forall|e2: Edge| e2 != e ==> #[trigger] child_for(n, e2) == child_for(o, e2),
        forall|c2: C::V, q: Seq<Edge>, w2: bool|
            #[trigger] opt_has(child_for(n, e), c2, q, w2) == change(
                opt_has(child_for(o, e), c2, q, w2),
                c2 == c && q == r && w2 == w,
                add,
            ),
    ensures
        forall|c2: C::V, p: Seq<Edge>, w2: bool|
            #[trigger] node_has(n, c2, p, w2) == change(
                node_has(o, c2, p, w2),
                c2 == c && p == seq![e] + r && w2 == w,
                add,
            ),
{
    assert forall|c2: C::V, p: Seq<Edge>, w2: bool|
        #[trigger] node_has(n, c2, p, w2) == change(
            node_has(o, c2, p, w2),
            c2 == c && p == seq![e] + r && w2 == w,
            add,
        ) by {
        lemma_cons(p, e, r);
        if p.len() > 0 {
            assert(node_has(n, c2, p, w2) == opt_has(child_for(n, p[0]), c2, p.drop_first(), w2));
            assert(node_has(o, c2, p, w2) == opt_has(child_for(o, p[0]), c2, p.drop_first(), w2));
            if p[0] == e {
                assert(opt_has(child_for(n, e), c2, p.drop_first(), w2) == change(
                    opt_has(child_for(o, e), c2, p.drop_first(), w2),
                    c2 == c && p.drop_first() == r && w2 == w,
                    add,
                ));
            }
        }
    }
}

/// Inserts the rule `steps`, ending in a wildcard when `w`, for `c` into
/// the child under key `k` among `v`, making that child if there is none.
fn insert_child<K: Key, C: Client>(v: &mut Vec<Child<K, Node<C>>>, k: K, steps: Vec<Step>, w: bool, c: &C)
    requires
        children_ok(old(v)@),
    ensures
        children_ok(final(v)@),
        forall|k2: K::V| k2 != k@ ==> #[trigger] child_at(final(v)@, k2) == child_at(old(v)@, k2),
        forall|c2: C::V, q: Seq<Edge>, w2: bool|
            #[trigger] opt_has(child_at(final(v)@, k@), c2, q, w2) == (opt_has(
                child_at(old(v)@, k@),
                c2,
                q,
                w2,
            ) || (c2 == c@ && q == edges(steps@) && w2 == w)),
    decreases steps@.len() * 2 + 2,
{
    let ghost ov = v@;
    match find_child(v, &k) {
        Some(i) => {
            proof {
                lemma_child_at(ov, i as int);
            }
            v[i].node.insert(steps, w, c);
            proof {
                lemma_child_update(ov, v@, i as int);
                lemma_has_nonempty(v@[i as int].node, c@, edges(steps@), w);
                assert forall|j: int| 0 <= j < v@.len() implies (#[trigger] v@[j]).node.wf()
                    && !v@[j].node.is_empty_spec() by {
                    if j != i {
                        assert(v@[j] == ov[j]);
                    }
                }
            }
        },
        None => {
            let mut node = Node::new();
            node.insert(steps, w, c);
            proof {
                lemma_child_at_none(ov, k@);
                lemma_has_nonempty(node, c@, edges(steps@), w);
            }
            v.push(Child { key: k, node });
            proof {
                lemma_child_push(ov, v@.last());
                assert(v@ == ov.push(v@.last()));
                assert forall|j: int| 0 <= j < v@.len() implies (#[trigger] v@[j]).node.wf()
                    && !v@[j].node.is_empty_spec() by {
                    if j < ov.len() {
                        assert(v@[j] == ov[j]);
                    }
                }
            }
        },
    }
}

impl<C: Client> Node<C> {
    /// Inserts the rule `steps`, ending in a wildcard when `w`, for `c`.
    pub fn insert(&mut self, steps: Vec<Step>, w: bool, c: &C)
        requires
            old(self).wf(),
        ensures
            final(self).wf(),
            forall|c2: C::V, p: Seq<Edge>, w2: bool|
                #[trigger] node_has(*final(self), c2, p, w2) == (node_has(*old(self), c2, p, w2) || (
                c2 == c@ && p == edges(steps@) && w2 == w)),
        decreases steps@.len() * 2 + 1,
    {
        let ghost o = *self;
        if steps.len() == 0 {
            if w {
                add_client(&mut self.wild_members, c);
            } else {
                add_client(&mut self.members, c);
            }
            proof {
                assert(edges(steps@) == Seq::<Edge>::empty());
                assert forall|c2: C::V, p: Seq<Edge>, w2: bool|
                    #[trigger] node_has(*self, c2, p, w2) == (node_has(o, c2, p, w2) || (c2 == c@
                        && p == edges(steps@) && w2 == w)) by {
                    if p.len() == 0 {
                        assert(p == Seq::<Edge>::empty());
                    }
                    if p.len() > 0 {
                        assert(child_for(*self, p[0]) == child_for(o, p[0]));
                    }
                }
            }
            return;
        }
        let ghost old_steps = steps@;
        let mut steps = steps;
        let step = steps.remove(0);
        let ghost e = step.edge();
        proof {
            assert(edges(old_steps) == seq![e] + edges(steps@));
        }
        match step {
            Step::Lit(k) => {
                insert_child(&mut self.lits, k, steps, w, c);
            },
            Step::Form(f) => {
                insert_child(&mut self.forms, f, steps, w, c);
            },
            Step::Re(re) => {
                insert_child(&mut self.regs, re, steps, w, c);
            },
            Step::Any => {
                let mut child = match self.any.take() {
                    Some(b) => *b,
                    None => Node::new(),
                };
                child.insert(steps, w, c);
                proof {
                    lemma_has_nonempty(child, c@, edges(steps@), w);
                }
                self.any = Some(Box::new(child));
            },
        }
        proof {
            assert forall|e2: Edge| e2 != e implies #[trigger] child_for(*self, e2) == child_for(
                o,
                e2,
            ) by {}
            lemma_lift(o, *self, e, edges(steps@), c@, w, true);
        }
    }
}

/// Removes the rule `steps[from..]`, ending in a wildcard when `w`, for `c`
/// from the child under key `k` among `v`, and drops that child when it is
/// left empty.
fn remove_child<K: Key, C: Client>(
    v: &mut Vec<Child<K, Node<C>>>,
    k: &K,
    steps: &Vec<Step>,
    from: usize,
    w: bool,
    c: &C,
)
    requires
        children_ok(old(v)@),
        from <= steps@.len(),
    ensures
        children_ok(final(v)@),
        forall|k2: K::V| k2 != k@ ==> #[trigger] child_at(final(v)@, k2) == child_at(old(v)@, k2),
        forall|c2: C::V, q: Seq<Edge>, w2: bool|
            #[trigger] opt_has(child_at(final(v)@, k@), c2, q, w2) == (opt_has(
                child_at(old(v)@, k@),
                c2,
                q,
                w2,
            ) && !(c2 == c@ && q == edges(steps@).skip(from as int) && w2 == w)),
    decreases (steps@.len() - from) * 2 + 2,
{
    let ghost ov = v@;
    match find_child(v, k) {
        Some(i) => {
            proof {
                lemma_child_at(ov, i as int);
            }
            v[i].node.remove(steps, from, w, c);
            let ghost mid = v@;
            proof {
                lemma_child_update(ov, mid, i as int);
            }
            if v[i].node.is_empty() {
                proof {
                    lemma_empty_holds_nothing(mid[i as int].node);
                }
                v.remove(i);
                proof {
                    lemma_child_remove(mid, i as int);
                    assert(child_at(v@, k@) is None);
                    assert forall|c2: C::V, q: Seq<Edge>, w2: bool|
                        !(#[trigger] opt_has(child_at(ov, k@), c2, q, w2) && !(c2 == c@ && q
                            == edges(steps@).skip(from as int) && w2 == w)) by {
                        assert(!node_has(mid[i as int].node, c2, q, w2));
                    }
                    assert forall|j: int| 0 <= j < v@.len() implies (#[trigger] v@[j]).node.wf()
                        && !v@[j].node.is_empty_spec() by {
                        if j < i {
                            assert(v@[j] == ov[j]);
                        } else {
                            assert(v@[j] == ov[j + 1]);
                        }
                    }
                }
            } else {
                proof {
                    assert forall|j: int| 0 <= j < v@.len() implies (#[trigger] v@[j]).node.wf()
                        && !v@[j].node.is_empty_spec() by {
                        if j != i {
                            assert(v@[j] == ov[j]);
                        }
                    }
                }
            }
        },
        None => {
            proof {
                lemma_child_at_none(ov, k@);
            }
        },
    }
}

impl<C: Client> Node<C> {
    /// Removes the rule `steps[from..]`, ending in a wildcard when `w`, for
    /// `c`, and prunes the children left empty.
    pub fn remove(&mut self, steps: &Vec<Step>, from: usize, w: bool, c: &C)
        requires
            old(self).wf(),
            from <= steps@.len(),
        ensures
            final(self).wf(),
            forall|c2: C::V, p: Seq<Edge>, w2: bool|
                #[trigger] node_has(*final(self), c2, p, w2) == (node_has(*old(self), c2, p, w2)
                    && !(c2 == c@ && p == edges(steps@).skip(from as int) && w2 == w)),
        decreases (steps@.len() - from) * 2 + 1,
    {
        let ghost o = *self;
        if from == steps.len() {
            if w {
                remove_client(&mut self.wild_members, c);
            } else {
                remove_client(&mut self.members, c);
            }
            proof {
                assert(edges(steps@).skip(from as int) == Seq::<Edge>::empty());
                assert forall|c2: C::V, p: Seq<Edge>, w2: bool|
                    #[trigger] node_has(*self, c2, p, w2) == (node_has(o, c2, p, w2) && !(c2 == c@
                        && p == edges(steps@).skip(from as int) && w2 == w)) by {
                    if p.len() == 0 {
                        assert(p == Seq::<Edge>::empty());
                    }
                    if p.len() > 0 {
                        assert(child_for(*self, p[0]) == child_for(o, p[0]));
                    }
                }
            }
            return;
        }
        let ghost e = steps@[from as int].edge();
        proof {
            assert(edges(steps@).skip(from as int) == seq![e] + edges(steps@).skip(from + 1));
        }
        match &steps[from] {
            Step::Lit(k) => {
                remove_child(&mut self.lits, k, steps, from + 1, w, c);
            },
            Step::Form(f) => {
                remove_child(&mut self.forms, f, steps, from + 1, w, c);
            },
            Step::Re(re) => {
                remove_child(&mut self.regs, re, steps, from + 1, w, c);
            },
            Step::Any => {
                match self.any.take() {
                    Some(b) => {
                        let mut child = *b;
                        let ghost oc = child;
                        child.remove(steps, from + 1, w, c);
                        if !child.is_empty() {
                            self.any = Some(Box::new(child));
                        } else {
                            proof {
                                lemma_empty_holds_nothing(child);
                                assert forall|c2: C::V, q: Seq<Edge>, w2: bool|
                                    !(#[trigger] node_has(oc, c2, q, w2) && !(c2 == c@ && q
                                        == edges(steps@).skip(from + 1) && w2 == w)) by {
                                    assert(!node_has(child, c2, q, w2));
                                }
                            }
                        }
                    },
                    None => {},
                }
            },
        }
        proof {
            assert forall|e2: Edge| e2 != e implies #[trigger] child_for(*self, e2) == child_for(
                o,
                e2,
            ) by {}
            lemma_lift(o, *self, e, edges(steps@).skip(from + 1), c@, w, false);
        }
    }
}

/// Whether the trie `n` holds `x` under a rule that matches the topic
/// segments `t`.
pub open spec fn matched<C: View>(n: Node<C>, x: C::V, t: Seq<Seq<char>>, cfg: Config) -> bool {
    exists|p: Seq<Edge>, w: bool|
        #![trigger node_has(n, x, p, w), cfg.rule_matches(p, w, t)]
        node_has(n, x, p, w) && cfg.rule_matches(p, w, t)
}

/// Whether one of the first `upto` children of `v` whose key `m` accepts
/// holds `x` under a rule that matches `rest`.
pub open spec fn via<K: View, C: View>(
    v: Seq<Child<K, Node<C>>>,
    m: spec_fn(K::V) -> bool,
    x: C::V,
    rest: Seq<Seq<char>>,
    cfg: Config,
    upto: int,
) -> bool {
    exists|j: int| 0 <= j < upto && m(v[j].key@) && #[trigger] matched(v[j].node, x, rest, cfg)
}

/// With no segment left, a node matches its members.
proof fn lemma_matched_end<C: Client>(n: Node<C>, x: C::V, t: Seq<Seq<char>>, cfg: Config)
    requires
        t.len() == 0,
    ensures
        matched(n, x, t, cfg) == has_client(n.members@, x),
{
    if matched(n, x, t, cfg) {
        let (p, w) = choose|p: Seq<Edge>, w: bool|
            #![trigger node_has(n, x, p, w), cfg.rule_matches(p, w, t)]
            node_has(n, x, p, w) && cfg.rule_matches(p, w, t);
        assert(p.len() == 0 && !w);
    }
    if has_client(n.members@, x) {
        let p = Seq::<Edge>::empty();
        assert(node_has(n, x, p, false) && cfg.rule_matches(p, false, t));
    }
}

/// With a segment left, a node matches its wildcard members, and what its
/// children matching the segment match with the rest.
proof fn lemma_matched_step<C: Client>(n: Node<C>, x: C::V, t: Seq<Seq<char>>, cfg: Config)
    requires
        t.len() > 0,
        keys_unique(n.lits@),
        keys_unique(n.forms@),
        keys_unique(n.regs@),
    ensures
        matched(n, x, t, cfg) == (has_client(n.wild_members@, x) || via(
            n.lits@,
            |k: Seq<char>| cfg.lit_matches(k, t[0]),
            x,
            t.drop_first(),
            cfg,
            n.lits@.len() as int,
        ) || via(
            n.forms@,
            |f: crate::mkmf::FormulaView| crate::mkmf::formula_holds(f, t[0]),
            x,
            t.drop_first(),
            cfg,
            n.forms@.len() as int,
        ) || via(
            n.regs@,
            |src: Seq<char>| crate::rx::regex_matches(src, t[0]),
            x,
            t.drop_first(),
            cfg,
            n.regs@.len() as int,
        ) || match n.any {
            Some(b) => matched(*b, x, t.drop_first(), cfg),
            None => false,
        }),
{
    let rest = t.drop_first();
    let ml = |k: Seq<char>| cfg.lit_matches(k, t[0]);
    let mf = |f: crate::mkmf::FormulaView| crate::mkmf::formula_holds(f, t[0]);
    let mr = |src: Seq<char>| crate::rx::regex_matches(src, t[0]);
    if matched(n, x, t, cfg) {
        let (p, w) = choose|p: Seq<Edge>, w: bool|
            #![trigger node_has(n, x, p, w), cfg.rule_matches(p, w, t)]
            node_has(n, x, p, w) && cfg.rule_matches(p, w, t);
        if p.len() > 0 {
            let ch = child_for(n, p[0])->0;
            assert(node_has(ch, x, p.drop_first(), w) && cfg.rule_matches(p.drop_first(), w, rest));
            assert(matched(ch, x, rest, cfg));
            match p[0] {
                Edge::Lit(k) => {
                    let j = choose|j: int| 0 <= j < n.lits@.len() && #[trigger] n.lits@[j].key@ == k;
                    assert(ml(n.lits@[j].key@));
                    assert(via(n.lits@, ml, x, rest, cfg, n.lits@.len() as int));
                },
                Edge::Form(f) => {
                    let j = choose|j: int| 0 <= j < n.forms@.len() && #[trigger] n.forms@[j].key@ == f;
                    assert(mf(n.forms@[j].key@));
                    assert(via(n.forms@, mf, x, rest, cfg, n.forms@.len() as int));
                },
                Edge::Re(src) => {
                    let j = choose|j: int| 0 <= j < n.regs@.len() && #[trigger] n.regs@[j].key@ == src;
                    assert(mr(n.regs@[j].key@));
                    assert(via(n.regs@, mr, x, rest, cfg, n.regs@.len() as int));
                },
                Edge::Any => {},
            }
        }
    }
    if via(n.lits@, ml, x, rest, cfg, n.lits@.len() as int) {
        let j = choose|j: int|
            0 <= j < n.lits@.len() && ml(n.lits@[j].key@) && #[trigger] matched(n.lits@[j].node, x, rest, cfg);
        let (q, w) = choose|q: Seq<Edge>, w: bool|
            #![trigger node_has(n.lits@[j].node, x, q, w), cfg.rule_matches(q, w, rest)]
            node_has(n.lits@[j].node, x, q, w) && cfg.rule_matches(q, w, rest);
        let p = seq![Edge::Lit(n.lits@[j].key@)] + q;
        lemma_child_at(n.lits@, j);
        assert(p.drop_first() == q);
        assert(node_has(n, x, p, w) && cfg.rule_matches(p, w, t));
    }
    if via(n.forms@, mf, x, rest, cfg, n.forms@.len() as int) {
        let j = choose|j: int|
            0 <= j < n.forms@.len() && mf(n.forms@[j].key@) && #[trigger] matched(n.forms@[j].node, x, rest, cfg);
        let (q, w) = choose|q: Seq<Edge>, w: bool|
            #![trigger node_has(n.forms@[j].node, x, q, w), cfg.rule_matches(q, w, rest)]
            node_has(n.forms@[j].node, x, q, w) && cfg.rule_matches(q, w, rest);
        let p = seq![Edge::Form(n.forms@[j].key@)] + q;
        lemma_child_at(n.forms@, j);
        assert(p.drop_first() == q);
        assert(node_has(n, x, p, w) && cfg.rule_matches(p, w, t));
    }
    if via(n.regs@, mr, x, rest, cfg, n.regs@.len() as int) {
        let j = choose|j: int|
            0 <= j < n.regs@.len() && mr(n.regs@[j].key@) && #[trigger] matched(n.regs@[j].node, x, rest, cfg);
        let (q, w) = choose|q: Seq<Edge>, w: bool|
            #![trigger node_has(n.regs@[j].node, x, q, w), cfg.rule_matches(q, w, rest)]
            node_has(n.regs@[j].node, x, q, w) && cfg.rule_matches(q, w, rest);
        let p = seq![Edge::Re(n.regs@[j].key@)] + q;
        lemma_child_at(n.regs@, j);
        assert(p.drop_first() == q);
        assert(node_has(n, x, p, w) && cfg.rule_matches(p, w, t));
    }
    match n.any {
        Some(b) => {
            if matched(*b, x, rest, cfg) {
                let (q, w) = choose|q: Seq<Edge>, w: bool|
                    #![trigger node_has(*b, x, q, w), cfg.rule_matches(q, w, rest)]
                    node_has(*b, x, q, w) && cfg.rule_matches(q, w, rest);
                let p = seq![Edge::Any] + q;
                assert(p.drop_first() == q);
                assert(node_has(n, x, p, w) && cfg.rule_matches(p, w, t));
            }
        },
        None => {},
    }
    if has_client(n.wild_members@, x) {
        let p = Seq::<Edge>::empty();
        assert(node_has(n, x, p, true) && cfg.rule_matches(p, true, t));
    }
}

/// Adds every client of `src` to `acc`.
fn add_all<C: Client>(acc: &mut Vec<C>, src: &Vec<C>)
    requires
        no_dup(old(acc)@),
    ensures
        no_dup(final(acc)@),
        forall|x: C::V| #[trigger]
            has_client(final(acc)@, x) == (has_client(old(acc)@, x) || has_client(src@, x)),
{
    let ghost a0 = acc@;
    let mut i: usize = 0;
    while i < src.len()
        invariant
            i <= src@.len(),
            no_dup(acc@),
            forall|x: C::V| #[trigger]
                has_client(acc@, x) == (has_client(a0, x) || has_client(src@.take(i as int), x)),
        decreases src.len() - i,
    {
        add_client(acc, &src[i]);
        proof {
            assert forall|x: C::V|
                has_client(src@.take(i + 1), x) == (has_client(src@.take(i as int), x) || x
                    == src@[i as int]@) by {
                if has_client(src@.take(i + 1), x) {
                    let j = choose|j: int| 0 <= j < i + 1 && #[trigger] src@.take(i + 1)[j]@ == x;
                    if j < i {
                        assert(src@.take(i as int)[j]@ == x);
                    }
                }
                if has_client(src@.take(i as int), x) {
                    let j = choose|j: int| 0 <= j < i && #[trigger] src@.take(i as int)[j]@ == x;
                    assert(src@.take(i + 1)[j]@ == x);
                }
                if x == src@[i as int]@ {
                    assert(src@.take(i + 1)[i as int]@ == x);
                }
            }
        }
        i = i + 1;
    }
    assert(src@.take(i as int) == src@);
}

/// Adds to `acc` what the children of `v` whose flag is set match with the
/// segments `segs[from + 1..]`.
fn collect_flagged<K: View, C: Client>(
    v: &Vec<Child<K, Node<C>>>,
    flags: &Vec<bool>,
    segs: &Vec<Vec<char>>,
    from: usize,
    cfg: &Config,
    acc: &mut Vec<C>,
)
    requires
        children_ok(v@),
        flags@.len() == v@.len(),
        from < segs@.len(),
        no_dup(old(acc)@),
    ensures
        no_dup(final(acc)@),
        forall|x: C::V| #[trigger]
            has_client(final(acc)@, x) == (has_client(old(acc)@, x) || exists|j: int|
                0 <= j < v@.len() && flags@[j] && #[trigger] matched(
                    v@[j].node,
                    x,
                    views(segs@).skip(from + 1),
                    *cfg,
                )),
    decreases (segs@.len() - from) * 2,
{
    let ghost a0 = acc@;
    let ghost rest = views(segs@).skip(from + 1);
    let n = segs.len();
    let mut i: usize = 0;
    while i < v.len()
        invariant
            n == segs@.len(),
            i <= v@.len(),
            children_ok(v@),
            flags@.len() == v@.len(),
            from < segs@.len(),
            rest == views(segs@).skip(from + 1),
            no_dup(acc@),
            forall|x: C::V| #[trigger]
                has_client(acc@, x) == (has_client(a0, x) || exists|j: int|
                    0 <= j < i && flags@[j] && #[trigger] matched(v@[j].node, x, rest, *cfg)),
        decreases v.len() - i,
    {
        if flags[i] {
            let ghost a1 = acc@;
            v[i].node.collect(segs, from + 1, cfg, acc);
            proof {
                assert forall|x: C::V| #[trigger]
                    has_client(acc@, x) == (has_client(a0, x) || exists|j: int|
                        0 <= j < i + 1 && flags@[j] && #[trigger] matched(v@[j].node, x, rest, *cfg)) by {
                    if matched(v@[i as int].node, x, rest, *cfg) {
                        assert(flags@[i as int]);
                    }
                }
            }
        }
        i = i + 1;
    }
}

impl<C: Client> Node<C> {
    /// Adds to `acc` every client that the node holds under a rule matching
    /// the topic segments `segs[from..]`.
    pub fn collect(&self, segs: &Vec<Vec<char>>, from: usize, cfg: &Config, acc: &mut Vec<C>)
        requires
            self.wf(),
            from <= segs@.len(),
            no_dup(old(acc)@),
        ensures
            no_dup(final(acc)@),
            forall|x: C::V| #[trigger]
                has_client(final(acc)@, x) == (has_client(old(acc)@, x) || matched(
                    *self,
                    x,
                    views(segs@).skip(from as int),
                    *cfg,
                )),
        decreases (segs@.len() - from) * 2 + 1,
    {
        let ghost t = views(segs@).skip(from as int);
        let ghost a0 = acc@;
        if from == segs.len() {
            add_all(acc, &self.members);
            proof {
                assert forall|x: C::V| matched(*self, x, t, *cfg) == has_client(self.members@, x) by {
                    lemma_matched_end(*self, x, t, *cfg);
                }
            }
            return;
        }
        let ghost rest = views(segs@).skip(from + 1);
        proof {
            assert(t[0] == segs@[from as int]@);
            assert(t.drop_first() == rest);
        }
        let ghost ml = |k: Seq<char>| cfg.lit_matches(k, t[0]);
        let ghost mf = |f: crate::mkmf::FormulaView| crate::mkmf::formula_holds(f, t[0]);
        let ghost mr = |src: Seq<char>| crate::rx::regex_matches(src, t[0]);
        add_all(acc, &self.wild_members);
        let ghost a1 = acc@;
        let t0 = &segs[from];
        match lit_flags(&self.lits, t0, cfg) {
            Some(flags) => {
                collect_flagged(&self.lits, &flags, segs, from, cfg, acc);
            },
            None => {
                match find_child(&self.lits, t0) {
                    Some(i) => {
                        self.lits[i].node.collect(segs, from + 1, cfg, acc);
                        proof {
                            assert forall|x: C::V|
                                via(self.lits@, ml, x, rest, *cfg, self.lits@.len() as int)
                                    == matched(self.lits@[i as int].node, x, rest, *cfg) by {
                                if via(self.lits@, ml, x, rest, *cfg, self.lits@.len() as int) {
                                    let j = choose|j: int|
                                        0 <= j < self.lits@.len() && ml(self.lits@[j].key@)
                                            && #[trigger] matched(self.lits@[j].node, x, rest, *cfg);
                                    assert(j == i);
                                }
                                if matched(self.lits@[i as int].node, x, rest, *cfg) {
                                    assert(ml(self.lits@[i as int].key@));
                                }
                            }
                        }
                    },
                    None => {
                        proof {
                            assert forall|x: C::V|
                                !via(self.lits@, ml, x, rest, *cfg, self.lits@.len() as int) by {
                            }
                        }
                    },
                }
            },
        }
        let ghost a2 = acc@;
        proof {
            assert forall|x: C::V| #[trigger] has_client(a2, x) == (has_client(a1, x)
                || via(self.lits@, ml, x, rest, *cfg, self.lits@.len() as int)) by {}
        }
        // formula children
        let flags = form_flags(&self.forms, t0);
        collect_flagged(&self.forms, &flags, segs, from, cfg, acc);
        let ghost a3 = acc@;
        proof {
            assert forall|x: C::V| #[trigger] has_client(a3, x) == (has_client(a2, x)
                || via(self.forms@, mf, x, rest, *cfg, self.forms@.len() as int)) by {
                if exists|i: int| 0 <= i < self.forms@.len() && flags@[i] && #[trigger] matched(self.forms@[i].node, x, rest, *cfg) {
                    let i = choose|i: int| 0 <= i < self.forms@.len() && flags@[i] && #[trigger] matched(self.forms@[i].node, x, rest, *cfg);
                    assert(mf(self.forms@[i].key@));
                }
                if via(self.forms@, mf, x, rest, *cfg, self.forms@.len() as int) {
                    let i = choose|i: int| 0 <= i < self.forms@.len() && mf(self.forms@[i].key@) && #[trigger] matched(self.forms@[i].node, x, rest, *cfg);
                    assert(flags@[i]);
                }
            }
        }
        // expression children
        let flags = regex_flags(&self.regs, t0);
        collect_flagged(&self.regs, &flags, segs, from, cfg, acc);
        let ghost a4 = acc@;
        proof {
            assert forall|x: C::V| #[trigger] has_client(a4, x) == (has_client(a3, x)
                || via(self.regs@, mr, x, rest, *cfg, self.regs@.len() as int)) by {
                if exists|i: int| 0 <= i < self.regs@.len() && flags@[i] && #[trigger] matched(self.regs@[i].node, x, rest, *cfg) {
                    let i = choose|i: int| 0 <= i < self.regs@.len() && flags@[i] && #[trigger] matched(self.regs@[i].node, x, rest, *cfg);
                    assert(mr(self.regs@[i].key@));
                }
                if via(self.regs@, mr, x, rest, *cfg, self.regs@.len() as int) {
                    let i = choose|i: int| 0 <= i < self.regs@.len() && mr(self.regs@[i].key@) && #[trigger] matched(self.regs@[i].node, x, rest, *cfg);
                    assert(flags@[i]);
                }
            }
        }
        // placeholder child
        match &self.any {
            Some(b) => {
                b.collect(segs, from + 1, cfg, acc);
            },
            None => {},
        }
        proof {
            assert forall|x: C::V| #[trigger]
                has_client(acc@, x) == (has_client(a0, x) || matched(*self, x, t, *cfg)) by {
                lemma_matched_step(*self, x, t, *cfg);
            }
        }
    }
}

/// A well-formed node that is not empty holds something.
pub proof fn lemma_nonempty_holds<C: Client>(n: Node<C>)
    requires
        n.wf(),
        !n.is_empty_spec(),
    ensures
        exists|c: C::V, p: Seq<Edge>, w: bool| #[trigger] node_has(n, c, p, w),
    decreases n,
{
    if n.members@.len() > 0 {
        assert(node_has(n, n.members@[0]@, Seq::<Edge>::empty(), false));
    } else if n.wild_members@.len() > 0 {
        assert(node_has(n, n.wild_members@[0]@, Seq::<Edge>::empty(), true));
    } else if n.lits@.len() > 0 {
        let ch = n.lits@[0].node;
        assert(n.lits@[0].node.wf() && !n.lits@[0].node.is_empty_spec());
        assert(decreases_to!(n => n.lits));
        assert(decreases_to!(n.lits => n.lits@[0]));
        lemma_nonempty_holds(ch);
        let (c, q, w) = choose|c: C::V, q: Seq<Edge>, w: bool| #[trigger] node_has(ch, c, q, w);
        lemma_child_at(n.lits@, 0);
        let p = seq![Edge::Lit(n.lits@[0].key@)] + q;
        assert(p.drop_first() == q);
        assert(node_has(n, c, p, w));
    } else if n.forms@.len() > 0 {
        let ch = n.forms@[0].node;
        assert(n.forms@[0].node.wf() && !n.forms@[0].node.is_empty_spec());
        assert(decreases_to!(n => n.forms));
        assert(decreases_to!(n.forms => n.forms@[0]));
        lemma_nonempty_holds(ch);
        let (c, q, w) = choose|c: C::V, q: Seq<Edge>, w: bool| #[trigger] node_has(ch, c, q, w);
        lemma_child_at(n.forms@, 0);
        let p = seq![Edge::Form(n.forms@[0].key@)] + q;
        assert(p.drop_first() == q);
        assert(node_has(n, c, p, w));
    } else if n.regs@.len() > 0 {
        let ch = n.regs@[0].node;
        assert(n.regs@[0].node.wf() && !n.regs@[0].node.is_empty_spec());
        assert(decreases_to!(n => n.regs));
        assert(decreases_to!(n.regs => n.regs@[0]));
        lemma_nonempty_holds(ch);
        let (c, q, w) = choose|c: C::V, q: Seq<Edge>, w: bool| #[trigger] node_has(ch, c, q, w);
        lemma_child_at(n.regs@, 0);
        let p = seq![Edge::Re(n.regs@[0].key@)] + q;
        assert(p.drop_first() == q);
        assert(node_has(n, c, p, w));
    } else {
        let b = n.any->0;
        lemma_nonempty_holds(*b);
        let (c, q, w) = choose|c: C::V, q: Seq<Edge>, w: bool| #[trigger] node_has(*b, c, q, w);
        let p = seq![Edge::Any] + q;
        assert(p.drop_first() == q);
        assert(node_has(n, c, p, w));
    }
}

/// Which literal children match the topic segment `t0` when it is read as
/// a formula or an expression; `None` when it is read as a literal, which
/// matches only the child under the equal key.
fn lit_flags<C>(lits: &Vec<Child<Vec<char>, Node<C>>>, t0: &Vec<char>, cfg: &Config) -> (r: Option<Vec<bool>>)
    ensures
        match r {
            Some(f) => f@.len() == lits@.len() && forall|i: int|
                0 <= i < lits@.len() ==> f@[i] == cfg.lit_matches(#[trigger] lits@[i].key@, t0@),
            None => forall|k: Seq<char>| #[trigger] cfg.lit_matches(k, t0@) == (k == t0@),
        },
{
    match crate::rule::strip(&cfg.formula_prefix, t0) {
        Some(body) => {
            let mut flags: Vec<bool> = Vec::new();
            let parsed = Formula::parse_chars(&body);
            let mut j: usize = 0;
            while j < lits.len()
                invariant
                    j <= lits@.len(),
                    flags@.len() == j,
                    match parsed {
                        Some(f) => crate::mkmf::formula_of(body@) == Some(f@),
                        None => crate::mkmf::formula_of(body@) is None,
                    },
                    body@ == crate::rule::after_prefix(cfg.fp(), t0@),
                    crate::rule::prefix_applies(cfg.fp(), t0@),
                    forall|i: int| 0 <= i < j ==> flags@[i] == cfg.lit_matches(#[trigger] lits@[i].key@, t0@),
                decreases lits.len() - j,
            {
                let flag = match &parsed {
                    Some(f) => f.matches_chars(&lits[j].key),
                    None => false,
                };
                flags.push(flag);
                j = j + 1;
            }
            Some(flags)
        },
        None => match crate::rule::strip(&cfg.regex_prefix, t0) {
            Some(body) => {
                let mut flags: Vec<bool> = Vec::new();
                let compiled = CompiledRegex::new(&body);
                let mut j: usize = 0;
                while j < lits.len()
                    invariant
                        j <= lits@.len(),
                        flags@.len() == j,
                        compiled is Some <==> crate::rx::regex_valid(body@),
                        compiled matches Some(re) ==> re.source() == body@,
                        body@ == crate::rule::after_prefix(cfg.rp(), t0@),
                        !crate::rule::prefix_applies(cfg.fp(), t0@),
                        crate::rule::prefix_applies(cfg.rp(), t0@),
                        forall|i: int| 0 <= i < j ==> flags@[i] == cfg.lit_matches(#[trigger] lits@[i].key@, t0@),
                    decreases lits.len() - j,
                {
                    let flag = match &compiled {
                        Some(re) => re.is_match(&lits[j].key),
                        None => false,
                    };
                    flags.push(flag);
                    j = j + 1;
                }
                Some(flags)
            },
            None => None,
        },
    }
}

/// Which formula children hold of the topic segment `t0`.
fn form_flags<C>(forms: &Vec<Child<Formula, Node<C>>>, t0: &Vec<char>) -> (r: Vec<bool>)
    ensures
        r@.len() == forms@.len(),
        forall|i: int| 0 <= i < forms@.len() ==> r@[i] == crate::mkmf::formula_holds(#[trigger] forms@[i].key@, t0@),
{
    let mut flags: Vec<bool> = Vec::new();
    let mut j: usize = 0;
    while j < forms.len()
        invariant
            j <= forms@.len(),
            flags@.len() == j,
            forall|i: int| 0 <= i < j ==> flags@[i] == crate::mkmf::formula_holds(#[trigger] forms@[i].key@, t0@),
        decreases forms.len() - j,
    {
        flags.push(forms[j].key.matches_chars(t0));
        j = j + 1;
    }
    flags
}

/// Which expression children match the topic segment `t0`.
fn regex_flags<C>(regs: &Vec<Child<CompiledRegex, Node<C>>>, t0: &Vec<char>) -> (r: Vec<bool>)
    ensures
        r@.len() == regs@.len(),
        forall|i: int| 0 <= i < regs@.len() ==> r@[i] == crate::rx::regex_matches(#[trigger] regs@[i].key@, t0@),
{
    let mut flags: Vec<bool> = Vec::new();
    let mut j: usize = 0;
    while j < regs.len()
        invariant
            j <= regs@.len(),
            flags@.len() == j,
            forall|i: int| 0 <= i < j ==> flags@[i] == crate::rx::regex_matches(#[trigger] regs@[i].key@, t0@),
        decreases regs.len() - j,
    {
        flags.push(regs[j].key.is_match(t0));
        j = j + 1;
    }
    flags
}

/// Whether a child of `v` whose flag is set holds some client under a rule
/// matching the segments `segs[from + 1..]`.
fn any_flagged<K: View, C: Client>(
    v: &Vec<Child<K, Node<C>>>,
    flags: &Vec<bool>,
    segs: &Vec<Vec<char>>,
    from: usize,
    cfg: &Config,
) -> (r: bool)
    requires
        children_ok(v@),
        flags@.len() == v@.len(),
        from < segs@.len(),
    ensures
        r == exists|j: int, x: C::V|
            0 <= j < v@.len() && flags@[j] && #[trigger] matched(
                v@[j].node,
                x,
                views(segs@).skip(from + 1),
                *cfg,
            ),
    decreases (segs@.len() - from) * 2,
{
    let ghost rest = views(segs@).skip(from + 1);
    let n = segs.len();
    let mut i: usize = 0;
    while i < v.len()
        invariant
            n == segs@.len(),
            i <= v@.len(),
            children_ok(v@),
            flags@.len() == v@.len(),
            from < segs@.len(),
            rest == views(segs@).skip(from + 1),
            forall|j: int, x: C::V|
                0 <= j < i && flags@[j] ==> !#[trigger] matched(v@[j].node, x, rest, *cfg),
        decreases v.len() - i,
    {
        if flags[i] && v[i].node.contains_any(segs, from + 1, cfg) {
            return true;
        }
        i = i + 1;
    }
    false
}

impl<C: Client> Node<C> {
    /// Whether the node holds some client under a rule matching the topic
    /// segments `segs[from..]`; stops at the first one found.
    pub fn contains_any(&self, segs: &Vec<Vec<char>>, from: usize, cfg: &Config) -> (r: bool)
        requires
            self.wf(),
            from <= segs@.len(),
        ensures
            r == exists|x: C::V| #[trigger] matched(*self, x, views(segs@).skip(from as int), *cfg),
        decreases (segs@.len() - from) * 2 + 1,
    {
        let ghost t = views(segs@).skip(from as int);
        if from == segs.len() {
            proof {
                assert forall|x: C::V| matched(*self, x, t, *cfg) == has_client(self.members@, x) by {
                    lemma_matched_end(*self, x, t, *cfg);
                }
                if self.members@.len() > 0 {
                    assert(has_client(self.members@, self.members@[0]@));
                    assert(matched(*self, self.members@[0]@, t, *cfg));
                }
            }
            return self.members.len() > 0;
        }
        let ghost rest = views(segs@).skip(from + 1);
        proof {
            assert(t[0] == segs@[from as int]@);
            assert(t.drop_first() == rest);
            assert forall|x: C::V| #[trigger] matched(*self, x, t, *cfg) == (has_client(self.wild_members@, x)
                || via(self.lits@, |k: Seq<char>| cfg.lit_matches(k, t[0]), x, rest, *cfg, self.lits@.len() as int)
                || via(self.forms@, |f: crate::mkmf::FormulaView| crate::mkmf::formula_holds(f, t[0]), x, rest, *cfg, self.forms@.len() as int)
                || via(self.regs@, |src: Seq<char>| crate::rx::regex_matches(src, t[0]), x, rest, *cfg, self.regs@.len() as int)
                || match self.any {
                    Some(b) => matched(*b, x, rest, *cfg),
                    None => false,
                }) by {
                lemma_matched_step(*self, x, t, *cfg);
            }
        }
        let ghost ml = |k: Seq<char>| cfg.lit_matches(k, t[0]);
        let ghost mf = |f: crate::mkmf::FormulaView| crate::mkmf::formula_holds(f, t[0]);
        let ghost mr = |src: Seq<char>| crate::rx::regex_matches(src, t[0]);
        if self.wild_members.len() > 0 {
            proof {
                assert(has_client(self.wild_members@, self.wild_members@[0]@));
                assert(matched(*self, self.wild_members@[0]@, t, *cfg));
            }
            return true;
        }
        let t0 = &segs[from];
        match lit_flags(&self.lits, t0, cfg) {
            Some(flags) => {
                if any_flagged(&self.lits, &flags, segs, from, cfg) {
                    proof {
                        let (j, x) = choose|j: int, x: C::V|
                            0 <= j < self.lits@.len() && flags@[j] && #[trigger] matched(self.lits@[j].node, x, rest, *cfg);
                        assert(ml(self.lits@[j].key@));
                        assert(via(self.lits@, ml, x, rest, *cfg, self.lits@.len() as int));
                        assert(matched(*self, x, t, *cfg));
                    }
                    return true;
                }
                proof {
                    assert forall|x: C::V| !via(self.lits@, ml, x, rest, *cfg, self.lits@.len() as int) by {
                        if via(self.lits@, ml, x, rest, *cfg, self.lits@.len() as int) {
                            let j = choose|j: int| 0 <= j < self.lits@.len() && ml(self.lits@[j].key@) && #[trigger] matched(self.lits@[j].node, x, rest, *cfg);
                            assert(flags@[j]);
                        }
                    }
                }
            },
            None => {
                match find_child(&self.lits, t0) {
                    Some(i) => {
                        if self.lits[i].node.contains_any(segs, from + 1, cfg) {
                            proof {
                                let x = choose|x: C::V| #[trigger] matched(self.lits@[i as int].node, x, rest, *cfg);
                                assert(ml(self.lits@[i as int].key@));
                                assert(via(self.lits@, ml, x, rest, *cfg, self.lits@.len() as int));
                                assert(matched(*self, x, t, *cfg));
                            }
                            return true;
                        }
                        proof {
                            assert forall|x: C::V| !via(self.lits@, ml, x, rest, *cfg, self.lits@.len() as int) by {
                                if via(self.lits@, ml, x, rest, *cfg, self.lits@.len() as int) {
                                    let j = choose|j: int| 0 <= j < self.lits@.len() && ml(self.lits@[j].key@) && #[trigger] matched(self.lits@[j].node, x, rest, *cfg);
                                    assert(j == i);
                                }
                            }
                        }
                    },
                    None => {
                        proof {
                            assert forall|x: C::V| !via(self.lits@, ml, x, rest, *cfg, self.lits@.len() as int) by {}
                        }
                    },
                }
            },
        }
        let flags = form_flags(&self.forms, t0);
        if any_flagged(&self.forms, &flags, segs, from, cfg) {
            proof {
                let (j, x) = choose|j: int, x: C::V|
                    0 <= j < self.forms@.len() && flags@[j] && #[trigger] matched(self.forms@[j].node, x, rest, *cfg);
                assert(mf(self.forms@[j].key@));
                assert(via(self.forms@, mf, x, rest, *cfg, self.forms@.len() as int));
                assert(matched(*self, x, t, *cfg));
            }
            return true;
        }
        proof {
            assert forall|x: C::V| !via(self.forms@, mf, x, rest, *cfg, self.forms@.len() as int) by {
                if via(self.forms@, mf, x, rest, *cfg, self.forms@.len() as int) {
                    let j = choose|j: int| 0 <= j < self.forms@.len() && mf(self.forms@[j].key@) && #[trigger] matched(self.forms@[j].node, x, rest, *cfg);
                    assert(flags@[j]);
                }
            }
        }
        let flags = regex_flags(&self.regs, t0);
        if any_flagged(&self.regs, &flags, segs, from, cfg) {
            proof {
                let (j, x) = choose|j: int, x: C::V|
                    0 <= j < self.regs@.len() && flags@[j] && #[trigger] matched(self.regs@[j].node, x, rest, *cfg);
                assert(mr(self.regs@[j].key@));
                assert(via(self.regs@, mr, x, rest, *cfg, self.regs@.len() as int));
                assert(matched(*self, x, t, *cfg));
            }
            return true;
        }
        proof {
            assert forall|x: C::V| !via(self.regs@, mr, x, rest, *cfg, self.regs@.len() as int) by {
                if via(self.regs@, mr, x, rest, *cfg, self.regs@.len() as int) {
                    let j = choose|j: int| 0 <= j < self.regs@.len() && mr(self.regs@[j].key@) && #[trigger] matched(self.regs@[j].node, x, rest, *cfg);
                    assert(flags@[j]);
                }
            }
        }
        match &self.any {
            Some(b) => {
                if b.contains_any(segs, from + 1, cfg) {
                    proof {
                        let x = choose|x: C::V| #[trigger] matched(**b, x, rest, *cfg);
                        assert(matched(*self, x, t, *cfg));
                    }
                    return true;
                }
            },
            None => {},
        }
        proof {
            assert forall|x: C::V| !#[trigger] matched(*self, x, t, *cfg) by {
                assert(!has_client(self.wild_members@, x));
            }
        }
        false
    }
}

} // verus!
