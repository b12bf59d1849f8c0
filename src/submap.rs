//! The subscription map: clients, the patterns each one subscribed to, and
//! the trie that answers which clients a topic reaches.
use vstd::prelude::*;
use crate::client::{Client, has_client, no_dup};
use crate::rule::{Config, Edge, Step, edges, tokens_of, prefix_of, rules_eq};
use crate::segments::{views, split_str, chars_of};
use crate::trie::{Node, node_has, matched};

verus! {

/// A registered client and the patterns it subscribed to.
pub struct Registration<C> {
    pub client: C,
    pub topics: Vec<String>,
}

/// The texts of `v`.
pub open spec fn str_views(v: Seq<String>) -> Seq<Seq<char>> {
    v.map_values(|s: String| s@)
}

/// The registration of the client `x` among `v`, if there is one.
pub open spec fn entry_at<C: View>(v: Seq<Registration<C>>, x: C::V) -> Option<Registration<C>> {
    if exists|i: int| 0 <= i < v.len() && #[trigger] v[i].client@ == x {
        Some(v[choose|i: int| 0 <= i < v.len() && #[trigger] v[i].client@ == x])
    } else {
        None
    }
}

/// The number of patterns over all registrations.
pub open spec fn total<C>(v: Seq<Registration<C>>) -> nat
    decreases v.len(),
{
    if v.len() == 0 {
        0
    } else {
        total(v.drop_last()) + v.last().topics@.len()
    }
}

/// No two registrations are of the same client.
pub open spec fn clients_unique<C: View>(v: Seq<Registration<C>>) -> bool {
    forall|i: int, j: int|
        0 <= i < v.len() && 0 <= j < v.len() && i != j ==> v[i].client@ != v[j].client@
}

/// A map from topic patterns to the clients subscribed to them.
pub struct SubMap<C> {
    root: Node<C>,
    regs: Vec<Registration<C>>,
    subscription_count: usize,
    cfg: Config,
}

impl<C: Client> SubMap<C> {
    /// Whether the client `x` is registered.
    pub closed spec fn registered(&self, x: C::V) -> bool {
        entry_at(self.regs@, x) is Some
    }

    /// The patterns the client `x` subscribed to.
    pub closed spec fn topics(&self, x: C::V) -> Set<Seq<char>> {
        match entry_at(self.regs@, x) {
            Some(r) => str_views(r.topics@).to_set(),
            None => Set::empty(),
        }
    }

    /// The registered clients, in the order of registration.
    pub closed spec fn clients(&self) -> Seq<C::V> {
        self.regs@.map_values(|r: Registration<C>| r.client@)
    }

    /// The number of live subscriptions.
    pub closed spec fn count(&self) -> nat {
        self.subscription_count as nat
    }

    /// The tokens and prefixes of the map.
    pub closed spec fn config(&self) -> Config {
        self.cfg
    }

    /// Whether the trie holds nothing at all.
    pub closed spec fn trie_empty(&self) -> bool {
        self.root.is_empty_spec()
    }

    /// Whether the trie holds `x` under the steps `p`, ending in a wildcard
    /// when `w`.
    pub closed spec fn holds(&self, x: C::V, p: Seq<Edge>, w: bool) -> bool {
        node_has(self.root, x, p, w)
    }

    /// The invariant of the map.
    pub closed spec fn inv(&self) -> bool {
        &&& self.root.wf()
        &&& clients_unique(self.regs@)
        &&& forall|i: int| 0 <= i < self.regs@.len() ==> str_views(
            (#[trigger] self.regs@[i]).topics@,
        ).no_duplicates()
        &&& self.subscription_count == total(self.regs@)
        &&& forall|x: C::V, p: Seq<Edge>, w: bool|
            #[trigger] node_has(self.root, x, p, w) == (self.registered(x) && exists|t: Seq<char>|
                #[trigger] self.topics(x).contains(t) && self.cfg.rule_of_pattern(t) == Some(
                    (p, w),
                ))
    }
}

proof fn lemma_entry_at<C: View>(v: Seq<Registration<C>>, i: int)
    requires
        clients_unique(v),
        0 <= i < v.len(),
    ensures
        entry_at(v, v[i].client@) == Some(v[i]),
{
    let x = v[i].client@;
    assert(v[i].client@ == x);
    let j = choose|j: int| 0 <= j < v.len() && #[trigger] v[j].client@ == x;
    assert(j == i);
}

proof fn lemma_entry_update<C: View>(o: Seq<Registration<C>>, n: Seq<Registration<C>>, i: int)
    requires
        clients_unique(o),
        0 <= i < o.len(),
        n.len() == o.len(),
        forall|j: int| 0 <= j < o.len() && j != i ==> n[j] == o[j],
        n[i].client@ == o[i].client@,
    ensures
        clients_unique(n),
        forall|x: C::V|
            #[trigger] entry_at(n, x) == if x == o[i].client@ {
                Some(n[i])
            } else {
                entry_at(o, x)
            },
{
    assert forall|a: int, b: int| 0 <= a < n.len() && 0 <= b < n.len() && a != b implies n[a].client@
        != n[b].client@ by {
        if a != i {
            assert(n[a] == o[a]);
        }
        if b != i {
            assert(n[b] == o[b]);
        }
    }
    assert forall|x: C::V|
        #[trigger] entry_at(n, x) == if x == o[i].client@ {
            Some(n[i])
        } else {
            entry_at(o, x)
        } by {
        if x == o[i].client@ {
            lemma_entry_at(n, i);
        } else {
            if exists|j: int| 0 <= j < o.len() && #[trigger] o[j].client@ == x {
                let j = choose|j: int| 0 <= j < o.len() && #[trigger] o[j].client@ == x;
                lemma_entry_at(o, j);
                assert(n[j] == o[j]);
                lemma_entry_at(n, j);
            } else {
                assert forall|j: int| 0 <= j < n.len() implies n[j].client@ != x by {
                    if j != i {
                        assert(n[j] == o[j]);
                    }
                }
            }
        }
    }
}

proof fn lemma_entry_push<C: View>(o: Seq<Registration<C>>, r: Registration<C>)
    requires
        clients_unique(o),
        entry_at(o, r.client@) is None,
    ensures
        clients_unique(o.push(r)),
        forall|x: C::V|
            #[trigger] entry_at(o.push(r), x) == if x == r.client@ {
                Some(r)
            } else {
                entry_at(o, x)
            },
{
    let n = o.push(r);
    assert forall|j: int| 0 <= j < o.len() implies o[j].client@ != r.client@ by {
        if o[j].client@ == r.client@ {
            assert(exists|j: int| 0 <= j < o.len() && #[trigger] o[j].client@ == r.client@);
        }
    }
    assert forall|a: int, b: int| 0 <= a < n.len() && 0 <= b < n.len() && a != b implies n[a].client@
        != n[b].client@ by {
        if a < o.len() {
            assert(n[a] == o[a]);
        }
        if b < o.len() {
            assert(n[b] == o[b]);
        }
    }
    assert forall|x: C::V|
        #[trigger] entry_at(n, x) == if x == r.client@ {
            Some(r)
        } else {
            entry_at(o, x)
        } by {
        if x == r.client@ {
            assert(n[o.len() as int] == r);
            lemma_entry_at(n, o.len() as int);
        } else {
            if exists|j: int| 0 <= j < o.len() && #[trigger] o[j].client@ == x {
                let j = choose|j: int| 0 <= j < o.len() && #[trigger] o[j].client@ == x;
                lemma_entry_at(o, j);
                assert(n[j] == o[j]);
                lemma_entry_at(n, j);
            } else {
                assert forall|j: int| 0 <= j < n.len() implies n[j].client@ != x by {
                    if j < o.len() {
                        assert(n[j] == o[j]);
                    }
                }
            }
        }
    }
}

proof fn lemma_entry_remove<C: View>(o: Seq<Registration<C>>, i: int)
    requires
        clients_unique(o),
        0 <= i < o.len(),
    ensures
        clients_unique(o.remove(i)),
        forall|x: C::V|
            #[trigger] entry_at(o.remove(i), x) == if x == o[i].client@ {
                None
            } else {
                entry_at(o, x)
            },
{
    let n = o.remove(i);
    assert forall|a: int, b: int| 0 <= a < n.len() && 0 <= b < n.len() && a != b implies n[a].client@
        != n[b].client@ by {
        let a2 = if a < i { a } else { a + 1 };
        let b2 = if b < i { b } else { b + 1 };
        assert(n[a] == o[a2]);
        assert(n[b] == o[b2]);
    }
    assert forall|x: C::V|
        #[trigger] entry_at(n, x) == if x == o[i].client@ {
            None
        } else {
            entry_at(o, x)
        } by {
        if x == o[i].client@ {
            assert forall|j: int| 0 <= j < n.len() implies n[j].client@ != x by {
                let j2 = if j < i { j } else { j + 1 };
                assert(n[j] == o[j2]);
            }
        } else {
            if exists|j: int| 0 <= j < o.len() && #[trigger] o[j].client@ == x {
                let j = choose|j: int| 0 <= j < o.len() && #[trigger] o[j].client@ == x;
                lemma_entry_at(o, j);
                let j2 = if j < i { j } else { j - 1 };
                assert(n[j2] == o[j]);
                lemma_entry_at(n, j2);
            } else {
                assert forall|j: int| 0 <= j < n.len() implies n[j].client@ != x by {
                    let j2 = if j < i { j } else { j + 1 };
                    assert(n[j] == o[j2]);
                }
            }
        }
    }
}

proof fn lemma_total_update<C>(o: Seq<Registration<C>>, i: int, r: Registration<C>)
    requires
        0 <= i < o.len(),
    ensures
        total(o.update(i, r)) + o[i].topics@.len() == total(o) + r.topics@.len(),
    decreases o.len(),
{
    let n = o.update(i, r);
    if i == o.len() - 1 {
        assert(n.drop_last() == o.drop_last());
    } else {
        assert(n.drop_last() == o.drop_last().update(i, r));
        lemma_total_update(o.drop_last(), i, r);
    }
}

proof fn lemma_total_remove<C>(o: Seq<Registration<C>>, i: int)
    requires
        0 <= i < o.len(),
    ensures
        total(o.remove(i)) + o[i].topics@.len() == total(o),
    decreases o.len(),
{
    let n = o.remove(i);
    if i == o.len() - 1 {
        assert(n == o.drop_last());
    } else {
        assert(n.drop_last() == o.drop_last().remove(i));
        assert(n.last() == o.last());
        lemma_total_remove(o.drop_last(), i);
    }
}

proof fn lemma_total_zero<C>(o: Seq<Registration<C>>, i: int)
    requires
        0 <= i < o.len(),
        total(o) == 0,
    ensures
        o[i].topics@.len() == 0,
    decreases o.len(),
{
    if i < o.len() - 1 {
        lemma_total_zero(o.drop_last(), i);
    }
}

impl<C: Client> SubMap<C> {
    proof fn lemma_no_topics(&self)
        requires
            self.inv(),
            self.count() == 0,
        ensures
            forall|x: C::V| #[trigger] self.topics(x) == Set::<Seq<char>>::empty(),
            forall|x: C::V, p: Seq<Edge>, w: bool| !#[trigger] node_has(self.root, x, p, w),
    {
        assert forall|x: C::V| #[trigger] self.topics(x) == Set::<Seq<char>>::empty() by {
            if exists|i: int| 0 <= i < self.regs@.len() && #[trigger] self.regs@[i].client@ == x {
                let i = choose|i: int| 0 <= i < self.regs@.len() && #[trigger] self.regs@[i].client@ == x;
                lemma_entry_at(self.regs@, i);
                lemma_total_zero(self.regs@, i);
                assert(str_views(self.regs@[i].topics@).to_set() == Set::<Seq<char>>::empty());
            }
        }
    }

    /// A map without subscriptions stays well formed under another
    /// configuration.
    proof fn lemma_reconfigured(old: Self, new: Self)
        requires
            old.inv(),
            old.count() == 0,
            new.root == old.root,
            new.regs == old.regs,
            new.subscription_count == old.subscription_count,
        ensures
            new.inv(),
            forall|x: C::V| #[trigger] new.topics(x) == Set::<Seq<char>>::empty(),
    {
        old.lemma_no_topics();
        assert forall|x: C::V| #[trigger] new.topics(x) == old.topics(x) by {}
        assert forall|x: C::V, p: Seq<Edge>, w: bool|
            #[trigger] node_has(new.root, x, p, w) == (new.registered(x) && exists|t: Seq<char>|
                #[trigger] new.topics(x).contains(t) && new.cfg.rule_of_pattern(t) == Some((p, w))) by {
            assert(new.topics(x) == Set::<Seq<char>>::empty());
        }
    }

    /// An empty map: separator `/`, wildcard `*`, placeholder `?`, no
    /// formula or expression prefix.
    pub fn new() -> (r: Self)
        ensures
            r.inv(),
            r.count() == 0,
            r.clients() == Seq::<C::V>::empty(),
            forall|x: C::V| !#[trigger] r.registered(x),
            forall|x: C::V| #[trigger] r.topics(x) == Set::<Seq<char>>::empty(),
            r.trie_empty(),
            r.config().sep == '/',
            views(r.config().wildcards@) == seq![seq!['*']],
            views(r.config().match_any@) == seq![seq!['?']],
            r.config().formula_prefix is None,
            r.config().regex_prefix is None,
    {
        let r = SubMap {
            root: Node::new(),
            regs: Vec::new(),
            subscription_count: 0,
            cfg: Config::default_config(),
        };
        proof {
            assert(r.clients() == Seq::<C::V>::empty());
            assert forall|x: C::V, p: Seq<Edge>, w: bool|
                #[trigger] node_has(r.root, x, p, w) == (r.registered(x) && exists|t: Seq<char>|
                    #[trigger] r.topics(x).contains(t) && r.cfg.rule_of_pattern(t) == Some((p, w))) by {
                assert(!r.registered(x));
            }
        }
        r
    }

    /// Sets the separator of segments. Only a map without subscriptions can be configured.
    pub fn separator(self, separator: char) -> (r: Self)
        requires
            self.inv(),
            self.count() == 0,
        ensures
            r.inv(),
            r.count() == 0,
            r.config().sep == separator,
            r.config().wildcards == self.config().wildcards,
            r.config().match_any == self.config().match_any,
            r.config().formula_prefix == self.config().formula_prefix,
            r.config().regex_prefix == self.config().regex_prefix,
            r.clients() == self.clients(),
            forall|x: C::V| #[trigger] r.registered(x) == self.registered(x),
            forall|x: C::V| #[trigger] r.topics(x) == Set::<Seq<char>>::empty(),
    {
        let value = separator;
        let mut m = self;
        m.cfg.sep = value;
        proof {
            Self::lemma_reconfigured(self, m);
        }
        m
    }

    /// Makes `wildcard` the one wildcard token. Only a map without subscriptions can be configured.
    pub fn wildcard(self, wildcard: &str) -> (r: Self)
        requires
            self.inv(),
            self.count() == 0,
        ensures
            r.inv(),
            r.count() == 0,
            views(r.config().wildcards@) == seq![wildcard@],
            r.config().sep == self.config().sep,
            r.config().match_any == self.config().match_any,
            r.config().formula_prefix == self.config().formula_prefix,
            r.config().regex_prefix == self.config().regex_prefix,
            r.clients() == self.clients(),
            forall|x: C::V| #[trigger] r.registered(x) == self.registered(x),
            forall|x: C::V| #[trigger] r.topics(x) == Set::<Seq<char>>::empty(),
    {
        let value = { let mut v: Vec<Vec<char>> = Vec::new(); v.push(chars_of(wildcard)); v };
        let mut m = self;
        m.cfg.wildcards = value;
        proof {
            Self::lemma_reconfigured(self, m);
        }
        m
    }

    /// Makes `match_any` the one placeholder token. Only a map without subscriptions can be configured.
    pub fn match_any(self, match_any: &str) -> (r: Self)
        requires
            self.inv(),
            self.count() == 0,
        ensures
            r.inv(),
            r.count() == 0,
            views(r.config().match_any@) == seq![match_any@],
            r.config().sep == self.config().sep,
            r.config().wildcards == self.config().wildcards,
            r.config().formula_prefix == self.config().formula_prefix,
            r.config().regex_prefix == self.config().regex_prefix,
            r.clients() == self.clients(),
            forall|x: C::V| #[trigger] r.registered(x) == self.registered(x),
            forall|x: C::V| #[trigger] r.topics(x) == Set::<Seq<char>>::empty(),
    {
        let value = { let mut v: Vec<Vec<char>> = Vec::new(); v.push(chars_of(match_any)); v };
        let mut m = self;
        m.cfg.match_any = value;
        proof {
            Self::lemma_reconfigured(self, m);
        }
        m
    }

    /// Makes `wildcard_multiple` the wildcard tokens. Only a map without subscriptions can be configured.
    pub fn wildcard_multiple(self, wildcard_multiple: &[&str]) -> (r: Self)
        requires
            self.inv(),
            self.count() == 0,
        ensures
            r.inv(),
            r.count() == 0,
            r.config().wildcards@.len() == wildcard_multiple@.len() && forall|i: int| 0 <= i < wildcard_multiple@.len() ==> #[trigger] r.config().wildcards@[i]@ == wildcard_multiple@[i]@,
            r.config().sep == self.config().sep,
            r.config().match_any == self.config().match_any,
            r.config().formula_prefix == self.config().formula_prefix,
            r.config().regex_prefix == self.config().regex_prefix,
            r.clients() == self.clients(),
            forall|x: C::V| #[trigger] r.registered(x) == self.registered(x),
            forall|x: C::V| #[trigger] r.topics(x) == Set::<Seq<char>>::empty(),
    {
        let value = tokens_of(wildcard_multiple);
        let mut m = self;
        m.cfg.wildcards = value;
        proof {
            Self::lemma_reconfigured(self, m);
        }
        m
    }

    /// Makes `match_any_multiple` the placeholder tokens. Only a map without subscriptions can be configured.
    pub fn match_any_multiple(self, match_any_multiple: &[&str]) -> (r: Self)
        requires
            self.inv(),
            self.count() == 0,
        ensures
            r.inv(),
            r.count() == 0,
            r.config().match_any@.len() == match_any_multiple@.len() && forall|i: int| 0 <= i < match_any_multiple@.len() ==> #[trigger] r.config().match_any@[i]@ == match_any_multiple@[i]@,
            r.config().sep == self.config().sep,
            r.config().wildcards == self.config().wildcards,
            r.config().formula_prefix == self.config().formula_prefix,
            r.config().regex_prefix == self.config().regex_prefix,
            r.clients() == self.clients(),
            forall|x: C::V| #[trigger] r.registered(x) == self.registered(x),
            forall|x: C::V| #[trigger] r.topics(x) == Set::<Seq<char>>::empty(),
    {
        let value = tokens_of(match_any_multiple);
        let mut m = self;
        m.cfg.match_any = value;
        proof {
            Self::lemma_reconfigured(self, m);
        }
        m
    }

    /// Sets the prefix of formula segments; an empty prefix turns formulas off. Only a map without subscriptions can be configured.
    pub fn formula_prefix(self, prefix: &str) -> (r: Self)
        requires
            self.inv(),
            self.count() == 0,
        ensures
            r.inv(),
            r.count() == 0,
            (prefix@.len() == 0 ==> r.config().formula_prefix is None) && (prefix@.len() > 0 ==> r.config().fp() == Some(prefix@)),
            r.config().sep == self.config().sep,
            r.config().wildcards == self.config().wildcards,
            r.config().match_any == self.config().match_any,
            r.config().regex_prefix == self.config().regex_prefix,
            r.clients() == self.clients(),
            forall|x: C::V| #[trigger] r.registered(x) == self.registered(x),
            forall|x: C::V| #[trigger] r.topics(x) == Set::<Seq<char>>::empty(),
    {
        let value = prefix_of(prefix);
        let mut m = self;
        m.cfg.formula_prefix = value;
        proof {
            Self::lemma_reconfigured(self, m);
        }
        m
    }

    /// Sets the prefix of expression segments; an empty prefix turns expressions off. Only a map without subscriptions can be configured.
    pub fn regex_prefix(self, prefix: &str) -> (r: Self)
        requires
            self.inv(),
            self.count() == 0,
        ensures
            r.inv(),
            r.count() == 0,
            (prefix@.len() == 0 ==> r.config().regex_prefix is None) && (prefix@.len() > 0 ==> r.config().rp() == Some(prefix@)),
            r.config().sep == self.config().sep,
            r.config().wildcards == self.config().wildcards,
            r.config().match_any == self.config().match_any,
            r.config().formula_prefix == self.config().formula_prefix,
            r.clients() == self.clients(),
            forall|x: C::V| #[trigger] r.registered(x) == self.registered(x),
            forall|x: C::V| #[trigger] r.topics(x) == Set::<Seq<char>>::empty(),
    {
        let value = prefix_of(prefix);
        let mut m = self;
        m.cfg.regex_prefix = value;
        proof {
            Self::lemma_reconfigured(self, m);
        }
        m
    }

}

impl<C: Client> SubMap<C> {
    /// The position of the registration of `c`, if there is one.
    fn find_client(&self, c: &C) -> (r: Option<usize>)
        requires
            self.inv(),
        ensures
            match r {
                Some(i) => i < self.regs@.len() && self.regs@[i as int].client@ == c@ && entry_at(
                    self.regs@,
                    c@,
                ) == Some(self.regs@[i as int]),
                None => !self.registered(c@),
            },
    {
        let mut i: usize = 0;
        while i < self.regs.len()
            invariant
                self.inv(),
                i <= self.regs@.len(),
                forall|j: int| 0 <= j < i ==> self.regs@[j].client@ != c@,
            decreases self.regs.len() - i,
        {
            if self.regs[i].client.same(c) {
                proof {
                    lemma_entry_at(self.regs@, i as int);
                }
                return Some(i);
            }
            i = i + 1;
        }
        None
    }

    /// Registers `c`; false when it was registered already.
    pub fn register_client(&mut self, client: &C) -> (r: bool)
        requires
            old(self).inv(),
        ensures
            final(self).inv(),
            r == !old(self).registered(client@),
            forall|x: C::V| #[trigger]
                final(self).registered(x) == (old(self).registered(x) || x == client@),
            forall|x: C::V| #[trigger] final(self).topics(x) == old(self).topics(x),
            forall|x: C::V, p: Seq<Edge>, w: bool| #[trigger]
                final(self).holds(x, p, w) == old(self).holds(x, p, w),
            final(self).count() == old(self).count(),
            final(self).config() == old(self).config(),
            r ==> final(self).clients() == old(self).clients().push(client@),
            !r ==> final(self).clients() == old(self).clients(),
    {
        match self.find_client(client) {
            Some(_) => false,
            None => {
                let ghost o = self.regs@;
                let reg = Registration { client: client.duplicate(), topics: Vec::new() };
                self.regs.push(reg);
                proof {
                    lemma_entry_push(o, self.regs@.last());
                    assert(self.regs@ == o.push(self.regs@.last()));
                    assert(self.regs@.drop_last() == o);
                    assert(str_views(self.regs@.last().topics@).to_set() == Set::<Seq<char>>::empty());
                    assert(self.clients() == old(self).clients().push(client@));
                    assert(total(self.regs@) == total(o));
                    assert forall|x: C::V| #[trigger] self.topics(x) == old(self).topics(x) by {}
                    assert forall|x: C::V, p: Seq<Edge>, w: bool|
                        #[trigger] node_has(self.root, x, p, w) == (self.registered(x) && exists|t: Seq<char>|
                            #[trigger] self.topics(x).contains(t) && self.cfg.rule_of_pattern(t) == Some((p, w))) by {
                        assert(node_has(old(self).root, x, p, w) == (old(self).registered(x) && exists|t: Seq<char>|
                            #[trigger] old(self).topics(x).contains(t) && old(self).cfg.rule_of_pattern(t) == Some((p, w))));
                        assert(self.root == old(self).root);
                        assert(self.cfg == old(self).cfg);
                        if x == client@ {
                            assert(self.topics(x) == Set::<Seq<char>>::empty());
                            assert(!node_has(old(self).root, x, p, w));
                            assert(!node_has(self.root, x, p, w));
                            assert(!(exists|t: Seq<char>|
                            #[trigger] self.topics(x).contains(t) && self.cfg.rule_of_pattern(t) == Some((p, w))));
                        } else {
                            assert(self.registered(x) == old(self).registered(x));
                            assert(self.topics(x) == old(self).topics(x));
                            assert((exists|t: Seq<char>|
                            #[trigger] self.topics(x).contains(t) && self.cfg.rule_of_pattern(t) == Some((p, w))) == (exists|t: Seq<char>|
                            #[trigger] old(self).topics(x).contains(t) && old(self).cfg.rule_of_pattern(t) == Some((p, w))));
                        }
                    }
                    assert forall|i: int| 0 <= i < self.regs@.len() implies str_views(
                        (#[trigger] self.regs@[i]).topics@,
                    ).no_duplicates() by {
                        if i < o.len() {
                            assert(self.regs@[i] == o[i]);
                        }
                    }
                }
                true
            },
        }
    }

    /// The registered clients, in the order of registration.
    pub fn list_clients(&self) -> (r: Vec<C>)
        ensures
            r@.len() == self.clients().len(),
            forall|i: int| 0 <= i < r@.len() ==> #[trigger] r@[i]@ == self.clients()[i],
    {
        let mut r: Vec<C> = Vec::new();
        let mut i: usize = 0;
        while i < self.regs.len()
            invariant
                i <= self.regs@.len(),
                r@.len() == i,
                forall|j: int| 0 <= j < i ==> #[trigger] r@[j]@ == self.clients()[j],
            decreases self.regs.len() - i,
        {
            r.push(self.regs[i].client.duplicate());
            i = i + 1;
        }
        r
    }

    /// The patterns `client` subscribed to; none when it is not registered.
    pub fn list_topics(&self, client: &C) -> (r: Vec<&str>)
        requires
            self.inv(),
        ensures
            r@.map_values(|s: &str| s@).no_duplicates(),
            r@.map_values(|s: &str| s@).to_set() == self.topics(client@),
            !self.registered(client@) ==> r@.len() == 0,
            r@.len() <= self.count(),
    {
        let mut r: Vec<&str> = Vec::new();
        match self.find_client(client) {
            Some(i) => {
                proof {
                    lemma_total_ge(self.regs@, i as int);
                }
                let topics = &self.regs[i].topics;
                let ghost tv = str_views(topics@);
                let mut j: usize = 0;
                while j < topics.len()
                    invariant
                        j <= topics@.len(),
                        tv == str_views(topics@),
                        r@.map_values(|s: &str| s@) == tv.take(j as int),
                    decreases topics.len() - j,
                {
                    r.push(topics[j].as_str());
                    assert(tv.take(j + 1) == tv.take(j as int).push(tv[j as int]));
                    assert(r@.map_values(|s: &str| s@) == tv.take(j + 1));
                    j = j + 1;
                }
                assert(tv.take(j as int) == tv);
                assert(r@.len() == r@.map_values(|s: &str| s@).len());
            },
            None => {
                assert(r@.map_values(|s: &str| s@).to_set() == Set::<Seq<char>>::empty());
            },
        }
        r
    }

    /// The number of live subscriptions.
    pub fn subscription_count(&self) -> (r: usize)
        ensures
            r == self.count(),
    {
        self.subscription_count
    }

    /// The number of registered clients.
    pub fn client_count(&self) -> (r: usize)
        ensures
            r == self.clients().len(),
    {
        self.regs.len()
    }

    /// Whether no client is registered.
    pub fn is_empty(&self) -> (r: bool)
        ensures
            r == (self.clients().len() == 0),
    {
        self.regs.len() == 0
    }
}

/// The position of the pattern `t` among `topics`, if it is there.
fn find_topic(topics: &Vec<String>, t: &String) -> (r: Option<usize>)
    ensures
        match r {
            Some(j) => j < topics@.len() && topics@[j as int]@ == t@,
            None => !str_views(topics@).contains(t@),
        },
{
    let mut j: usize = 0;
    while j < topics.len()
        invariant
            j <= topics@.len(),
            forall|k: int| 0 <= k < j ==> topics@[k]@ != t@,
        decreases topics.len() - j,
    {
        if <String as PartialEq>::eq(&topics[j], t) {
            return Some(j);
        }
        j = j + 1;
    }
    assert(!str_views(topics@).contains(t@)) by {
        if str_views(topics@).contains(t@) {
            let k = choose|k: int| 0 <= k < str_views(topics@).len() && str_views(topics@)[k] == t@;
            assert(topics@[k]@ == t@);
        }
    }
    None
}

proof fn lemma_views_push(v: Seq<String>, s: String)
    ensures
        str_views(v.push(s)) == str_views(v).push(s@),
        str_views(v.push(s)).to_set() == str_views(v).to_set().insert(s@),
{
    assert(str_views(v.push(s)) == str_views(v).push(s@));
    assert(str_views(v).push(s@).to_set() == str_views(v).to_set().insert(s@)) by {
        assert forall|t: Seq<char>| #[trigger] str_views(v).push(s@).contains(t) == (str_views(v).contains(t) || t == s@) by {
            if str_views(v).contains(t) {
                let k = choose|k: int| 0 <= k < str_views(v).len() && str_views(v)[k] == t;
                assert(str_views(v).push(s@)[k] == t);
            }
            if t == s@ {
                assert(str_views(v).push(s@)[str_views(v).len() as int] == t);
            }
        }
    }
}

proof fn lemma_views_remove(v: Seq<String>, j: int)
    requires
        0 <= j < v.len(),
        str_views(v).no_duplicates(),
    ensures
        str_views(v.remove(j)) == str_views(v).remove(j),
        str_views(v.remove(j)).no_duplicates(),
        str_views(v.remove(j)).to_set() == str_views(v).to_set().remove(v[j]@),
{
    let a = str_views(v);
    assert(str_views(v.remove(j)) == a.remove(j));
    let b = a.remove(j);
    assert(a[j] == v[j]@);
    assert forall|x: int, y: int| 0 <= x < b.len() && 0 <= y < b.len() && x != y implies b[x] != b[y] by {
        let x2 = if x < j { x } else { x + 1 };
        let y2 = if y < j { y } else { y + 1 };
        assert(b[x] == a[x2]);
        assert(b[y] == a[y2]);
    }
    assert(b.to_set() == a.to_set().remove(v[j]@)) by {
        assert forall|t: Seq<char>| #[trigger] b.contains(t) == (a.contains(t) && t != v[j]@) by {
            if b.contains(t) {
                let k = choose|k: int| 0 <= k < b.len() && b[k] == t;
                let k2 = if k < j { k } else { k + 1 };
                assert(a[k2] == t);
                assert(k2 != j);
            }
            if a.contains(t) && t != v[j]@ {
                let k = choose|k: int| 0 <= k < a.len() && a[k] == t;
                assert(k != j);
                let k2 = if k < j { k } else { k - 1 };
                assert(b[k2] == t);
            }
        }
    }
}

impl<C: Client> SubMap<C> {
    /// Subscribes `client` to the pattern `topic`. False when the client is
    /// not registered; a pattern it holds already changes nothing. A pattern
    /// whose formula or expression does not parse is recorded and matches
    /// nothing.
    pub fn subscribe(&mut self, topic: &str, client: &C) -> (r: bool)
        requires
            old(self).inv(),
            old(self).count() < usize::MAX,
        ensures
            Self::subscribed(*old(self), *final(self), topic@, client@, r),
            forall|x: C::V, p: Seq<Edge>, w: bool| #[trigger]
                final(self).holds(x, p, w) == (old(self).holds(x, p, w) || (r && x == client@
                    && old(self).config().rule_of_pattern(topic@) == Some((p, w)))),
    {
        let i = match self.find_client(client) {
            Some(i) => i,
            None => {
                return false;
            },
        };
        let t = topic.to_owned();
        match find_topic(&self.regs[i].topics, &t) {
            Some(_) => {
                proof {
                    let v = str_views(self.regs@[i as int].topics@);
                    assert(v.contains(topic@)) by {
                        let j = choose|j: int| 0 <= j < self.regs@[i as int].topics@.len() && self.regs@[i as int].topics@[j]@ == topic@;
                        assert(v[j] == topic@);
                    }
                    assert forall|x: C::V| #[trigger] self.topics(x) == if x == client@ {
                        self.topics(x).insert(topic@)
                    } else {
                        self.topics(x)
                    } by {
                        if x == client@ {
                            assert(self.topics(x).insert(topic@) == self.topics(x));
                        }
                    }
                    assert forall|x: C::V, p: Seq<Edge>, w: bool| (x == client@
                        && self.cfg.rule_of_pattern(topic@) == Some((p, w))) implies #[trigger]
                        self.holds(x, p, w) by {
                        assert(self.topics(x).contains(topic@));
                    }
                }
                return true;
            },
            None => {},
        }
        let ghost o = *self;
        let ghost rule = self.cfg.rule_of_pattern(topic@);
        match self.cfg.compile_pattern(topic) {
            Some((steps, w)) => {
                self.root.insert(steps, w, client);
            },
            None => {},
        }
        assert forall|x: C::V, p: Seq<Edge>, w: bool| #[trigger] node_has(self.root, x, p, w)
            == (node_has(o.root, x, p, w) || (x == client@ && rule == Some((p, w)))) by {}
        let ghost ov = self.regs@;
        self.regs[i].topics.push(t);
        self.subscription_count = self.subscription_count + 1;
        proof {
            let nv = self.regs@;
            lemma_entry_update(ov, nv, i as int);
            lemma_total_update(ov, i as int, nv[i as int]);
            lemma_views_push(ov[i as int].topics@, t);
            assert(nv == ov.update(i as int, nv[i as int]));
            assert(str_views(nv[i as int].topics@).no_duplicates());
            assert forall|k: int| 0 <= k < nv.len() implies str_views(
                (#[trigger] nv[k]).topics@,
            ).no_duplicates() by {
                if k != i {
                    assert(nv[k] == ov[k]);
                }
            }
            assert forall|x: C::V| #[trigger] self.topics(x) == if x == client@ {
                o.topics(x).insert(topic@)
            } else {
                o.topics(x)
            } by {}
            assert(self.clients() == o.clients()) by {
                assert forall|k: int| 0 <= k < nv.len() implies nv[k].client@ == ov[k].client@ by {
                    if k != i {
                        assert(nv[k] == ov[k]);
                    }
                }
            }
            assert forall|x: C::V, p: Seq<Edge>, w: bool|
                #[trigger] node_has(self.root, x, p, w) == (self.registered(x) && exists|t: Seq<char>|
                    #[trigger] self.topics(x).contains(t) && self.cfg.rule_of_pattern(t) == Some((p, w))) by {
                assert(self.topics(x) == if x == client@ {
                    o.topics(x).insert(topic@)
                } else {
                    o.topics(x)
                });
                assert(self.registered(x) == o.registered(x));
                assert(node_has(o.root, x, p, w) == (o.registered(x) && exists|t: Seq<char>|
                    #[trigger] o.topics(x).contains(t) && o.cfg.rule_of_pattern(t) == Some((p, w))));
                if x == client@ && rule == Some((p, w)) {
                    assert(self.topics(x).contains(topic@));
                }
                assert(self.cfg == o.cfg);
                if exists|t: Seq<char>| #[trigger] self.topics(x).contains(t) && self.cfg.rule_of_pattern(t) == Some((p, w)) {
                    let t = choose|t: Seq<char>| #[trigger] self.topics(x).contains(t) && self.cfg.rule_of_pattern(t) == Some((p, w));
                    if t != topic@ || x != client@ {
                        assert(o.topics(x).contains(t));
                        assert(node_has(o.root, x, p, w));
                    }
                }
                if node_has(o.root, x, p, w) {
                    let t = choose|t: Seq<char>| #[trigger] o.topics(x).contains(t) && o.cfg.rule_of_pattern(t) == Some((p, w));
                    assert(self.topics(x).contains(t));
                }
            }
        }
        true
    }
}

impl<C: Client> SubMap<C> {
    /// Whether another pattern than the one at `j` among `topics` has the
    /// rule `steps`, `w`.
    fn has_alias(&self, topics: &Vec<String>, j: usize, steps: &Vec<Step>, w: bool) -> (r: bool)
        ensures
            r == exists|m: int|
                0 <= m < topics@.len() && m != j && #[trigger] self.cfg.rule_of_pattern(topics@[m]@)
                    == Some((edges(steps@), w)),
    {
        let mut k: usize = 0;
        while k < topics.len()
            invariant
                k <= topics@.len(),
                forall|m: int|
                    0 <= m < k && m != j ==> #[trigger] self.cfg.rule_of_pattern(topics@[m]@)
                        != Some((edges(steps@), w)),
            decreases topics.len() - k,
        {
            if k != j {
                match self.cfg.compile_pattern(topics[k].as_str()) {
                    Some((st2, w2)) => {
                        if rules_eq(steps, w, &st2, w2) {
                            assert(self.cfg.rule_of_pattern(topics@[k as int]@) == Some((edges(steps@), w)));
                            return true;
                        }
                    },
                    None => {},
                }
            }
            k = k + 1;
        }
        false
    }

    /// Unsubscribes `client` from the pattern `topic`. False when the client
    /// is not registered; a pattern it does not hold changes nothing. The
    /// trie keeps the rule while another pattern of the client has it.
    #[verifier::rlimit(60)]
    pub fn unsubscribe(&mut self, topic: &str, client: &C) -> (r: bool)
        requires
            old(self).inv(),
        ensures
            Self::unsubscribed(*old(self), *final(self), topic@, client@, r),
    {
        let i = match self.find_client(client) {
            Some(i) => i,
            None => {
                return false;
            },
        };
        let t = topic.to_owned();
        let j = match find_topic(&self.regs[i].topics, &t) {
            Some(j) => j,
            None => {
                proof {
                    assert forall|x: C::V| #[trigger] self.topics(x) == if x == client@ {
                        self.topics(x).remove(topic@)
                    } else {
                        self.topics(x)
                    } by {
                        if x == client@ {
                            assert(self.topics(x).remove(topic@) == self.topics(x));
                        }
                    }
                }
                return true;
            },
        };
        let ghost o = *self;
        let ghost rule = self.cfg.rule_of_pattern(topic@);
        let ghost ot = self.regs@[i as int].topics@;
        proof {
            lemma_views_remove(ot, j as int);
            assert(str_views(ot)[j as int] == topic@);
        }
        let mut removed = false;
        match self.cfg.compile_pattern(topic) {
            Some((steps, w)) => {
                if !self.has_alias(&self.regs[i].topics, j, &steps, w) {
                    self.root.remove(&steps, 0, w, client);
                    assert(edges(steps@).skip(0) == edges(steps@));
                    removed = true;
                }
            },
            None => {},
        }
        assert forall|x: C::V, p: Seq<Edge>, w: bool| #[trigger] node_has(self.root, x, p, w)
            == (node_has(o.root, x, p, w) && !(removed && x == client@ && rule == Some((p, w)))) by {}
        let ghost ov = self.regs@;
        self.regs[i].topics.remove(j);
        proof {
            lemma_total_update(ov, i as int, self.regs@[i as int]);
            assert(self.regs@ == ov.update(i as int, self.regs@[i as int]));
        }
        self.subscription_count = self.subscription_count - 1;
        proof {
            let nv = self.regs@;
            assert(nv[i as int].topics@ == ot.remove(j as int));
            lemma_entry_update(ov, nv, i as int);
            lemma_total_update(ov, i as int, nv[i as int]);
            assert(nv == ov.update(i as int, nv[i as int]));
            assert forall|k: int| 0 <= k < nv.len() implies str_views(
                (#[trigger] nv[k]).topics@,
            ).no_duplicates() by {
                if k != i {
                    assert(nv[k] == ov[k]);
                }
            }
            assert forall|x: C::V| #[trigger] self.topics(x) == if x == client@ {
                o.topics(x).remove(topic@)
            } else {
                o.topics(x)
            } by {}
            assert(self.clients() == o.clients()) by {
                assert forall|k: int| 0 <= k < nv.len() implies nv[k].client@ == ov[k].client@ by {
                    if k != i {
                        assert(nv[k] == ov[k]);
                    }
                }
            }
            assert forall|x: C::V, p: Seq<Edge>, w: bool|
                #[trigger] node_has(self.root, x, p, w) == (self.registered(x) && exists|t: Seq<char>|
                    #[trigger] self.topics(x).contains(t) && self.cfg.rule_of_pattern(t) == Some((p, w))) by {
                assert(self.topics(x) == if x == client@ {
                    o.topics(x).remove(topic@)
                } else {
                    o.topics(x)
                });
                assert(self.registered(x) == o.registered(x));
                assert(self.cfg == o.cfg);
                assert(node_has(o.root, x, p, w) == (o.registered(x) && exists|t: Seq<char>|
                    #[trigger] o.topics(x).contains(t) && o.cfg.rule_of_pattern(t) == Some((p, w))));
                if exists|t: Seq<char>| #[trigger] self.topics(x).contains(t) && self.cfg.rule_of_pattern(t) == Some((p, w)) {
                    let t = choose|t: Seq<char>| #[trigger] self.topics(x).contains(t) && self.cfg.rule_of_pattern(t) == Some((p, w));
                    assert(o.topics(x).contains(t));
                    if removed && x == client@ && rule == Some((p, w)) {
                        // no other pattern of the client has the removed rule
                        assert(str_views(ot.remove(j as int)).contains(t));
                        let m = choose|m: int| 0 <= m < str_views(ot.remove(j as int)).len() && str_views(ot.remove(j as int))[m] == t;
                        let m2 = if m < j { m } else { m + 1 };
                        assert(ot[m2]@ == t);
                        assert(false);
                    }
                }
                if node_has(o.root, x, p, w) && !(removed && x == client@ && rule == Some((p, w))) {
                    if x == client@ && rule == Some((p, w)) {
                        // the rule stays: another pattern has it
                        let m = choose|m: int|
                            0 <= m < ot.len() && m != j && #[trigger] self.cfg.rule_of_pattern(ot[m]@)
                                == Some((p, w));
                        let m2 = if m < j { m } else { m - 1 };
                        assert(str_views(ot.remove(j as int))[m2] == ot[m]@);
                        assert(self.topics(x).contains(ot[m]@));
                    } else {
                        let t = choose|t: Seq<char>| #[trigger] o.topics(x).contains(t) && o.cfg.rule_of_pattern(t) == Some((p, w));
                        if x == client@ {
                            assert(t != topic@);
                        }
                        assert(self.topics(x).contains(t));
                    }
                }
            }
        }
        true
    }
}

impl<C: Client> SubMap<C> {
    /// Removes from the trie every rule of the patterns of the registration
    /// at `i`, which is of `client`.
    fn drop_rules(&mut self, i: usize, client: &C)
        requires
            old(self).inv(),
            i < old(self).regs@.len(),
            old(self).regs@[i as int].client@ == client@,
        ensures
            final(self).root.wf(),
            final(self).regs == old(self).regs,
            final(self).cfg == old(self).cfg,
            final(self).subscription_count == old(self).subscription_count,
            forall|x: C::V, p: Seq<Edge>, w: bool| #[trigger]
                node_has(final(self).root, x, p, w) == (node_has(old(self).root, x, p, w) && x
                    != client@),
    {
        let ghost o = *self;
        proof {
            lemma_entry_at(self.regs@, i as int);
        }
        let n = self.regs[i].topics.len();
        let mut k: usize = 0;
        while k < n
            invariant
                o.inv(),
                i < o.regs@.len(),
                o.regs@[i as int].client@ == client@,
                entry_at(o.regs@, client@) == Some(o.regs@[i as int]),
                n == o.regs@[i as int].topics@.len(),
                k <= n,
                self.root.wf(),
                self.regs == o.regs,
                self.cfg == o.cfg,
                self.subscription_count == o.subscription_count,
                forall|x: C::V, p: Seq<Edge>, w: bool| #[trigger]
                    node_has(self.root, x, p, w) == (node_has(o.root, x, p, w) && !(x == client@
                        && exists|m: int|
                        0 <= m < k && #[trigger] o.cfg.rule_of_pattern(o.regs@[i as int].topics@[m]@)
                            == Some((p, w)))),
            decreases n - k,
        {
            let ghost before = self.root;
            let ghost tk = o.regs@[i as int].topics@[k as int]@;
            match self.cfg.compile_pattern(self.regs[i].topics[k].as_str()) {
                Some((steps, w)) => {
                    self.root.remove(&steps, 0, w, client);
                    assert(edges(steps@).skip(0) == edges(steps@));
                },
                None => {},
            }
            proof {
                assert forall|x: C::V, p: Seq<Edge>, w: bool| #[trigger]
                    node_has(self.root, x, p, w) == (node_has(o.root, x, p, w) && !(x == client@
                        && exists|m: int|
                        0 <= m < k + 1 && #[trigger] o.cfg.rule_of_pattern(o.regs@[i as int].topics@[m]@)
                            == Some((p, w)))) by {
                    if x == client@ && o.cfg.rule_of_pattern(tk) == Some((p, w)) {
                        assert(!node_has(self.root, x, p, w));
                    }
                    if exists|m: int|
                        0 <= m < k + 1 && #[trigger] o.cfg.rule_of_pattern(o.regs@[i as int].topics@[m]@)
                            == Some((p, w)) {
                        let m = choose|m: int|
                        0 <= m < k + 1 && #[trigger] o.cfg.rule_of_pattern(o.regs@[i as int].topics@[m]@)
                            == Some((p, w));
                        if m < k {
                            assert(exists|m: int|
                        0 <= m < k && #[trigger] o.cfg.rule_of_pattern(o.regs@[i as int].topics@[m]@)
                            == Some((p, w)));
                        }
                    }
                }
            }
            k = k + 1;
        }
        proof {
            assert forall|x: C::V, p: Seq<Edge>, w: bool| #[trigger]
                node_has(self.root, x, p, w) == (node_has(o.root, x, p, w) && x != client@) by {
                if x == client@ && node_has(o.root, x, p, w) {
                    let t = choose|t: Seq<char>| #[trigger] o.topics(x).contains(t) && o.cfg.rule_of_pattern(t) == Some((p, w));
                    let m = choose|m: int| 0 <= m < str_views(o.regs@[i as int].topics@).len() && str_views(o.regs@[i as int].topics@)[m] == t;
                    assert(o.cfg.rule_of_pattern(o.regs@[i as int].topics@[m]@) == Some((p, w)));
                }
            }
        }
    }
}

impl<C: Client> SubMap<C> {
    /// Unsubscribes `client` from all its patterns; false when it is not
    /// registered.
    pub fn unsubscribe_all(&mut self, client: &C) -> (r: bool)
        requires
            old(self).inv(),
        ensures
            final(self).inv(),
            r == old(self).registered(client@),
            forall|x: C::V| #[trigger] final(self).registered(x) == old(self).registered(x),
            forall|x: C::V| #[trigger]
                final(self).topics(x) == if x == client@ {
                    Set::<Seq<char>>::empty()
                } else {
                    old(self).topics(x)
                },
            final(self).count() + old(self).topics(client@).len() == old(self).count(),
            final(self).config() == old(self).config(),
            final(self).clients() == old(self).clients(),
    {
        let i = match self.find_client(client) {
            Some(i) => i,
            None => {
                proof {
                    assert forall|x: C::V| #[trigger] self.topics(x) == if x == client@ {
                        Set::<Seq<char>>::empty()
                    } else {
                        self.topics(x)
                    } by {}
                }
                return false;
            },
        };
        let ghost o = *self;
        self.drop_rules(i, client);
        let ghost ov = self.regs@;
        let n = self.regs[i].topics.len();
        proof {
            str_views(ov[i as int].topics@).unique_seq_to_set();
        }
        self.regs[i].topics = Vec::new();
        proof {
            assert(self.regs@ == ov.update(i as int, self.regs@[i as int]));
            lemma_total_update(ov, i as int, self.regs@[i as int]);
        }
        self.subscription_count = self.subscription_count - n;
        proof {
            let nv = self.regs@;
            lemma_entry_update(ov, nv, i as int);
            lemma_total_update(ov, i as int, nv[i as int]);
            assert(str_views(nv[i as int].topics@).to_set() == Set::<Seq<char>>::empty());
            assert forall|k: int| 0 <= k < nv.len() implies str_views(
                (#[trigger] nv[k]).topics@,
            ).no_duplicates() by {
                if k != i {
                    assert(nv[k] == ov[k]);
                }
            }
            assert forall|x: C::V| #[trigger] self.topics(x) == if x == client@ {
                Set::<Seq<char>>::empty()
            } else {
                o.topics(x)
            } by {}
            assert(self.clients() == o.clients()) by {
                assert forall|k: int| 0 <= k < nv.len() implies nv[k].client@ == ov[k].client@ by {
                    if k != i {
                        assert(nv[k] == ov[k]);
                    }
                }
            }
            assert forall|x: C::V, p: Seq<Edge>, w: bool|
                #[trigger] node_has(self.root, x, p, w) == (self.registered(x) && exists|t: Seq<char>|
                    #[trigger] self.topics(x).contains(t) && self.cfg.rule_of_pattern(t) == Some((p, w))) by {
                assert(self.registered(x) == o.registered(x));
                assert(self.topics(x) == if x == client@ {
                    Set::<Seq<char>>::empty()
                } else {
                    o.topics(x)
                });
                assert(node_has(o.root, x, p, w) == (o.registered(x) && exists|t: Seq<char>|
                    #[trigger] o.topics(x).contains(t) && o.cfg.rule_of_pattern(t) == Some((p, w))));
            }
        }
        true
    }

    /// Unregisters `client` and drops all its subscriptions; false when it
    /// was not registered.
    pub fn unregister_client(&mut self, client: &C) -> (r: bool)
        requires
            old(self).inv(),
        ensures
            final(self).inv(),
            r == old(self).registered(client@),
            forall|x: C::V| #[trigger]
                final(self).registered(x) == (old(self).registered(x) && x != client@),
            forall|x: C::V| #[trigger]
                final(self).topics(x) == if x == client@ {
                    Set::<Seq<char>>::empty()
                } else {
                    old(self).topics(x)
                },
            final(self).count() + old(self).topics(client@).len() == old(self).count(),
            final(self).config() == old(self).config(),
            r ==> exists|i: int|
                0 <= i < old(self).clients().len() && old(self).clients()[i] == client@
                    && final(self).clients() == old(self).clients().remove(i),
            r ==> final(self).clients().len() + 1 == old(self).clients().len(),
            !r ==> final(self).clients() == old(self).clients(),
    {
        let i = match self.find_client(client) {
            Some(i) => i,
            None => {
                proof {
                    assert forall|x: C::V| #[trigger] self.topics(x) == if x == client@ {
                        Set::<Seq<char>>::empty()
                    } else {
                        self.topics(x)
                    } by {}
                }
                return false;
            },
        };
        let ghost o = *self;
        self.drop_rules(i, client);
        let ghost ov = self.regs@;
        let n = self.regs[i].topics.len();
        proof {
            str_views(ov[i as int].topics@).unique_seq_to_set();
            lemma_total_remove(ov, i as int);
        }
        self.regs.remove(i);
        self.subscription_count = self.subscription_count - n;
        proof {
            let nv = self.regs@;
            lemma_entry_remove(ov, i as int);
            assert(self.clients() == o.clients().remove(i as int));
            assert(o.clients()[i as int] == client@);
            assert forall|k: int| 0 <= k < nv.len() implies str_views(
                (#[trigger] nv[k]).topics@,
            ).no_duplicates() by {
                if k < i {
                    assert(nv[k] == ov[k]);
                } else {
                    assert(nv[k] == ov[k + 1]);
                }
            }
            assert forall|x: C::V| #[trigger] self.topics(x) == if x == client@ {
                Set::<Seq<char>>::empty()
            } else {
                o.topics(x)
            } by {}
            assert forall|x: C::V, p: Seq<Edge>, w: bool|
                #[trigger] node_has(self.root, x, p, w) == (self.registered(x) && exists|t: Seq<char>|
                    #[trigger] self.topics(x).contains(t) && self.cfg.rule_of_pattern(t) == Some((p, w))) by {
                assert(self.topics(x) == if x == client@ {
                    Set::<Seq<char>>::empty()
                } else {
                    o.topics(x)
                });
                assert(node_has(o.root, x, p, w) == (o.registered(x) && exists|t: Seq<char>|
                    #[trigger] o.topics(x).contains(t) && o.cfg.rule_of_pattern(t) == Some((p, w))));
            }
        }
        true
    }
}

impl<C: Client> SubMap<C> {
    /// Whether the client `x` is registered and subscribed to a pattern that
    /// matches `topic`.
    pub open spec fn reaches(&self, x: C::V, topic: Seq<char>) -> bool {
        self.registered(x) && exists|t: Seq<char>|
            #[trigger] self.topics(x).contains(t) && self.config().pattern_matches(t, topic)
    }

    /// The clients subscribed to a pattern that matches `topic`, each once.
    pub fn get_subscribers(&self, topic: &str) -> (r: Vec<C>)
        requires
            self.inv(),
        ensures
            no_dup(r@),
            forall|x: C::V| #[trigger] has_client(r@, x) == self.reaches(x, topic@),
    {
        let segs = split_str(topic, self.cfg.sep);
        let mut acc: Vec<C> = Vec::new();
        self.root.collect(&segs, 0, &self.cfg, &mut acc);
        proof {
            let t = views(segs@).skip(0);
            assert(t == crate::segments::split(topic@, self.cfg.sep));
            assert forall|x: C::V| #[trigger] has_client(acc@, x) == self.reaches(x, topic@) by {
                if matched(self.root, x, t, self.cfg) {
                    let (p, w) = choose|p: Seq<Edge>, w: bool|
                        #![trigger node_has(self.root, x, p, w), self.cfg.rule_matches(p, w, t)]
                        node_has(self.root, x, p, w) && self.cfg.rule_matches(p, w, t);
                    let tp = choose|tp: Seq<char>| #[trigger] self.topics(x).contains(tp) && self.cfg.rule_of_pattern(tp) == Some((p, w));
                    assert(self.config().pattern_matches(tp, topic@));
                }
                if self.reaches(x, topic@) {
                    let tp = choose|tp: Seq<char>| #[trigger] self.topics(x).contains(tp) && self.config().pattern_matches(tp, topic@);
                    let (p, w) = self.cfg.rule_of_pattern(tp)->0;
                    assert(node_has(self.root, x, p, w));
                    assert(node_has(self.root, x, p, w) && self.cfg.rule_matches(p, w, t));
                }
            }
        }
        acc
    }

    /// Whether some client is subscribed to a pattern that matches `topic`.
    pub fn is_subscribed(&self, topic: &str) -> (r: bool)
        requires
            self.inv(),
        ensures
            r == exists|x: C::V| #[trigger] self.reaches(x, topic@),
    {
        let segs = split_str(topic, self.cfg.sep);
        let r = self.root.contains_any(&segs, 0, &self.cfg);
        proof {
            let t = views(segs@).skip(0);
            assert(t == crate::segments::split(topic@, self.cfg.sep));
            assert forall|x: C::V| #[trigger] matched(self.root, x, t, self.cfg) == self.reaches(x, topic@) by {
                if matched(self.root, x, t, self.cfg) {
                    let (p, w) = choose|p: Seq<Edge>, w: bool|
                        #![trigger node_has(self.root, x, p, w), self.cfg.rule_matches(p, w, t)]
                        node_has(self.root, x, p, w) && self.cfg.rule_matches(p, w, t);
                    let tp = choose|tp: Seq<char>| #[trigger] self.topics(x).contains(tp) && self.cfg.rule_of_pattern(tp) == Some((p, w));
                    assert(self.config().pattern_matches(tp, topic@));
                }
                if self.reaches(x, topic@) {
                    let tp = choose|tp: Seq<char>| #[trigger] self.topics(x).contains(tp) && self.config().pattern_matches(tp, topic@);
                    let (p, w) = self.cfg.rule_of_pattern(tp)->0;
                    assert(node_has(self.root, x, p, w));
                    assert(node_has(self.root, x, p, w) && self.cfg.rule_matches(p, w, t));
                }
            }
            if r {
                let x = choose|x: C::V| #[trigger] matched(self.root, x, t, self.cfg);
                assert(self.reaches(x, topic@));
            } else {
                assert forall|x: C::V| !#[trigger] self.reaches(x, topic@) by {
                    assert(!matched(self.root, x, t, self.cfg));
                }
            }
        }
        r
    }
}

impl<C: Client> SubMap<C> {
    /// Whether the trie holds nothing at all.
    pub fn trie_is_empty(&self) -> (r: bool)
        ensures
            r == self.trie_empty(),
    {
        self.root.is_empty()
    }
}

impl<C: Client> SubMap<C> {
    /// What `subscribe(topic, c)` returning `r` makes of `old`: `new`.
    pub open spec fn subscribed(old: Self, new: Self, topic: Seq<char>, c: C::V, r: bool) -> bool {
        &&& new.inv()
        &&& r == old.registered(c)
        &&& forall|x: C::V| #[trigger] new.registered(x) == old.registered(x)
        &&& forall|x: C::V| #[trigger]
            new.topics(x) == if r && x == c {
                old.topics(x).insert(topic)
            } else {
                old.topics(x)
            }
        &&& new.count() == old.count() + if r && !old.topics(c).contains(topic) {
            1int
        } else {
            0int
        }
        &&& new.config() == old.config()
        &&& new.clients() == old.clients()
    }

    /// What `unsubscribe(topic, c)` returning `r` makes of `old`: `new`.
    pub open spec fn unsubscribed(old: Self, new: Self, topic: Seq<char>, c: C::V, r: bool) -> bool {
        &&& new.inv()
        &&& r == old.registered(c)
        &&& forall|x: C::V| #[trigger] new.registered(x) == old.registered(x)
        &&& forall|x: C::V| #[trigger]
            new.topics(x) == if r && x == c {
                old.topics(x).remove(topic)
            } else {
                old.topics(x)
            }
        &&& new.count() + (if r && old.topics(c).contains(topic) {
            1int
        } else {
            0int
        }) == old.count()
        &&& new.config() == old.config()
        &&& new.clients() == old.clients()
    }

    /// `a` and `b` agree on everything a caller can observe: clients,
    /// patterns, count and configuration.
    pub open spec fn same_view(a: Self, b: Self) -> bool {
        &&& forall|x: C::V| #[trigger] a.registered(x) == b.registered(x)
        &&& forall|x: C::V| #[trigger] a.topics(x) == b.topics(x)
        &&& a.count() == b.count()
        &&& a.config() == b.config()
    }

    /// The trie holds a client under a rule exactly when the client is
    /// registered and one of its patterns compiles to that rule.
    pub proof fn lemma_reverse_index(m: Self, x: C::V, p: Seq<Edge>, w: bool)
        requires
            m.inv(),
        ensures
            m.holds(x, p, w) == (m.registered(x) && exists|t: Seq<char>|
                #[trigger] m.topics(x).contains(t) && m.config().rule_of_pattern(t) == Some((p, w))),
    {
    }

    /// Maps that agree on what a caller can observe hold the same rules and
    /// reach the same clients.
    pub proof fn lemma_same_view(a: Self, b: Self)
        requires
            a.inv(),
            b.inv(),
            Self::same_view(a, b),
        ensures
            forall|x: C::V, p: Seq<Edge>, w: bool| #[trigger] a.holds(x, p, w) == b.holds(x, p, w),
            forall|x: C::V, t: Seq<char>| #[trigger] a.reaches(x, t) == b.reaches(x, t),
    {
        assert forall|x: C::V, p: Seq<Edge>, w: bool| #[trigger] a.holds(x, p, w) == b.holds(x, p, w) by {
            assert(a.topics(x) == b.topics(x));
            assert(a.registered(x) == b.registered(x));
        }
        assert forall|x: C::V, t: Seq<char>| #[trigger] a.reaches(x, t) == b.reaches(x, t) by {
            assert(a.topics(x) == b.topics(x));
            assert(a.registered(x) == b.registered(x));
        }
    }

    /// Once every client is gone, the trie is empty: unsubscribing prunes
    /// every node it empties.
    pub proof fn lemma_prune(m: Self)
        requires
            m.inv(),
            forall|x: C::V| !#[trigger] m.registered(x),
        ensures
            m.trie_empty(),
    {
        if !m.root.is_empty_spec() {
            crate::trie::lemma_nonempty_holds(m.root);
            let (c, p, w) = choose|c: C::V, p: Seq<Edge>, w: bool| #[trigger] node_has(m.root, c, p, w);
            assert(m.registered(c));
        }
    }

    /// The sum of the numbers of patterns of the clients `cs`.
    pub open spec fn sum_topics(&self, cs: Seq<C::V>) -> nat
        decreases cs.len(),
    {
        if cs.len() == 0 {
            0
        } else {
            self.sum_topics(cs.drop_last()) + self.topics(cs.last()).len()
        }
    }

    /// The count of subscriptions is the sum over the clients of their
    /// numbers of patterns.
    pub proof fn lemma_count(m: Self)
        requires
            m.inv(),
        ensures
            m.count() == m.sum_topics(m.clients()),
    {
        let v = m.regs@;
        assert forall|k: int| 0 <= k <= v.len() implies total(#[trigger] v.take(k)) == m.sum_topics(
            m.clients().take(k),
        ) by {
            m.lemma_count_prefix(k);
        }
        assert(v.take(v.len() as int) == v);
        assert(m.clients().take(v.len() as int) == m.clients());
    }

    proof fn lemma_count_prefix(&self, k: int)
        requires
            self.inv(),
            0 <= k <= self.regs@.len(),
        ensures
            total(self.regs@.take(k)) == self.sum_topics(self.clients().take(k)),
        decreases k,
    {
        let v = self.regs@;
        if k > 0 {
            self.lemma_count_prefix(k - 1);
            assert(v.take(k).drop_last() == v.take(k - 1));
            assert(self.clients().take(k).drop_last() == self.clients().take(k - 1));
            lemma_entry_at(v, k - 1);
            str_views(v[k - 1].topics@).unique_seq_to_set();
            assert(self.topics(v[k - 1].client@).len() == v[k - 1].topics@.len());
        } else {
            assert(v.take(0).len() == 0);
        }
    }

    /// Subscribing twice to a pattern changes nothing the second time.
    pub proof fn lemma_subscribe_idempotent(
        m0: Self,
        m1: Self,
        m2: Self,
        topic: Seq<char>,
        c: C::V,
        r1: bool,
        r2: bool,
    )
        requires
            Self::subscribed(m0, m1, topic, c, r1),
            Self::subscribed(m1, m2, topic, c, r2),
        ensures
            Self::same_view(m1, m2),
            r1 == r2,
    {
        if r1 {
            assert(m1.topics(c).contains(topic));
            assert(m1.topics(c).insert(topic) == m1.topics(c));
        }
        assert forall|x: C::V| #[trigger] m1.topics(x) == m2.topics(x) by {}
    }

    /// Subscribing to a pattern the client does not hold and unsubscribing
    /// from it again leaves the map as it was.
    pub proof fn lemma_subscribe_round_trip(
        m0: Self,
        m1: Self,
        m2: Self,
        topic: Seq<char>,
        c: C::V,
        r1: bool,
        r2: bool,
    )
        requires
            m0.inv(),
            !m0.topics(c).contains(topic),
            Self::subscribed(m0, m1, topic, c, r1),
            Self::unsubscribed(m1, m2, topic, c, r2),
        ensures
            Self::same_view(m0, m2),
            forall|x: C::V, p: Seq<Edge>, w: bool| #[trigger] m0.holds(x, p, w) == m2.holds(x, p, w),
    {
        if r1 {
            assert(m0.topics(c).insert(topic).remove(topic) == m0.topics(c));
            assert(m1.topics(c).contains(topic));
        }
        assert forall|x: C::V| #[trigger] m0.topics(x) == m2.topics(x) by {}
        Self::lemma_same_view(m0, m2);
    }

    /// Subscriptions of two different (client, pattern) pairs give the same
    /// map in either order.
    pub proof fn lemma_subscribe_commute(
        m0: Self,
        a1: Self,
        a2: Self,
        b1: Self,
        b2: Self,
        t1: Seq<char>,
        c1: C::V,
        t2: Seq<char>,
        c2: C::V,
        ra1: bool,
        ra2: bool,
        rb1: bool,
        rb2: bool,
    )
        requires
            (c1, t1) != (c2, t2),
            Self::subscribed(m0, a1, t1, c1, ra1),
            Self::subscribed(a1, a2, t2, c2, ra2),
            Self::subscribed(m0, b1, t2, c2, rb1),
            Self::subscribed(b1, b2, t1, c1, rb2),
        ensures
            Self::same_view(a2, b2),
    {
        assert forall|x: C::V| #[trigger] a2.topics(x) == b2.topics(x) by {
            if x == c1 && x == c2 && ra1 {
                assert(m0.topics(x).insert(t1).insert(t2) == m0.topics(x).insert(t2).insert(t1));
            }
        }
        if c1 == c2 {
            assert(m0.topics(c1).insert(t1).contains(t2) == m0.topics(c1).contains(t2));
            assert(m0.topics(c1).insert(t2).contains(t1) == m0.topics(c1).contains(t1));
        }
    }

    /// Unsubscriptions of two different (client, pattern) pairs give the
    /// same map in either order.
    pub proof fn lemma_unsubscribe_commute(
        m0: Self,
        a1: Self,
        a2: Self,
        b1: Self,
        b2: Self,
        t1: Seq<char>,
        c1: C::V,
        t2: Seq<char>,
        c2: C::V,
        ra1: bool,
        ra2: bool,
        rb1: bool,
        rb2: bool,
    )
        requires
            (c1, t1) != (c2, t2),
            Self::unsubscribed(m0, a1, t1, c1, ra1),
            Self::unsubscribed(a1, a2, t2, c2, ra2),
            Self::unsubscribed(m0, b1, t2, c2, rb1),
            Self::unsubscribed(b1, b2, t1, c1, rb2),
        ensures
            Self::same_view(a2, b2),
    {
        assert forall|x: C::V| #[trigger] a2.topics(x) == b2.topics(x) by {
            if x == c1 && x == c2 && ra1 {
                assert(m0.topics(x).remove(t1).remove(t2) == m0.topics(x).remove(t2).remove(t1));
            }
        }
        if c1 == c2 {
            assert(m0.topics(c1).remove(t1).contains(t2) == m0.topics(c1).contains(t2));
            assert(m0.topics(c1).remove(t2).contains(t1) == m0.topics(c1).contains(t1));
        }
    }

    /// A subscription and an unsubscription of two different (client,
    /// pattern) pairs give the same map in either order.
    pub proof fn lemma_subscribe_unsubscribe_commute(
        m0: Self,
        a1: Self,
        a2: Self,
        b1: Self,
        b2: Self,
        t1: Seq<char>,
        c1: C::V,
        t2: Seq<char>,
        c2: C::V,
        ra1: bool,
        ra2: bool,
        rb1: bool,
        rb2: bool,
    )
        requires
            (c1, t1) != (c2, t2),
            Self::subscribed(m0, a1, t1, c1, ra1),
            Self::unsubscribed(a1, a2, t2, c2, ra2),
            Self::unsubscribed(m0, b1, t2, c2, rb1),
            Self::subscribed(b1, b2, t1, c1, rb2),
        ensures
            Self::same_view(a2, b2),
    {
        assert forall|x: C::V| #[trigger] a2.topics(x) == b2.topics(x) by {
            if x == c1 && x == c2 && ra1 {
                assert(m0.topics(x).insert(t1).remove(t2) == m0.topics(x).remove(t2).insert(t1));
            }
        }
        if c1 == c2 {
            assert(m0.topics(c1).insert(t1).contains(t2) == m0.topics(c1).contains(t2));
            assert(m0.topics(c1).remove(t2).contains(t1) == m0.topics(c1).contains(t1));
        }
    }
}

impl<C: Client> Default for SubMap<C> {
    fn default() -> (r: Self)
        ensures
            r.inv(),
            r.count() == 0,
            forall|x: C::V| !#[trigger] r.registered(x),
            r.trie_empty(),
    {
        SubMap::new()
    }
}

proof fn lemma_total_ge<C>(v: Seq<Registration<C>>, i: int)
    requires
        0 <= i < v.len(),
    ensures
        v[i].topics@.len() <= total(v),
    decreases v.len(),
{
    if i < v.len() - 1 {
        lemma_total_ge(v.drop_last(), i);
    }
}

impl<C: Client> SubMap<C> {
    /// The listed clients are exactly the registered ones, each once, and a
    /// client that is not registered holds no pattern.
    pub proof fn lemma_clients(m: Self)
        requires
            m.inv(),
        ensures
            m.clients().no_duplicates(),
            forall|x: C::V| #[trigger] m.registered(x) == m.clients().contains(x),
            forall|x: C::V| !m.registered(x) ==> #[trigger] m.topics(x) == Set::<Seq<char>>::empty(),
    {
        let cs = m.clients();
        assert forall|a: int, b: int| 0 <= a < cs.len() && 0 <= b < cs.len() && a != b implies cs[a] != cs[b] by {
            assert(cs[a] == m.regs@[a].client@);
            assert(cs[b] == m.regs@[b].client@);
        }
        assert forall|x: C::V| #[trigger] m.registered(x) == m.clients().contains(x) by {
            if m.registered(x) {
                let i = choose|i: int| 0 <= i < m.regs@.len() && #[trigger] m.regs@[i].client@ == x;
                assert(cs[i] == x);
            }
            if cs.contains(x) {
                let i = choose|i: int| 0 <= i < cs.len() && cs[i] == x;
                assert(m.regs@[i].client@ == x);
            }
        }
    }
}

} // verus!
