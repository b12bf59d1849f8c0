//! A fan-out resolver: clients are registered at concrete names, and a
//! query by mask, which may hold wildcard and placeholder segments, returns
//! the clients registered at the names it covers.
use vstd::prelude::*;
use crate::client::{Client, has_client, no_dup};
use crate::bcast::{Broadcast, bholds, bcovered, lemma_bempty, lemma_bnonempty_holds};
use crate::rule::tokens_of;
use crate::segments::{views, split, split_str, chars_of};

verus! {

/// Whether the mask `mask` covers the name `name`: a wildcard segment
/// covers one or more further segments, a placeholder exactly one, any
/// other segment one equal segment.
pub open spec fn mask_matches(
    mask: Seq<Seq<char>>,
    name: Seq<Seq<char>>,
    wild: Seq<Seq<char>>,
    any: Seq<Seq<char>>,
) -> bool
    decreases mask.len(),
{
    if mask.len() == 0 {
        name.len() == 0
    } else if wild.contains(mask[0]) {
        name.len() > 0
    } else {
        name.len() > 0 && (any.contains(mask[0]) || mask[0] == name[0]) && mask_matches(
            mask.drop_first(),
            name.drop_first(),
            wild,
            any,
        )
    }
}

/// A map from names to the clients registered at them.
pub struct BroadcastMap<C> {
    broadcasts: Broadcast<C>,
    separator: char,
    wildcards: Vec<Vec<char>>,
    match_any: Vec<Vec<char>>,
}

impl<C: Client> BroadcastMap<C> {
    /// Whether `c` is registered at the name `name`.
    pub closed spec fn registered_at(&self, c: C::V, name: Seq<Seq<char>>) -> bool {
        bholds(self.broadcasts, c, name)
    }

    /// The separator of segments.
    pub closed spec fn sep(&self) -> char {
        self.separator
    }

    /// The wildcard tokens.
    pub closed spec fn wild(&self) -> Seq<Seq<char>> {
        views(self.wildcards@)
    }

    /// The placeholder tokens.
    pub closed spec fn any(&self) -> Seq<Seq<char>> {
        views(self.match_any@)
    }

    /// The invariant of the map.
    pub closed spec fn inv(&self) -> bool {
        self.broadcasts.wf()
    }

    /// Whether `c` is registered at a name that `mask` covers.
    pub open spec fn covered(&self, c: C::V, mask: Seq<char>) -> bool {
        exists|name: Seq<Seq<char>>|
            #[trigger] self.registered_at(c, name) && mask_matches(
                split(mask, self.sep()),
                name,
                self.wild(),
                self.any(),
            )
    }

    /// An empty map: separator `.`, wildcard `*`, placeholder `?`.
    pub fn new() -> (r: Self)
        ensures
            r.inv(),
            forall|c: C::V, name: Seq<Seq<char>>| !#[trigger] r.registered_at(c, name),
            r.sep() == '.',
            r.wild() == seq![seq!['*']],
            r.any() == seq![seq!['?']],
    {
        let mut w: Vec<char> = Vec::new();
        w.push('*');
        let mut a: Vec<char> = Vec::new();
        a.push('?');
        let mut wildcards: Vec<Vec<char>> = Vec::new();
        wildcards.push(w);
        let mut match_any: Vec<Vec<char>> = Vec::new();
        match_any.push(a);
        let r = BroadcastMap { broadcasts: Broadcast::new(), separator: '.', wildcards, match_any };
        assert(r.wild() == seq![seq!['*']]);
        assert(r.any() == seq![seq!['?']]);
        r
    }

    /// Sets the separator of segments.
    pub fn separator(self, separator: char) -> (r: Self)
        requires
            self.inv(),
        ensures
            r.inv(),
            r.sep() == separator,
            r.wild() == self.wild(),
            r.any() == self.any(),
            forall|c: C::V, name: Seq<Seq<char>>| #[trigger] r.registered_at(c, name) == self.registered_at(c, name),
    {
        BroadcastMap {
            broadcasts: self.broadcasts,
            separator,
            wildcards: self.wildcards,
            match_any: self.match_any,
        }
    }

    /// Makes `wildcard` the one wildcard token.
    pub fn wildcard(self, wildcard: &str) -> (r: Self)
        requires
            self.inv(),
        ensures
            r.inv(),
            r.sep() == self.sep(),
            r.wild() == seq![wildcard@],
            r.any() == self.any(),
            forall|c: C::V, name: Seq<Seq<char>>| #[trigger] r.registered_at(c, name) == self.registered_at(c, name),
    {
        let mut v: Vec<Vec<char>> = Vec::new();
        v.push(chars_of(wildcard));
        let r = BroadcastMap { broadcasts: self.broadcasts, separator: self.separator, wildcards: v, match_any: self.match_any };
        assert(r.wild() == seq![wildcard@]);
        r
    }

    /// Makes `match_any` the one placeholder token.
    pub fn match_any(self, match_any: &str) -> (r: Self)
        requires
            self.inv(),
        ensures
            r.inv(),
            r.sep() == self.sep(),
            r.wild() == self.wild(),
            r.any() == seq![match_any@],
            forall|c: C::V, name: Seq<Seq<char>>| #[trigger] r.registered_at(c, name) == self.registered_at(c, name),
    {
        let mut v: Vec<Vec<char>> = Vec::new();
        v.push(chars_of(match_any));
        let r = BroadcastMap { broadcasts: self.broadcasts, separator: self.separator, wildcards: self.wildcards, match_any: v };
        assert(r.any() == seq![match_any@]);
        r
    }

    /// Makes `wildcard_multiple` the wildcard tokens.
    pub fn wildcard_multiple(self, wildcard_multiple: &[&str]) -> (r: Self)
        requires
            self.inv(),
        ensures
            r.inv(),
            r.sep() == self.sep(),
            r.wild().len() == wildcard_multiple@.len(),
            forall|i: int| 0 <= i < wildcard_multiple@.len() ==> #[trigger] r.wild()[i] == wildcard_multiple@[i]@,
            r.any() == self.any(),
            forall|c: C::V, name: Seq<Seq<char>>| #[trigger] r.registered_at(c, name) == self.registered_at(c, name),
    {
        let v = tokens_of(wildcard_multiple);
        BroadcastMap { broadcasts: self.broadcasts, separator: self.separator, wildcards: v, match_any: self.match_any }
    }

    /// Makes `match_any_multiple` the placeholder tokens.
    pub fn match_any_multiple(self, match_any_multiple: &[&str]) -> (r: Self)
        requires
            self.inv(),
        ensures
            r.inv(),
            r.sep() == self.sep(),
            r.wild() == self.wild(),
            r.any().len() == match_any_multiple@.len(),
            forall|i: int| 0 <= i < match_any_multiple@.len() ==> #[trigger] r.any()[i] == match_any_multiple@[i]@,
            forall|c: C::V, name: Seq<Seq<char>>| #[trigger] r.registered_at(c, name) == self.registered_at(c, name),
    {
        let v = tokens_of(match_any_multiple);
        BroadcastMap { broadcasts: self.broadcasts, separator: self.separator, wildcards: self.wildcards, match_any: v }
    }

    /// Whether no client is registered anywhere.
    pub fn is_empty(&self) -> (r: bool)
        requires
            self.inv(),
        ensures
            r == forall|c: C::V, name: Seq<Seq<char>>| !#[trigger] self.registered_at(c, name),
    {
        let r = self.broadcasts.is_empty();
        proof {
            if r {
                lemma_bempty(self.broadcasts);
            } else {
                lemma_bnonempty_holds(self.broadcasts);
                let (c, q) = choose|c: C::V, q: Seq<Seq<char>>| #[trigger] bholds(self.broadcasts, c, q);
                assert(self.registered_at(c, q));
            }
        }
        r
    }

    /// Registers `client` at the name `name`.
    pub fn register_client(&mut self, name: &str, client: &C)
        requires
            old(self).inv(),
        ensures
            final(self).inv(),
            final(self).sep() == old(self).sep(),
            final(self).wild() == old(self).wild(),
            final(self).any() == old(self).any(),
            forall|c: C::V, n: Seq<Seq<char>>| #[trigger] final(self).registered_at(c, n) == (
            old(self).registered_at(c, n) || (c == client@ && n == split(name@, old(self).sep()))),
    {
        let segs = split_str(name, self.separator);
        self.broadcasts.register(&segs, 0, client);
        assert(views(segs@).skip(0) == views(segs@));
    }

    /// Unregisters `client` from the name `name`.
    pub fn unregister_client(&mut self, name: &str, client: &C)
        requires
            old(self).inv(),
        ensures
            final(self).inv(),
            final(self).sep() == old(self).sep(),
            final(self).wild() == old(self).wild(),
            final(self).any() == old(self).any(),
            forall|c: C::V, n: Seq<Seq<char>>| #[trigger] final(self).registered_at(c, n) == (
            old(self).registered_at(c, n) && !(c == client@ && n == split(name@, old(self).sep()))),
    {
        let segs = split_str(name, self.separator);
        self.broadcasts.unregister(&segs, 0, client);
        assert(views(segs@).skip(0) == views(segs@));
    }

    /// The clients registered at a name that `mask` covers, each once.
    pub fn get_clients_by_mask(&self, mask: &str) -> (r: Vec<C>)
        requires
            self.inv(),
        ensures
            no_dup(r@),
            forall|x: C::V| #[trigger] has_client(r@, x) == self.covered(x, mask@),
    {
        let ms = split_str(mask, self.separator);
        let mut acc: Vec<C> = Vec::new();
        self.broadcasts.collect_mask(&ms, 0, &self.wildcards, &self.match_any, &mut acc);
        proof {
            assert(views(ms@).skip(0) == views(ms@));
            assert forall|x: C::V| #[trigger] has_client(acc@, x) == self.covered(x, mask@) by {
                if bcovered(self.broadcasts, x, views(ms@), self.wild(), self.any()) {
                    let name = choose|name: Seq<Seq<char>>| #[trigger] bholds(self.broadcasts, x, name) && mask_matches(views(ms@), name, self.wild(), self.any());
                    assert(self.registered_at(x, name));
                }
                if self.covered(x, mask@) {
                    let name = choose|name: Seq<Seq<char>>| #[trigger] self.registered_at(x, name) && mask_matches(split(mask@, self.sep()), name, self.wild(), self.any());
                    assert(bholds(self.broadcasts, x, name));
                }
            }
        }
        acc
    }
}

impl<C: Client> Default for BroadcastMap<C> {
    fn default() -> (r: Self)
        ensures
            r.inv(),
            forall|c: C::V, name: Seq<Seq<char>>| !#[trigger] r.registered_at(c, name),
    {
        BroadcastMap::new()
    }
}

} // verus!
