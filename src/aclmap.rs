//! An access-control list: one implicit client and the patterns it is
//! allowed.
use vstd::prelude::*;
use crate::submap::SubMap;

verus! {

/// A set of allowed topic patterns.
pub struct AclMap {
    smap: SubMap<()>,
}

impl AclMap {
    /// The allowed patterns.
    pub closed spec fn patterns(&self) -> Set<Seq<char>> {
        self.smap.topics(())
    }

    /// The underlying map.
    pub closed spec fn map(&self) -> SubMap<()> {
        self.smap
    }

    /// The invariant of the list.
    pub closed spec fn inv(&self) -> bool {
        self.smap.inv() && self.smap.registered(()) && self.smap.clients() == seq![()]
    }

    /// The number of allowed patterns.
    pub closed spec fn count(&self) -> nat {
        self.smap.count()
    }

    /// Whether some allowed pattern matches `topic`.
    pub open spec fn allows(&self, topic: Seq<char>) -> bool {
        exists|t: Seq<char>| #[trigger] self.patterns().contains(t) && self.map().config().pattern_matches(t, topic)
    }

    /// An empty list: separator `/`, wildcard `*`, placeholder `?`.
    pub fn new() -> (r: Self)
        ensures
            r.inv(),
            r.patterns() == Set::<Seq<char>>::empty(),
            r.count() == 0,
            r.map().config().sep == '/',
            crate::segments::views(r.map().config().wildcards@) == seq![seq!['*']],
            crate::segments::views(r.map().config().match_any@) == seq![seq!['?']],
            r.map().config().formula_prefix is None,
            r.map().config().regex_prefix is None,
    {
        let mut smap: SubMap<()> = SubMap::new();
        smap.register_client(&());
        AclMap { smap }
    }

    /// Sets the separator of segments; only an empty list can be configured.
    pub fn separator(self, separator: char) -> (r: Self)
        requires
            self.inv(),
            self.count() == 0,
        ensures
            r.inv(),
            r.count() == 0,
            r.patterns() == Set::<Seq<char>>::empty(),
            r.map().config().sep == separator,
    {
        AclMap { smap: self.smap.separator(separator) }
    }

    /// Makes `wildcard` the one wildcard token; only an empty list can be
    /// configured.
    pub fn wildcard(self, wildcard: &str) -> (r: Self)
        requires
            self.inv(),
            self.count() == 0,
        ensures
            r.inv(),
            r.count() == 0,
            r.patterns() == Set::<Seq<char>>::empty(),
            crate::segments::views(r.map().config().wildcards@) == seq![wildcard@],
    {
        AclMap { smap: self.smap.wildcard(wildcard) }
    }

    /// Makes `match_any` the one placeholder token; only an empty list can
    /// be configured.
    pub fn match_any(self, match_any: &str) -> (r: Self)
        requires
            self.inv(),
            self.count() == 0,
        ensures
            r.inv(),
            r.count() == 0,
            r.patterns() == Set::<Seq<char>>::empty(),
            crate::segments::views(r.map().config().match_any@) == seq![match_any@],
    {
        AclMap { smap: self.smap.match_any(match_any) }
    }

    /// Makes `wildcard_multiple` the wildcard tokens; only an empty list can
    /// be configured.
    pub fn wildcard_multiple(self, wildcard_multiple: &[&str]) -> (r: Self)
        requires
            self.inv(),
            self.count() == 0,
        ensures
            r.inv(),
            r.count() == 0,
            r.patterns() == Set::<Seq<char>>::empty(),
            r.map().config().wildcards@.len() == wildcard_multiple@.len(),
            forall|i: int| 0 <= i < wildcard_multiple@.len() ==> #[trigger] r.map().config().wildcards@[i]@ == wildcard_multiple@[i]@,
    {
        AclMap { smap: self.smap.wildcard_multiple(wildcard_multiple) }
    }

    /// Makes `match_any_multiple` the placeholder tokens; only an empty list
    /// can be configured.
    pub fn match_any_multiple(self, match_any_multiple: &[&str]) -> (r: Self)
        requires
            self.inv(),
            self.count() == 0,
        ensures
            r.inv(),
            r.count() == 0,
            r.patterns() == Set::<Seq<char>>::empty(),
            r.map().config().match_any@.len() == match_any_multiple@.len(),
            forall|i: int| 0 <= i < match_any_multiple@.len() ==> #[trigger] r.map().config().match_any@[i]@ == match_any_multiple@[i]@,
    {
        AclMap { smap: self.smap.match_any_multiple(match_any_multiple) }
    }

    /// Allows the pattern `topic`.
    pub fn insert(&mut self, topic: &str)
        requires
            old(self).inv(),
            old(self).count() < usize::MAX,
        ensures
            final(self).inv(),
            final(self).patterns() == old(self).patterns().insert(topic@),
            final(self).map().config() == old(self).map().config(),
    {
        self.smap.subscribe(topic, &());
    }

    /// Whether some allowed pattern matches `topic`.
    pub fn matches(&self, topic: &str) -> (r: bool)
        requires
            self.inv(),
        ensures
            r == self.allows(topic@),
    {
        let r = self.smap.is_subscribed(topic);
        proof {
            assert(self.patterns() == self.smap.topics(()));
            if r {
                let x = choose|x: ()| #[trigger] self.smap.reaches(x, topic@);
                assert(x == ());
                let t = choose|t: Seq<char>| #[trigger] self.smap.topics(x).contains(t) && self.smap.config().pattern_matches(t, topic@);
                assert(self.patterns().contains(t));
            } else {
                assert(!self.smap.reaches((), topic@));
                if self.allows(topic@) {
                    let t = choose|t: Seq<char>| #[trigger] self.patterns().contains(t) && self.map().config().pattern_matches(t, topic@);
                    assert(self.smap.topics(()).contains(t));
                }
            }
        }
        r
    }

    /// The allowed patterns.
    pub fn list(&self) -> (r: Vec<&str>)
        requires
            self.inv(),
        ensures
            r@.map_values(|s: &str| s@).no_duplicates(),
            r@.map_values(|s: &str| s@).to_set() == self.patterns(),
    {
        self.smap.list_topics(&())
    }

    /// Whether the list has no registered holder; a list made by `new` always
    /// has one.
    pub fn is_empty(&self) -> (r: bool)
        requires
            self.inv(),
        ensures
            !r,
    {
        self.smap.is_empty()
    }
}

impl Default for AclMap {
    fn default() -> (r: Self)
        ensures
            r.inv(),
            r.patterns() == Set::<Seq<char>>::empty(),
    {
        AclMap::new()
    }
}

} // verus!
