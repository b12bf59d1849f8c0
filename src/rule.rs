//! Configuration of a map, and the rules that patterns compile to.
//!
//! A pattern is split into segments. Each segment names one step of a path
//! through the trie: a literal, the single-segment placeholder, a formula or
//! a regular expression. A wildcard segment ends the pattern there.
use vstd::prelude::*;
use crate::mkmf::{formula_of, formula_holds, FormulaView, Formula};
use crate::rx::{regex_valid, regex_matches, CompiledRegex};
use crate::segments::{views, chars_eq, starts_with, skip_chars, split, split_str, chars_of, lemma_split_nonempty};

verus! {

/// One step of a rule, as a value.
pub enum Edge {
    /// A segment equal to the text.
    Lit(Seq<char>),
    /// Any one segment.
    Any,
    /// A segment that the formula holds of.
    Form(FormulaView),
    /// A segment that the expression with this source matches.
    Re(Seq<char>),
}

/// The tokens and prefixes that give segments their meaning.
pub struct Config {
    pub sep: char,
    pub wildcards: Vec<Vec<char>>,
    pub match_any: Vec<Vec<char>>,
    pub formula_prefix: Option<Vec<char>>,
    pub regex_prefix: Option<Vec<char>>,
}

/// The prefix as a value.
pub open spec fn prefix_view(p: Option<Vec<char>>) -> Option<Seq<char>> {
    match p {
        Some(v) => Some(v@),
        None => None,
    }
}

/// Whether the prefix `p` is set and `s` begins with it.
pub open spec fn prefix_applies(p: Option<Seq<char>>, s: Seq<char>) -> bool {
    match p {
        Some(q) => q.len() <= s.len() && s.take(q.len() as int) == q,
        None => false,
    }
}

/// `s` without the prefix `p`.
pub open spec fn after_prefix(p: Option<Seq<char>>, s: Seq<char>) -> Seq<char> {
    match p {
        Some(q) => s.skip(q.len() as int),
        None => s,
    }
}

impl Config {
    pub open spec fn is_wild(&self, s: Seq<char>) -> bool {
        views(self.wildcards@).contains(s)
    }

    pub open spec fn is_any(&self, s: Seq<char>) -> bool {
        views(self.match_any@).contains(s)
    }

    pub open spec fn fp(&self) -> Option<Seq<char>> {
        prefix_view(self.formula_prefix)
    }

    pub open spec fn rp(&self) -> Option<Seq<char>> {
        prefix_view(self.regex_prefix)
    }

    /// The step that the pattern segment `s`, not a wildcard, stands for;
    /// `None` when it holds a formula or an expression that does not parse.
    pub open spec fn edge_of(&self, s: Seq<char>) -> Option<Edge> {
        if self.is_any(s) {
            Some(Edge::Any)
        } else if prefix_applies(self.fp(), s) {
            match formula_of(after_prefix(self.fp(), s)) {
                Some(f) => Some(Edge::Form(f)),
                None => None,
            }
        } else if prefix_applies(self.rp(), s) {
            if regex_valid(after_prefix(self.rp(), s)) {
                Some(Edge::Re(after_prefix(self.rp(), s)))
            } else {
                None
            }
        } else {
            Some(Edge::Lit(s))
        }
    }

    /// The rule of the pattern segments `segs`: its steps, and whether it
    /// ends in a wildcard. Segments after a wildcard are ignored. `None` when
    /// a step does not parse.
    pub open spec fn rule_of(&self, segs: Seq<Seq<char>>) -> Option<(Seq<Edge>, bool)>
        decreases segs.len(),
    {
        if segs.len() == 0 {
            Some((Seq::<Edge>::empty(), false))
        } else if self.is_wild(segs[0]) {
            Some((Seq::<Edge>::empty(), true))
        } else {
            match (self.edge_of(segs[0]), self.rule_of(segs.drop_first())) {
                (Some(e), Some((p, w))) => Some((seq![e] + p, w)),
                _ => None,
            }
        }
    }

    /// Whether a literal step with text `k` matches the topic segment `t`.
    /// A topic segment that begins with the formula prefix is read as a
    /// formula over the literal, and one that begins with the expression
    /// prefix as an expression.
    pub open spec fn lit_matches(&self, k: Seq<char>, t: Seq<char>) -> bool {
        if prefix_applies(self.fp(), t) {
            match formula_of(after_prefix(self.fp(), t)) {
                Some(f) => formula_holds(f, k),
                None => false,
            }
        } else if prefix_applies(self.rp(), t) {
            regex_valid(after_prefix(self.rp(), t)) && regex_matches(after_prefix(self.rp(), t), k)
        } else {
            k == t
        }
    }

    /// Whether the step `e` matches the topic segment `t`.
    pub open spec fn edge_matches(&self, e: Edge, t: Seq<char>) -> bool {
        match e {
            Edge::Lit(k) => self.lit_matches(k, t),
            Edge::Any => true,
            Edge::Form(f) => formula_holds(f, t),
            Edge::Re(src) => regex_matches(src, t),
        }
    }

    /// Whether the rule with steps `p`, ending in a wildcard when `w`,
    /// matches the topic segments `t`. A wildcard matches one or more
    /// further segments.
    pub open spec fn rule_matches(&self, p: Seq<Edge>, w: bool, t: Seq<Seq<char>>) -> bool
        decreases p.len(),
    {
        if p.len() == 0 {
            if w {
                t.len() > 0
            } else {
                t.len() == 0
            }
        } else {
            t.len() > 0 && self.edge_matches(p[0], t[0]) && self.rule_matches(
                p.drop_first(),
                w,
                t.drop_first(),
            )
        }
    }

    /// Whether `s` is one of the wildcard tokens.
    pub fn exec_is_wild(&self, s: &Vec<char>) -> (r: bool)
        ensures
            r == self.is_wild(s@),
    {
        token_in(&self.wildcards, s)
    }

    /// Whether `s` is one of the match-any tokens.
    pub fn exec_is_any(&self, s: &Vec<char>) -> (r: bool)
        ensures
            r == self.is_any(s@),
    {
        token_in(&self.match_any, s)
    }

    /// The step that the pattern segment `s`, not a wildcard, stands for.
    pub fn step_of(&self, s: &Vec<char>) -> (r: Option<Step>)
        ensures
            match r {
                Some(st) => self.edge_of(s@) == Some(st.edge()),
                None => self.edge_of(s@) is None,
            },
    {
        if self.exec_is_any(s) {
            return Some(Step::Any);
        }
        match strip(&self.formula_prefix, s) {
            Some(body) => {
                return match Formula::parse_chars(&body) {
                    Some(f) => Some(Step::Form(f)),
                    None => None,
                };
            },
            None => {},
        }
        match strip(&self.regex_prefix, s) {
            Some(body) => {
                return match CompiledRegex::new(&body) {
                    Some(re) => Some(Step::Re(re)),
                    None => None,
                };
            },
            None => {},
        }
        let k = skip_chars(s, 0);
        assert(s@.skip(0) == s@);
        Some(Step::Lit(k))
    }

    /// Compiles the pattern segments `segs` into a rule.
    pub fn compile(&self, segs: &Vec<Vec<char>>) -> (r: Option<(Vec<Step>, bool)>)
        ensures
            match r {
                Some((st, w)) => self.rule_of(views(segs@)) == Some((edges(st@), w)),
                None => self.rule_of(views(segs@)) is None,
            },
    {
        let ghost v = views(segs@);
        let mut steps: Vec<Step> = Vec::new();
        let mut i: usize = 0;
        proof {
            assert(v.skip(0) == v);
            assert(edges(steps@) == Seq::<Edge>::empty());
            match self.rule_of(v) {
                Some((q, w)) => {
                    assert(Seq::<Edge>::empty() + q == q);
                },
                None => {},
            }
        }
        while i < segs.len()
            invariant
                i <= segs@.len(),
                v == views(segs@),
                self.rule_of(v) == prepend(edges(steps@), self.rule_of(v.skip(i as int))),
            decreases segs.len() - i,
        {
            let ghost u = v.skip(i as int);
            assert(u[0] == segs@[i as int]@);
            assert(u.drop_first() == v.skip(i as int + 1));
            if self.exec_is_wild(&segs[i]) {
                assert(edges(steps@) + Seq::<Edge>::empty() == edges(steps@));
                return Some((steps, true));
            }
            match self.step_of(&segs[i]) {
                Some(st) => {
                    let ghost e = st.edge();
                    let ghost old_steps = steps@;
                    steps.push(st);
                    assert(edges(steps@) == edges(old_steps).push(e));
                    proof {
                        match self.rule_of(v.skip(i as int + 1)) {
                            Some((p, w)) => {
                                assert(edges(old_steps) + (seq![e] + p) == edges(steps@) + p);
                            },
                            None => {},
                        }
                    }
                },
                None => {
                    return None;
                },
            }
            i = i + 1;
        }
        assert(v.skip(i as int).len() == 0);
        assert(edges(steps@) + Seq::<Edge>::empty() == edges(steps@));
        Some((steps, false))
    }
}

/// `o` with `p` put before its steps.
pub open spec fn prepend(p: Seq<Edge>, o: Option<(Seq<Edge>, bool)>) -> Option<(Seq<Edge>, bool)> {
    match o {
        Some((q, w)) => Some((p + q, w)),
        None => None,
    }
}

/// Whether `s` is one of `tokens`.
pub fn token_in(tokens: &Vec<Vec<char>>, s: &Vec<char>) -> (r: bool)
    ensures
        r == views(tokens@).contains(s@),
{
    let mut i: usize = 0;
    while i < tokens.len()
        invariant
            i <= tokens@.len(),
            forall|j: int| 0 <= j < i ==> tokens@[j]@ != s@,
        decreases tokens.len() - i,
    {
        if chars_eq(&tokens[i], s) {
            assert(views(tokens@)[i as int] == s@);
            return true;
        }
        i = i + 1;
    }
    assert(!views(tokens@).contains(s@)) by {
        if views(tokens@).contains(s@) {
            let j = choose|j: int| 0 <= j < views(tokens@).len() && views(tokens@)[j] == s@;
            assert(tokens@[j]@ == s@);
        }
    }
    false
}

/// `s` without the prefix `p`, when `p` is set and `s` begins with it.
pub fn strip(p: &Option<Vec<char>>, s: &Vec<char>) -> (r: Option<Vec<char>>)
    ensures
        r is Some <==> prefix_applies(prefix_view(*p), s@),
        r matches Some(b) ==> b@ == after_prefix(prefix_view(*p), s@),
{
    match p {
        Some(q) => {
            if starts_with(s, q) {
                Some(skip_chars(s, q.len()))
            } else {
                None
            }
        },
        None => None,
    }
}

/// One step of a compiled rule.
pub enum Step {
    Lit(Vec<char>),
    Any,
    Form(Formula),
    Re(CompiledRegex),
}

impl Step {
    pub open spec fn edge(&self) -> Edge {
        match self {
            Step::Lit(k) => Edge::Lit(k@),
            Step::Any => Edge::Any,
            Step::Form(f) => Edge::Form(f@),
            Step::Re(r) => Edge::Re(r.source()),
        }
    }
}

/// The steps as values.
pub open spec fn edges(s: Seq<Step>) -> Seq<Edge> {
    s.map_values(|x: Step| x.edge())
}

impl Config {
    /// The rule of the pattern `pattern`.
    pub open spec fn rule_of_pattern(&self, pattern: Seq<char>) -> Option<(Seq<Edge>, bool)> {
        self.rule_of(split(pattern, self.sep))
    }

    /// Whether the pattern `pattern` matches the topic `topic`. A pattern
    /// whose rule does not parse matches nothing.
    pub open spec fn pattern_matches(&self, pattern: Seq<char>, topic: Seq<char>) -> bool {
        match self.rule_of_pattern(pattern) {
            Some((p, w)) => self.rule_matches(p, w, split(topic, self.sep)),
            None => false,
        }
    }

    /// The separator `/`, the wildcard `*`, the placeholder `?`, and no
    /// formula or expression prefix.
    pub fn default_config() -> (r: Config)
        ensures
            r.sep == '/',
            views(r.wildcards@) == seq![seq!['*']],
            views(r.match_any@) == seq![seq!['?']],
            r.formula_prefix is None,
            r.regex_prefix is None,
    {
        let mut w: Vec<char> = Vec::new();
        w.push('*');
        let mut a: Vec<char> = Vec::new();
        a.push('?');
        let mut wildcards: Vec<Vec<char>> = Vec::new();
        wildcards.push(w);
        let mut match_any: Vec<Vec<char>> = Vec::new();
        match_any.push(a);
        let r = Config { sep: '/', wildcards, match_any, formula_prefix: None, regex_prefix: None };
        assert(views(r.wildcards@) == seq![seq!['*']]);
        assert(views(r.match_any@) == seq![seq!['?']]);
        r
    }

    /// Compiles the pattern `pattern` into a rule.
    pub fn compile_pattern(&self, pattern: &str) -> (r: Option<(Vec<Step>, bool)>)
        ensures
            match r {
                Some((st, w)) => self.rule_of_pattern(pattern@) == Some((edges(st@), w)),
                None => self.rule_of_pattern(pattern@) is None,
            },
    {
        let segs = split_str(pattern, self.sep);
        self.compile(&segs)
    }
}

/// The tokens `ts` as character vectors.
pub fn tokens_of(ts: &[&str]) -> (r: Vec<Vec<char>>)
    ensures
        r@.len() == ts@.len(),
        forall|i: int| 0 <= i < ts@.len() ==> #[trigger] r@[i]@ == ts@[i]@,
{
    let mut r: Vec<Vec<char>> = Vec::new();
    let mut i: usize = 0;
    while i < ts.len()
        invariant
            i <= ts@.len(),
            r@.len() == i,
            forall|j: int| 0 <= j < i ==> #[trigger] r@[j]@ == ts@[j]@,
        decreases ts.len() - i,
    {
        r.push(chars_of(ts[i]));
        i = i + 1;
    }
    r
}

/// The prefix `p`, or none when it is empty.
pub fn prefix_of(p: &str) -> (r: Option<Vec<char>>)
    ensures
        p@.len() == 0 ==> r is None,
        p@.len() > 0 ==> (r matches Some(v) && v@ == p@),
{
    let v = chars_of(p);
    if v.len() == 0 {
        None
    } else {
        Some(v)
    }
}

/// Whether two steps are the same.
fn step_eq(a: &Step, b: &Step) -> (r: bool)
    ensures
        r == (a.edge() == b.edge()),
{
    match (a, b) {
        (Step::Lit(x), Step::Lit(y)) => chars_eq(x, y),
        (Step::Any, Step::Any) => true,
        (Step::Form(x), Step::Form(y)) => *x == *y,
        (Step::Re(x), Step::Re(y)) => chars_eq(x.source_chars(), y.source_chars()),
        _ => false,
    }
}

/// Whether two rules are the same.
pub fn rules_eq(a: &Vec<Step>, aw: bool, b: &Vec<Step>, bw: bool) -> (r: bool)
    ensures
        r == (edges(a@) == edges(b@) && aw == bw),
{
    if aw != bw || a.len() != b.len() {
        assert(aw != bw || edges(a@).len() != edges(b@).len());
        return false;
    }
    let mut i: usize = 0;
    while i < a.len()
        invariant
            a@.len() == b@.len(),
            i <= a@.len(),
            forall|j: int| 0 <= j < i ==> #[trigger] edges(a@)[j] == edges(b@)[j],
        decreases a.len() - i,
    {
        if !step_eq(&a[i], &b[i]) {
            assert(edges(a@)[i as int] != edges(b@)[i as int]);
            return false;
        }
        i = i + 1;
    }
    assert(edges(a@) == edges(b@));
    true
}

/// A text without the separator is one segment.
pub proof fn lemma_split_single(s: Seq<char>, sep: char)
    requires
        !s.contains(sep),
    ensures
        split(s, sep) == seq![s],
    decreases s.len(),
{
    if s.len() > 0 {
        let t = s.drop_last();
        assert(!t.contains(sep)) by {
            if t.contains(sep) {
                let i = choose|i: int| 0 <= i < t.len() && t[i] == sep;
                assert(s[i] == sep);
            }
        }
        lemma_split_single(t, sep);
        assert(s.last() != sep) by {
            assert(s[s.len() - 1] == s.last());
        }
        assert(t.push(s.last()) == s);
    } else {
        assert(s == Seq::<char>::empty());
    }
}

/// The empty topic is one empty segment; as a pattern, when the empty text
/// is no token and no prefix is empty, it is the one literal step "".
pub proof fn lemma_empty_topic(cfg: Config)
    requires
        !cfg.is_wild(Seq::<char>::empty()),
        !cfg.is_any(Seq::<char>::empty()),
        cfg.fp() matches Some(p) ==> p.len() > 0,
        cfg.rp() matches Some(p) ==> p.len() > 0,
    ensures
        split(Seq::<char>::empty(), cfg.sep) == seq![Seq::<char>::empty()],
        cfg.rule_of_pattern(Seq::<char>::empty()) == Some((seq![Edge::Lit(Seq::<char>::empty())], false)),
{
    let e = Seq::<char>::empty();
    let segs = split(e, cfg.sep);
    assert(segs[0] == e);
    assert(segs.drop_first().len() == 0);
    assert(cfg.rule_of(segs.drop_first()) == Some((Seq::<Edge>::empty(), false)));
    assert(cfg.edge_of(e) == Some(Edge::Lit(e)));
    assert(!cfg.is_wild(segs[0]));
    assert(seq![Edge::Lit(e)] + Seq::<Edge>::empty() == seq![Edge::Lit(e)]);
}

/// A pattern whose one segment is a wildcard matches every topic, the
/// empty one included.
pub proof fn lemma_lone_wildcard(cfg: Config, tok: Seq<char>, topic: Seq<char>)
    requires
        cfg.is_wild(tok),
        !tok.contains(cfg.sep),
    ensures
        cfg.pattern_matches(tok, topic),
{
    lemma_split_single(tok, cfg.sep);
    lemma_split_nonempty(topic, cfg.sep);
    assert(split(tok, cfg.sep)[0] == tok);
}

/// A rule matches only topics of its own length when it has no wildcard,
/// and only longer ones when it ends in a wildcard: a placeholder never
/// matches a missing segment, and a trailing wildcard needs one more.
pub proof fn lemma_match_length(cfg: Config, p: Seq<Edge>, w: bool, t: Seq<Seq<char>>)
    requires
        cfg.rule_matches(p, w, t),
    ensures
        w ==> t.len() > p.len(),
        !w ==> t.len() == p.len(),
    decreases p.len(),
{
    if p.len() > 0 {
        lemma_match_length(cfg, p.drop_first(), w, t.drop_first());
    }
}

/// A rule of placeholders alone matches exactly the topics with as many
/// segments.
pub proof fn lemma_placeholders_match(cfg: Config, p: Seq<Edge>, t: Seq<Seq<char>>)
    requires
        forall|i: int| 0 <= i < p.len() ==> #[trigger] p[i] == Edge::Any,
    ensures
        cfg.rule_matches(p, false, t) == (t.len() == p.len()),
    decreases p.len(),
{
    if p.len() > 0 && t.len() > 0 {
        assert forall|i: int| 0 <= i < p.drop_first().len() implies #[trigger] p.drop_first()[i] == Edge::Any by {
            assert(p.drop_first()[i] == p[i + 1]);
        }
        lemma_placeholders_match(cfg, p.drop_first(), t.drop_first());
    }
}

} // verus!
