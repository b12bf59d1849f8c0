//! Regular expressions, compiled by the `regex` crate.
use vstd::prelude::*;
use crate::mkmf::sub_chars;

verus! {

/// Whether `regex::Regex::new` accepts the source `src`.
pub uninterp spec fn regex_valid(src: Seq<char>) -> bool;

/// Whether the expression with source `src` matches somewhere in `text`, as
/// `regex::Regex::is_match` decides.
pub uninterp spec fn regex_matches(src: Seq<char>, text: Seq<char>) -> bool;

#[verifier::external_type_specification]
#[verifier::external_body]
pub struct ExRegex(regex::Regex);

/// Relies on `regex::Regex::new`: it succeeds exactly on the sources that
/// are valid expressions within the default size limit, which depends on
/// the source alone.
#[verifier::external_body]
fn compile(src: &Vec<char>) -> (r: Option<regex::Regex>)
    ensures
        r is Some <==> regex_valid(src@),
{
    let text: String = src.iter().collect();
    regex::Regex::new(&text).ok()
}

/// A compiled regular expression together with its source.
pub struct CompiledRegex {
    re: regex::Regex,
    source: Vec<char>,
}

impl View for CompiledRegex {
    type V = Seq<char>;

    /// The source the expression was compiled from.
    closed spec fn view(&self) -> Seq<char> {
        self.source@
    }
}

impl CompiledRegex {
    /// The source the expression was compiled from.
    pub open spec fn source(&self) -> Seq<char> {
        self@
    }

    /// Compiles `src`; `None` when it is not a valid expression.
    pub fn new(src: &Vec<char>) -> (r: Option<CompiledRegex>)
        ensures
            r is Some <==> regex_valid(src@),
            r matches Some(x) ==> x.source() == src@,
    {
        match compile(src) {
            Some(re) => {
                let source = sub_chars(src, 0, src.len());
                assert(src@.subrange(0, src@.len() as int) == src@);
                Some(CompiledRegex { re, source })
            },
            None => None,
        }
    }

    /// The source the expression was compiled from.
    pub fn source_chars(&self) -> (r: &Vec<char>)
        ensures
            r@ == self.source(),
    {
        &self.source
    }

    /// Relies on `regex::Regex::is_match`: whether the expression, compiled
    /// from `self.source()` by `new` (the only maker of this type), matches
    /// somewhere in `text`.
    #[verifier::external_body]
    pub fn is_match(&self, text: &Vec<char>) -> (r: bool)
        ensures
            r == regex_matches(self.source(), text@),
    {
        let haystack: String = text.iter().collect();
        self.re.is_match(&haystack)
    }
}

} // verus!
