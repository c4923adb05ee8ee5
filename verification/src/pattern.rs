//! Regular-expression matching for entry selection, provided by an outside
//! engine behind trusted wrappers.  A compiled pattern remembers its source
//! text, which is what contracts speak about.

use vstd::prelude::*;

verus! {

/// Whether the outside regex engine accepts this pattern text.
pub uninterp spec fn regex_valid(p: Seq<char>) -> bool;

/// Whether the pattern matches the text, as the outside regex engine decides
/// it; a pure function of pattern and text.
pub uninterp spec fn regex_matches(p: Seq<char>, text: Seq<char>) -> bool;

#[verifier::external_type_specification]
#[verifier::external_body]
pub struct ExRegex(regex::Regex);

/// A compiled pattern: the engine's compiled form together with the source
/// text it was compiled from.
pub struct Pattern {
    re: regex::Regex,
    src: String,
}

impl View for Pattern {
    type V = Seq<char>;

    /// The pattern's source text.
    closed spec fn view(&self) -> Seq<char> {
        self.src@
    }
}

impl Pattern {
    /// Relies on `regex::Regex::new`: it compiles exactly the patterns the
    /// engine's syntax admits.
    #[verifier::external_body]
    pub fn compile(p: &str) -> (r: Result<Pattern, String>)
        ensures
            r matches Ok(pt) ==> pt@ == p@ && regex_valid(p@),
            r is Err ==> !regex_valid(p@),
    {
        match regex::Regex::new(p) {
            Ok(re) => Ok(Pattern { re, src: p.to_string() }),
            Err(e) => Err(format!("{}", e)),
        }
    }

    /// Relies on `regex::Regex::is_match`: a pure function of the pattern's
    /// source text and the searched text.
    #[verifier::external_body]
    pub fn is_match(&self, text: &str) -> (b: bool)
        ensures
            b == regex_matches(self@, text@),
    {
        self.re.is_match(text)
    }
}

} // verus!
