//! Regular expressions, compiled and run by the `regex` crate.
use vstd::prelude::*;

verus! {

#[verifier::external_type_specification]
#[verifier::external_body]
pub struct ExRegex(regex::Regex);

/// Whether the `regex` crate accepts `pattern` as a regular expression.
pub uninterp spec fn regex_accepts(pattern: Seq<char>) -> bool;

/// The successive non-overlapping matches of `pattern` in `text`, as the
/// `regex` crate finds them.
pub uninterp spec fn regex_find_all(pattern: Seq<char>, text: Seq<char>) -> Seq<Seq<char>>;

/// `text` with every match of `pattern` replaced by `rep`, as the `regex`
/// crate does it.
pub uninterp spec fn regex_replace_all(pattern: Seq<char>, text: Seq<char>, rep: Seq<char>) -> Seq<
    char,
>;

/// A compiled regular expression, with the text it was compiled from.
pub struct Pattern {
    source: String,
    compiled: regex::Regex,
}

impl Pattern {
    /// The text the expression was compiled from.
    pub closed spec fn source(&self) -> Seq<char> {
        self.source@
    }
}

/// `regex::Regex::new`: compiles `source`; `None` where the crate refuses it.
#[verifier::external_body]
pub(crate) fn compile(source: &str) -> (r: Option<Pattern>)
    ensures
        r is Some <==> regex_accepts(source@),
        r matches Some(p) ==> p.source() == source@,
{
    match regex::Regex::new(source) {
        Ok(compiled) => Some(Pattern { source: source.to_string(), compiled }),
        Err(_) => None,
    }
}

/// `regex::Regex::find_iter`: the matched texts, in order.
#[verifier::external_body]
pub(crate) fn find_all(p: &Pattern, text: &str) -> (r: Vec<String>)
    ensures
        r@.map_values(|s: String| s@) == regex_find_all(p.source(), text@),
{
    p.compiled.find_iter(text).map(|m| m.as_str().to_string()).collect()
}

/// `regex::Regex::replace_all`.
#[verifier::external_body]
pub(crate) fn replace_all(p: &Pattern, text: &str, rep: &str) -> (r: String)
    ensures
        r@ == regex_replace_all(p.source(), text@, rep@),
{
    p.compiled.replace_all(text, rep).into_owned()
}

} // verus!
