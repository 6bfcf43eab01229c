//! Regular expressions.
use regex_lite::{Error, Regex};
use vstd::prelude::*;
use vstd::utf8::*;

verus! {

/// `regex_lite::Regex`, a compiled regular expression.
#[verifier::external_type_specification]
#[verifier::external_body]
pub struct ExRegex(regex_lite::Regex);

/// `regex_lite::Error`, which tells why a pattern does not compile.
#[verifier::external_type_specification]
#[verifier::external_body]
pub struct ExError(regex_lite::Error);

/// The pattern that a regular expression was made from by `Regex::new`, or
/// `None` if it was made in another way (with other settings).
pub uninterp spec fn made_from(r: Regex) -> Option<Seq<char>>;

/// The message of an error, as `Error` displays it.
pub uninterp spec fn message_of(e: Error) -> Seq<char>;

/// Whether `Regex::new` may refuse the pattern with an error of that message, on
/// some machine.
pub uninterp spec fn refuses(pattern: Seq<char>, message: Seq<char>) -> bool;

/// What `Regex::is_match` returns for the pattern and a text: whether the
/// pattern matches anywhere in the text.
pub uninterp spec fn found(pattern: Seq<char>, text: Seq<char>) -> bool;

/// What `Regex::find_iter` yields for the pattern and a text: the ranges of
/// bytes that match, from left to right and without overlap.
pub uninterp spec fn found_ranges(pattern: Seq<char>, text: Seq<char>) -> Seq<(usize, usize)>;

/// Ranges of bytes of a text that follow one another and begin and end between
/// characters.
pub open spec fn are_ranges(ranges: Seq<(usize, usize)>, text: Seq<char>) -> bool {
    &&& forall|i: int|
        #![trigger ranges[i]]
        0 <= i < ranges.len() ==> {
            &&& ranges[i].0 <= ranges[i].1 <= encode_utf8(text).len()
            &&& is_char_boundary(encode_utf8(text), ranges[i].0 as int)
            &&& is_char_boundary(encode_utf8(text), ranges[i].1 as int)
        }
    &&& forall|i: int, j: int|
        #![trigger ranges[i], ranges[j]]
        0 <= i < j < ranges.len() ==> ranges[i].1 <= ranges[j].0
}

/// Calls `Regex::new`.
///
/// Claims that a regular expression that comes back is made from `pattern`, and
/// that an error is one that `pattern` may be refused with. Which of the two comes
/// back is left open: it depends on the size of the compiled program in memory,
/// besides the pattern.
#[verifier::external_body]
fn compile(pattern: &str) -> (r: Result<Regex, Error>)
    ensures
        match r {
            Ok(regex) => made_from(regex) == Some(pattern@),
            Err(e) => refuses(pattern@, message_of(e)),
        },
{
    Regex::new(pattern)
}

/// Calls `to_string` on an `Error`, and names its result.
#[verifier::external_body]
fn error_text(e: &Error) -> (r: String)
    ensures
        r@ == message_of(*e),
{
    e.to_string()
}

/// Calls `Regex::is_match`, and names its result.
#[verifier::external_body]
fn regex_is_match(regex: &Regex, text: &str) -> (r: bool)
    requires
        made_from(*regex) is Some,
    ensures
        r == found(made_from(*regex)->0, text@),
{
    regex.is_match(text)
}

/// Calls `Regex::find_iter`, and takes the bounds of each match.
///
/// Besides naming the result, this claims that there is a match in the list
/// exactly if `Regex::is_match` finds one, that matches do not overlap and come
/// from left to right, and that they begin and end between characters.
#[verifier::external_body]
fn regex_find_all(regex: &Regex, text: &str) -> (r: Vec<(usize, usize)>)
    requires
        made_from(*regex) is Some,
    ensures
        r@ == found_ranges(made_from(*regex)->0, text@),
        r@.len() > 0 <==> found(made_from(*regex)->0, text@),
        are_ranges(r@, text@),
{
    regex.find_iter(text).map(|m| (m.start(), m.end())).collect()
}

/// A compiled regular expression.
pub struct Compiled {
    regex: Regex,
}

impl View for Compiled {
    type V = Seq<char>;

    /// The pattern.
    closed spec fn view(&self) -> Seq<char> {
        made_from(self.regex)->0
    }
}

impl Compiled {
    #[verifier::type_invariant]
    spec fn wf(&self) -> bool {
        made_from(self.regex) is Some
    }

    /// Compile a pattern, or say what is wrong with it.
    ///
    /// Which of the two happens is left open: the size of the compiled program
    /// in memory has a limit.
    pub fn new(pattern: &str) -> (r: Result<Compiled, String>)
        ensures
            match r {
                Ok(c) => c@ == pattern@,
                Err(text) => refuses(pattern@, text@),
            },
    {
        match compile(pattern) {
            Ok(regex) => Ok(Compiled { regex }),
            Err(e) => Err(error_text(&e)),
        }
    }

    /// Whether the pattern matches anywhere in a text.
    pub fn is_match(&self, text: &str) -> (r: bool)
        ensures
            r == found(self@, text@),
    {
        proof {
            use_type_invariant(self);
        }
        regex_is_match(&self.regex, text)
    }

    /// The ranges of bytes of a text that the pattern matches, from left to
    /// right and without overlap.
    pub fn find_all(&self, text: &str) -> (r: Vec<(usize, usize)>)
        ensures
            r@ == found_ranges(self@, text@),
            r@.len() > 0 <==> found(self@, text@),
            are_ranges(r@, text@),
    {
        proof {
            use_type_invariant(self);
        }
        regex_find_all(&self.regex, text)
    }
}

} // verus!
