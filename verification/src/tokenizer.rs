//! The tokenizer: a text is split at whitespace, and each piece is lowercased
//! and stripped of every character that is neither a letter nor a digit.
//!
//! Which characters are whitespace, letters and digits, and what the
//! lowercase of a text is, is Unicode's business and is taken from the
//! standard library.

use vstd::prelude::*;
use vstd::string::StrSliceExecFns;

verus! {

/// Whether `char::is_alphabetic` holds of the character.
pub uninterp spec fn alphabetic(c: char) -> bool;

/// Whether `char::is_alphanumeric` holds of the character.
pub uninterp spec fn alphanumeric(c: char) -> bool;

/// The text that `str::to_lowercase` gives for a text.
pub uninterp spec fn lowercased(text: Seq<char>) -> Seq<char>;

/// The pieces that `str::split_whitespace` yields for a text, in order.
pub uninterp spec fn whitespace_words(text: Seq<char>) -> Seq<Seq<char>>;

/// Whether a character stays in a cleaned token.
pub open spec fn kept(c: char) -> bool {
    alphabetic(c) || alphanumeric(c)
}

/// The cleaned form of a piece of text.
pub open spec fn cleaned(text: Seq<char>) -> Seq<char> {
    lowercased(text).filter(|c: char| kept(c))
}

/// The cleaned tokens of a text, in order.
pub open spec fn cleaned_words(text: Seq<char>) -> Seq<Seq<char>> {
    Seq::new(whitespace_words(text).len(), |i: int| cleaned(whitespace_words(text)[i]))
}

/// Calls `char::is_alphabetic`.
#[verifier::external_body]
fn is_alphabetic(c: char) -> (b: bool)
    ensures
        b == alphabetic(c),
{
    c.is_alphabetic()
}

/// Calls `char::is_alphanumeric`.
#[verifier::external_body]
fn is_alphanumeric(c: char) -> (b: bool)
    ensures
        b == alphanumeric(c),
{
    c.is_alphanumeric()
}

/// Calls `str::to_lowercase`.
#[verifier::external_body]
fn to_lowercase(text: &str) -> (lower: String)
    ensures
        lower@ == lowercased(text@),
{
    text.to_lowercase()
}

/// Calls `String::push`, which appends the character to the string.
#[verifier::external_body]
fn push_char(text: &mut String, c: char)
    ensures
        final(text)@ == old(text)@.push(c),
{
    text.push(c)
}

/// Calls `str::split_whitespace` and collects the pieces. An empty text has
/// no pieces.
#[verifier::external_body]
fn split_whitespace<'a>(text: &'a str) -> (words: Vec<&'a str>)
    ensures
        words@.len() == whitespace_words(text@).len(),
        forall|i: int| 0 <= i < words@.len() ==> (#[trigger] words@[i])@ == whitespace_words(text@)[i],
        text@.len() == 0 ==> words@.len() == 0,
{
    text.split_whitespace().collect()
}

/// A piece of text between whitespace.
#[derive(Debug)]
pub struct Token<'a> {
    text: &'a str,
}

impl<'a> View for Token<'a> {
    type V = Seq<char>;

    /// The text of the piece as it stood in the input.
    closed spec fn view(&self) -> Seq<char> {
        self.text@
    }
}

impl<'a> Token<'a> {
    /// The token of a piece of text.
    pub fn new(text: &'a str) -> (token: Token<'a>)
        ensures
            token@ == text@,
    {
        Token { text }
    }

    /// The text in lowercase, without the characters that are neither
    /// letters nor digits. It may be empty.
    pub fn clean(&self) -> (text: String)
        ensures
            text@ == cleaned(self@),
    {
        let lower = to_lowercase(self.text);
        let n = lower.as_str().unicode_len();
        let mut text = String::new();
        let mut i: usize = 0;
        proof {
            reveal(Seq::filter);
            assert(lower@.take(0) =~= Seq::<char>::empty());
        }
        while i < n
            invariant
                n == lower@.len(),
                i <= n,
                text@ == lower@.take(i as int).filter(|c: char| kept(c)),
            decreases n - i,
        {
            let c = lower.as_str().get_char(i);
            proof {
                reveal(Seq::filter);
                assert(lower@.take(i + 1).drop_last() =~= lower@.take(i as int));
                assert(lower@.take(i + 1).last() == c);
            }
            if is_alphabetic(c) || is_alphanumeric(c) {
                push_char(&mut text, c);
            }
            i += 1;
        }
        proof {
            assert(lower@.take(n as int) =~= lower@);
        }
        text
    }
}

/// Splits a text at whitespace into its tokens.
pub fn tokenize<'a>(input_str: &'a str) -> (tokens: Vec<Token<'a>>)
    ensures
        tokens@.len() == whitespace_words(input_str@).len(),
        forall|i: int| 0 <= i < tokens@.len() ==> (#[trigger] tokens@[i])@ == whitespace_words(input_str@)[i],
        input_str@.len() == 0 ==> tokens@.len() == 0,
{
    let words = split_whitespace(input_str);
    let mut tokens: Vec<Token<'a>> = Vec::new();
    let mut i: usize = 0;
    while i < words.len()
        invariant
            i <= words@.len(),
            tokens@.len() == i,
            words@.len() == whitespace_words(input_str@).len(),
            forall|k: int| 0 <= k < words@.len() ==> (#[trigger] words@[k])@ == whitespace_words(input_str@)[k],
            forall|k: int| 0 <= k < i ==> (#[trigger] tokens@[k])@ == whitespace_words(input_str@)[k],
        decreases words@.len() - i,
    {
        tokens.push(Token::new(words[i]));
        i += 1;
    }
    tokens
}

} // verus!
