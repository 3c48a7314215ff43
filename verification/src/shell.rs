use vstd::prelude::*;

verus! {

/// The words that `shlex::Shlex` yields for `text`: the text split as a
/// POSIX shell splits a command line (quotes, backslash escapes and `#`
/// comments honoured), up to the first error, if any.
pub uninterp spec fn shell_words(text: Seq<char>) -> Seq<Seq<char>>;

/// Splits `text` into words with `shlex::Shlex::new(text)`, collecting every
/// word that the iterator yields. The contract claims that the words are
/// `shell_words` of the text, a function of the text alone, and, as the
/// iterator's `next` shows by returning `None` when no character is left,
/// that an empty text gives no words.
#[verifier::external_body]
pub(crate) fn split_words(text: &str) -> (res: Vec<String>)
    ensures
        res@.map_values(|w: String| w@) == shell_words(text@),
        text@.len() == 0 ==> res@.len() == 0,
{
    shlex::Shlex::new(text).collect()
}

} // verus!
