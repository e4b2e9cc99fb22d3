//! Stripping punctuation from a sentence before it is scanned.

use crate::text::{code_points, remove_pattern, text_of, texts, without};
use vstd::prelude::*;

verus! {

/// `sentence` after each pattern in turn has been taken out of what the
/// patterns before it left.
pub open spec fn cleaned(sentence: Seq<char>, patterns: Seq<Seq<char>>) -> Seq<char>
    decreases patterns.len(),
{
    if patterns.len() == 0 {
        sentence
    } else {
        without(cleaned(sentence, patterns.drop_last()), patterns.last())
    }
}

/// The code points of `sentence` without the given punctuation.
pub fn clean_chars(sentence: &str, punctuations: &Vec<String>) -> (chars: Vec<char>)
    ensures
        chars@ == cleaned(sentence@, texts(punctuations@)),
{
    let mut chars = code_points(sentence);
    let mut i: usize = 0;
    while i < punctuations.len()
        invariant
            i <= punctuations.len(),
            chars@ == cleaned(sentence@, texts(punctuations@).subrange(0, i as int)),
        decreases punctuations.len() - i,
    {
        let pattern = code_points(punctuations[i].as_str());
        chars = remove_pattern(&chars, &pattern);
        proof {
            let done = texts(punctuations@).subrange(0, i + 1);
            assert(done.drop_last() =~= texts(punctuations@).subrange(0, i as int));
            assert(done.last() == pattern@);
        }
        i += 1;
    }
    assert(texts(punctuations@).subrange(0, punctuations@.len() as int) =~= texts(punctuations@));
    chars
}

/// Removes every punctuation pattern from `sentence`, one pattern after the
/// other in the order given.
pub fn clean_sentence(sentence: &str, punctuations: &Vec<String>) -> (out: String)
    ensures
        out@ == cleaned(sentence@, texts(punctuations@)),
{
    let chars = clean_chars(sentence, punctuations);
    text_of(&chars)
}

/// Cleaning as a capability of whatever holds a punctuation table.
pub trait Clean {
    /// Removes every pattern of `punctuation` from `sentence`.
    fn remove_punctuation_from_sentence(&self, sentence: &str, punctuation: &Vec<String>) -> (out:
        String)
        ensures
            out@ == cleaned(sentence@, texts(punctuation@)),
    {
        clean_sentence(sentence, punctuation)
    }
}

} // verus!
