//! The word-boundary detector that cuts Lao text into pieces.

use crate::segment::is_window;
use crate::text::texts;
use chamkho::Wordcut;
use vstd::prelude::*;

verus! {

/// The word-boundary detector of `chamkho`. Nothing is known of what is
/// inside.
#[verifier::external_type_specification]
#[verifier::external_body]
pub struct ExWordcut(Wordcut);

/// The words that a detector was built from, in the order in which they were
/// given.
pub uninterp spec fn detector_words(detector: Wordcut) -> Seq<Seq<char>>;

/// The pieces into which a detector built from `words` cuts `text`.
pub uninterp spec fn word_boundaries(words: Seq<Seq<char>>, text: Seq<char>) -> Seq<Seq<char>>;

/// The pieces put together again.
pub open spec fn joined(pieces: Seq<Seq<char>>) -> Seq<char>
    decreases pieces.len(),
{
    if pieces.len() == 0 {
        Seq::empty()
    } else {
        joined(pieces.drop_last()) + pieces.last()
    }
}

/// A detector made of a list of words, with the default rules and no other.
pub struct Detector {
    engine: Wordcut,
}

impl Detector {
    /// The words that the detector was built from, in the order in which they
    /// were given.
    pub closed spec fn words(&self) -> Seq<Seq<char>> {
        detector_words(self.engine)
    }

    /// The detector of `words`.
    pub fn new(words: &Vec<String>) -> (detector: Detector)
        ensures
            detector.words() == texts(words@),
    {
        new_detector(words)
    }

    /// Cuts `text` into consecutive pieces that cover it from its first code
    /// point to its last.
    pub fn segment_into_strings(&self, text: &str) -> (pieces: Vec<String>)
        ensures
            texts(pieces@) == word_boundaries(self.words(), text@),
            joined(texts(pieces@)) == text@,
    {
        cut(self, text)
    }
}

/// `chamkho::wordcut_engine::create_prefix_tree` makes a prefix tree of the words, and
/// `Wordcut::new` a detector of that tree with the default rules. The
/// contract claims only that the detector is the one of these words.
#[verifier::external_body]
fn new_detector(words: &Vec<String>) -> (detector: Detector)
    ensures
        detector_words(detector.engine) == texts(words@),
{
    let list: Vec<&str> = words.iter().map(|word| word.as_str()).collect();
    Detector { engine: Wordcut::new(chamkho::wordcut_engine::create_prefix_tree(&list)) }
}

/// `Wordcut::segment_into_strings` cuts the text into consecutive pieces that
/// cover it from its first code point to its last. For a detector with the
/// default rules, which is the only kind that a `Detector` holds, which
/// pieces they are is a matter of the detector's words and of the text
/// alone; the contract gives them their name and claims, beyond that, that
/// they join to the text.
#[verifier::external_body]
fn cut(detector: &Detector, text: &str) -> (pieces: Vec<String>)
    ensures
        texts(pieces@) == word_boundaries(detector_words(detector.engine), text@),
        joined(texts(pieces@)) == text@,
{
    detector.engine.segment_into_strings(text)
}

/// Each of the pieces occurs, as it stands, in what they join to.
pub proof fn lemma_pieces_are_windows(pieces: Seq<Seq<char>>, i: int)
    requires
        0 <= i < pieces.len(),
    ensures
        is_window(joined(pieces), pieces[i]),
    decreases pieces.len(),
{
    let whole = joined(pieces);
    let head = joined(pieces.drop_last());
    if i == pieces.len() - 1 {
        assert(whole.subrange(head.len() as int, whole.len() as int) =~= pieces[i]);
    } else {
        lemma_pieces_are_windows(pieces.drop_last(), i);
        let (from, to) = choose|from: int, to: int|
            0 <= from <= to <= head.len() && #[trigger] head.subrange(from, to)
                == pieces.drop_last()[i];
        assert(whole.subrange(from, to) =~= head.subrange(from, to));
    }
}

} // verus!
