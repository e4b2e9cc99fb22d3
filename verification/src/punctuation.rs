//! The punctuation that is stripped from a sentence, by language.

use crate::text::texts;
use vstd::prelude::*;
use vstd::string::StringExecFns;

verus! {

/// The punctuation tables: for each script the literal strings to strip.
#[derive(Debug)]
pub struct Puncutation {
    /// Punctuation of Chinese text.
    pub chinese: Vec<String>,
    /// Punctuation of Lao text.
    pub laotian: Vec<String>,
    /// Punctuation of text in western scripts.
    pub western: Vec<String>,
}

impl Puncutation {
    /// The tables made of the three lists.
    pub fn new(chinese: Vec<String>, laotian: Vec<String>, western: Vec<String>) -> (tables: Self)
        ensures
            tables.chinese == chinese,
            tables.laotian == laotian,
            tables.western == western,
    {
        Puncutation { chinese, laotian, western }
    }
}

/// The punctuation that is stripped where no table is given.
pub open spec fn punctuation_marks() -> Seq<Seq<char>> {
    seq!["."@, "?"@, "!"@, ","@, "..."@, "《"@, "》"@, "。"@, "\n"@, ";"@]
}

/// The punctuation that is stripped where no table is given, as a list.
pub fn punctuation() -> (marks: Vec<String>)
    ensures
        texts(marks@) == punctuation_marks(),
{
    let mut marks: Vec<String> = Vec::new();
    marks.push(String::from_str("."));
    marks.push(String::from_str("?"));
    marks.push(String::from_str("!"));
    marks.push(String::from_str(","));
    marks.push(String::from_str("..."));
    marks.push(String::from_str("《"));
    marks.push(String::from_str("》"));
    marks.push(String::from_str("。"));
    marks.push(String::from_str("\n"));
    marks.push(String::from_str(";"));
    assert(texts(marks@) =~= punctuation_marks());
    marks
}

} // verus!
