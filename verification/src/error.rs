//! What can go wrong around a dictionary.

use vstd::prelude::*;
use vstd::string::StringExecFns;

verus! {

/// A failure, with the cause in words.
#[derive(Debug)]
pub enum DictionaryError {
    /// A table could not be written out.
    Serialize(String),
    /// Bytes that should be text are not UTF-8.
    Utf8(String),
    /// The Chinese dictionary could not be built.
    ChineseDictionary(String),
    /// The Lao dictionary could not be built.
    LaoDictionary(String),
    /// The punctuation table is missing or malformed.
    Puncutation(String),
}

impl DictionaryError {
    /// The cause that the error carries.
    pub open spec fn cause(&self) -> Seq<char> {
        match self {
            DictionaryError::Serialize(cause) => cause@,
            DictionaryError::Utf8(cause) => cause@,
            DictionaryError::ChineseDictionary(cause) => cause@,
            DictionaryError::LaoDictionary(cause) => cause@,
            DictionaryError::Puncutation(cause) => cause@,
        }
    }

    /// What the message says before the cause.
    pub open spec fn preamble(&self) -> Seq<char> {
        match self {
            DictionaryError::Serialize(_) => "Fail to serialize due to: "@,
            DictionaryError::Utf8(_) => "Fail to convert utf-8 to string: "@,
            DictionaryError::ChineseDictionary(_) => "Fail to load chinese dinctionary: "@,
            DictionaryError::LaoDictionary(_) => "Fail to load lao dictionary: "@,
            DictionaryError::Puncutation(_) => "Unable to retrieve the punctuation: "@,
        }
    }

    /// The error as a sentence for a reader: what failed, then the cause.
    pub fn message(&self) -> (text: String)
        ensures
            text@ == self.preamble() + self.cause(),
    {
        match self {
            DictionaryError::Serialize(cause) => {
                let mut text = String::from_str("Fail to serialize due to: ");
                text.append(cause.as_str());
                text
            },
            DictionaryError::Utf8(cause) => {
                let mut text = String::from_str("Fail to convert utf-8 to string: ");
                text.append(cause.as_str());
                text
            },
            DictionaryError::ChineseDictionary(cause) => {
                let mut text = String::from_str("Fail to load chinese dinctionary: ");
                text.append(cause.as_str());
                text
            },
            DictionaryError::LaoDictionary(cause) => {
                let mut text = String::from_str("Fail to load lao dictionary: ");
                text.append(cause.as_str());
                text
            },
            DictionaryError::Puncutation(cause) => {
                let mut text = String::from_str("Unable to retrieve the punctuation: ");
                text.append(cause.as_str());
                text
            },
        }
    }
}

} // verus!
