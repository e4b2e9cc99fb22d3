//! A dictionary entry with a primary and an alternate written form, and the
//! policy for entries that arrive under a key already taken.

use crate::export::Tabular;
use crate::lexicon::Lexicon;
use crate::number::{decimal, decimal_text, decimal_value, lemma_decimal_value};
use crate::ordered::OrderedMap;
use crate::record::Counted;
use crate::text::{copy_texts, join, joined_by, texts};
use vstd::prelude::*;
use vstd::string::StringExecFns;

verus! {

/// A definition of a word.
#[derive(Debug, Clone)]
pub struct Definition {
    /// The written form that the word is looked up by.
    pub writing_method: String,
    /// Another way to write it, if there is one.
    pub second_writing_method: Option<String>,
    /// How it is pronounced; no reading occurs twice.
    pub pronunciations: Vec<String>,
    /// What it means; no meaning occurs twice.
    pub translations: Vec<String>,
    /// How often it occurred in what was segmented.
    pub count: i128,
    /// The proficiency level it belongs to, if known.
    pub level: Option<String>,
}

/// A definition in specifications.
pub struct DefinitionView {
    pub writing_method: Seq<char>,
    pub second_writing_method: Option<Seq<char>>,
    pub pronunciations: Seq<Seq<char>>,
    pub translations: Seq<Seq<char>>,
    pub count: int,
    pub level: Option<Seq<char>>,
}

/// The view of a string that may be absent.
pub open spec fn text_or_none(text: Option<String>) -> Option<Seq<char>> {
    match text {
        Some(t) => Some(t@),
        None => None,
    }
}

/// A copy of a string that may be absent.
pub fn copy_text_or_none(text: &Option<String>) -> (copy: Option<String>)
    ensures
        copy == *text,
{
    match text {
        Some(t) => Some(t.clone()),
        None => None,
    }
}

impl View for Definition {
    type V = DefinitionView;

    open spec fn view(&self) -> DefinitionView {
        DefinitionView {
            writing_method: self.writing_method@,
            second_writing_method: text_or_none(self.second_writing_method),
            pronunciations: texts(self.pronunciations@),
            translations: texts(self.translations@),
            count: self.count as int,
            level: text_or_none(self.level),
        }
    }
}

impl Default for Definition {
    /// A definition of nothing.
    fn default() -> (definition: Definition)
        ensures
            definition@ == (DefinitionView {
                writing_method: Seq::empty(),
                second_writing_method: None,
                pronunciations: Seq::empty(),
                translations: Seq::empty(),
                count: 0,
                level: None,
            }),
    {
        let definition = Definition {
            writing_method: String::new(),
            second_writing_method: None,
            pronunciations: Vec::new(),
            translations: Vec::new(),
            count: 0,
            level: None,
        };
        assert(texts(definition.pronunciations@) =~= Seq::empty());
        assert(texts(definition.translations@) =~= Seq::empty());
        definition
    }
}

impl Counted for Definition {
    open spec fn count_in(view: DefinitionView) -> int {
        view.count
    }

    open spec fn recount(view: DefinitionView, count: int) -> DefinitionView {
        DefinitionView { count, ..view }
    }

    proof fn lemma_recount(view: DefinitionView, count: int, again: int) {
    }

    fn count(&self) -> (n: i128) {
        self.count
    }

    fn with_count(&self, count: i128) -> (copy: Definition) {
        Definition {
            writing_method: self.writing_method.clone(),
            second_writing_method: copy_text_or_none(&self.second_writing_method),
            pronunciations: copy_texts(&self.pronunciations),
            translations: copy_texts(&self.translations),
            count,
            level: copy_text_or_none(&self.level),
        }
    }
}

/// `list` with the first of `more` added at its end, unless `more` is empty
/// or `list` holds that value already.
pub open spec fn with_first(list: Seq<Seq<char>>, more: Seq<Seq<char>>) -> Seq<Seq<char>> {
    if more.len() > 0 && !list.contains(more[0]) {
        list.push(more[0])
    } else {
        list
    }
}

/// What `known` becomes when `new` arrives under the same key: it takes the
/// first reading and the first meaning of `new` that it does not have yet,
/// and keeps everything else.
pub open spec fn merged(known: DefinitionView, new: DefinitionView) -> DefinitionView {
    DefinitionView {
        pronunciations: with_first(known.pronunciations, new.pronunciations),
        translations: with_first(known.translations, new.translations),
        ..known
    }
}

/// Adding the first of `more` keeps a list free of repetitions.
pub proof fn lemma_with_first_distinct(list: Seq<Seq<char>>, more: Seq<Seq<char>>)
    requires
        list.no_duplicates(),
    ensures
        with_first(list, more).no_duplicates(),
{
    if more.len() > 0 && !list.contains(more[0]) {
        let longer = list.push(more[0]);
        assert forall|i: int, j: int| 0 <= i < longer.len() && 0 <= j < longer.len() && i
            != j implies longer[i] != longer[j] by {
            if i < list.len() && j < list.len() {
                assert(longer[i] == list[i] && longer[j] == list[j]);
            } else if i < list.len() {
                assert(list.contains(list[i]));
            } else {
                assert(list.contains(list[j]));
            }
        }
    }
}

/// Whether `list` holds a string equal to `text`.
pub fn holds(list: &Vec<String>, text: &String) -> (b: bool)
    ensures
        b == texts(list@).contains(text@),
{
    let mut i: usize = 0;
    while i < list.len()
        invariant
            i <= list.len(),
            forall|j: int| 0 <= j < i ==> texts(list@)[j] != text@,
        decreases list.len() - i,
    {
        if list[i] == *text {
            assert(texts(list@)[i as int] == text@);
            return true;
        }
        i += 1;
    }
    false
}

/// Appends a copy of the first of `more` to `list` unless `list` holds it.
pub fn take_first(list: &mut Vec<String>, more: &Vec<String>)
    ensures
        texts(final(list)@) == with_first(texts(old(list)@), texts(more@)),
{
    if more.len() > 0 {
        assert(texts(more@)[0] == more@[0]@);
        if !holds(list, &more[0]) {
            list.push(more[0].clone());
            assert(texts(list@) =~= texts(old(list)@).push(more@[0]@));
        }
    }
}

impl Definition {
    /// Merges `item`, which arrived under the key of this definition, into it.
    pub fn merge_definition(&mut self, item: Self)
        ensures
            final(self)@ == merged(old(self)@, item@),
    {
        take_first(&mut self.pronunciations, &item.pronunciations);
        take_first(&mut self.translations, &item.translations);
    }

    /// Neither the readings nor the meanings hold a value twice.
    pub open spec fn distinct_values(view: DefinitionView) -> bool {
        view.pronunciations.no_duplicates() && view.translations.no_duplicates()
    }

    /// A merge keeps readings and meanings free of repetitions.
    pub proof fn lemma_merged_distinct(known: DefinitionView, new: DefinitionView)
        requires
            Self::distinct_values(known),
        ensures
            Self::distinct_values(merged(known, new)),
    {
        lemma_with_first_distinct(known.pronunciations, new.pronunciations);
        lemma_with_first_distinct(known.translations, new.translations);
    }
}

/// Definitions by written form, in the order in which each was first stored.
pub type DefinitionList = OrderedMap<Definition>;

/// The lexicon after `item` arrived under `key`.
pub open spec fn inserted_or_merged(
    lexicon: Map<Seq<char>, DefinitionView>,
    key: Seq<char>,
    item: DefinitionView,
) -> Map<Seq<char>, DefinitionView> {
    if lexicon.contains_key(key) {
        lexicon.insert(key, merged(lexicon[key], item))
    } else {
        lexicon.insert(key, item)
    }
}

/// Storing a definition under a key that may be taken: the policy for a
/// dictionary source with several lines for one written form.
pub trait InsertOrMerge: View<V = Map<Seq<char>, DefinitionView>> {
    /// Stores `item` under `key` if the key is free, and merges it into the
    /// stored definition if not.
    fn insert_or_merge(&mut self, key: String, item: Definition)
        ensures
            final(self)@ == inserted_or_merged(old(self)@, key@, item@),
    ;
}

impl InsertOrMerge for Lexicon<Definition> {
    fn insert_or_merge(&mut self, key: String, item: Definition) {
        let merged = match self.get(key.as_str()) {
            Some(known) => {
                let mut copy = known.with_count(known.count);
                copy.merge_definition(item);
                copy
            },
            None => item,
        };
        self.insert(key, merged);
    }
}

impl Tabular for Definition {
    open spec fn columns() -> Seq<Seq<char>> {
        seq![
            "writing_method"@,
            "second_writing_method"@,
            "pronounciation"@,
            "translation"@,
            "count"@,
        ]
    }

    /// The written form, the alternate form or nothing, the readings and the
    /// meanings, each list with commas between its values, and the count.
    open spec fn fields(view: DefinitionView) -> Seq<Seq<char>> {
        seq![
            view.writing_method,
            match view.second_writing_method {
                Some(form) => form,
                None => Seq::empty(),
            },
            joined_by(view.pronunciations, ","@),
            joined_by(view.translations, ","@),
            decimal(view.count),
        ]
    }

    proof fn lemma_width(view: DefinitionView) {
    }

    fn header() -> (row: Vec<String>) {
        let mut row: Vec<String> = Vec::new();
        row.push(String::from_str("writing_method"));
        row.push(String::from_str("second_writing_method"));
        row.push(String::from_str("pronounciation"));
        row.push(String::from_str("translation"));
        row.push(String::from_str("count"));
        assert(texts(row@) =~= Self::columns());
        row
    }

    fn row(&self) -> (row: Vec<String>) {
        let mut row: Vec<String> = Vec::new();
        row.push(self.writing_method.clone());
        row.push(
            match &self.second_writing_method {
                Some(form) => form.clone(),
                None => String::new(),
            },
        );
        row.push(join(&self.pronunciations, ","));
        row.push(join(&self.translations, ","));
        row.push(decimal_text(self.count));
        assert(texts(row@) =~= Self::fields(self@));
        row
    }
}

/// The row of a definition holds its written form as it stands, and its
/// count in a form that reads back as the same count.
pub proof fn lemma_row_keeps_form_and_count(view: DefinitionView)
    ensures
        Definition::fields(view)[0] == view.writing_method,
        decimal_value(Definition::fields(view)[4]) == Some(view.count),
{
    lemma_decimal_value(view.count);
}

} // verus!
