//! CEDICT: the line format of the dictionary file, and a dictionary read
//! from such lines.

use crate::clean::{clean_chars, cleaned, Clean};
use crate::definition::{
    inserted_or_merged, Definition, DefinitionList, DefinitionView, InsertOrMerge,
};
use crate::lexicon::Lexicon;
use crate::ordered::{lemma_position, position, OrderedMap};
use crate::ordering::Ops;
use crate::punctuation::{punctuation, punctuation_marks};
use crate::record::Counted;
use crate::rank::{as_ints, as_positions, is_ranking, rank_order, ranking};
use crate::segment::{is_window, lemma_segmented, segment, segmented};
use crate::text::{
    code_points, copy_range, find_char, index_of, join, joined_by, lemma_index_of, remove_pattern,
    text_of, texts, trim_chars, trimmed, without,
};
use vstd::prelude::*;
use vstd::string::StringExecFns;

verus! {

/// One line of a CEDICT file, taken apart.
#[derive(Debug, Clone)]
pub struct Cedict {
    /// The word in traditional characters.
    pub traditional_character: String,
    /// The word in simplified characters.
    pub simplify_character: String,
    /// The pronunciation, as it stands between the square brackets.
    pub pinyin: String,
    /// The translations, each between two slashes.
    pub english: String,
}

/// A CEDICT line in specifications.
pub struct CedictView {
    pub traditional_character: Seq<char>,
    pub simplify_character: Seq<char>,
    pub pinyin: Seq<char>,
    pub english: Seq<char>,
}

impl View for Cedict {
    type V = CedictView;

    open spec fn view(&self) -> CedictView {
        CedictView {
            traditional_character: self.traditional_character@,
            simplify_character: self.simplify_character@,
            pinyin: self.pinyin@,
            english: self.english@,
        }
    }
}

impl Default for Cedict {
    /// The record of an empty line.
    fn default() -> (record: Cedict)
        ensures
            record@ == (CedictView {
                traditional_character: Seq::empty(),
                simplify_character: Seq::empty(),
                pinyin: Seq::empty(),
                english: Seq::empty(),
            }),
    {
        Cedict {
            traditional_character: String::new(),
            simplify_character: String::new(),
            pinyin: String::new(),
            english: String::new(),
        }
    }
}

/// Whether `s` holds `c`.
pub open spec fn has(s: Seq<char>, c: char) -> bool {
    index_of(s, c) < s.len()
}

/// What stands in `s` before the first `c`.
pub open spec fn before(s: Seq<char>, c: char) -> Seq<char> {
    s.take(index_of(s, c))
}

/// What stands in `s` behind the first `c`.
pub open spec fn after(s: Seq<char>, c: char) -> Seq<char> {
    s.skip(index_of(s, c) + 1)
}

/// What is left of a line once its traditional form and the blank behind it
/// are taken away: nothing, if the line has no blank.
pub open spec fn past_traditional(line: Seq<char>) -> Seq<char> {
    if has(line, ' ') {
        after(line, ' ')
    } else {
        Seq::empty()
    }
}

/// What is left of a line behind its two written forms.
pub open spec fn past_simplified(line: Seq<char>) -> Seq<char> {
    let rest = past_traditional(line);
    if has(rest, ' ') {
        after(rest, ' ')
    } else {
        rest
    }
}

/// The record that a line stands for. The traditional form ends at the first
/// blank and the simplified form at the second; the pronunciation is what
/// stands before the first `]` behind them, without any `[`; the
/// translations are the rest, without the white space around it. A part
/// whose end mark is missing is empty.
pub open spec fn entry_of(line: Seq<char>) -> CedictView {
    let second = past_traditional(line);
    let third = past_simplified(line);
    CedictView {
        traditional_character: if has(line, ' ') {
            before(line, ' ')
        } else {
            Seq::empty()
        },
        simplify_character: if has(second, ' ') {
            before(second, ' ')
        } else {
            Seq::empty()
        },
        pinyin: if has(third, ']') {
            without(before(third, ']'), seq!['['])
        } else {
            Seq::empty()
        },
        english: if has(third, ']') {
            trimmed(after(third, ']'))
        } else {
            Seq::empty()
        },
    }
}

/// Whether a line has all the marks of an entry: a blank behind each of the
/// two written forms, and a `]` behind the pronunciation.
pub open spec fn is_entry(line: Seq<char>) -> bool {
    has(line, ' ') && has(past_traditional(line), ' ') && has(past_simplified(line), ']')
}

/// Whether a line is a comment: it begins with `#` or `%`.
pub open spec fn is_comment(line: Seq<char>) -> bool {
    line.len() > 0 && (line[0] == '#' || line[0] == '%')
}

/// Tells whether `line` is a comment.
pub fn comment_line(line: &Vec<char>) -> (b: bool)
    ensures
        b == is_comment(line@),
{
    line.len() > 0 && (line[0] == '#' || line[0] == '%')
}

/// Takes a line apart. A line that lacks a mark gives a record with empty
/// parts.
pub fn parse_line(line: &Vec<char>) -> (record: Cedict)
    ensures
        record@ == entry_of(line@),
{
    match read_line(line) {
        Some(record) => record,
        None => parse_parts(line).0,
    }
}

/// Takes a line apart if it has all the marks of an entry.
pub fn read_line(line: &Vec<char>) -> (record: Option<Cedict>)
    ensures
        match record {
            Some(r) => is_entry(line@) && r@ == entry_of(line@),
            None => !is_entry(line@),
        },
{
    let (record, complete) = parse_parts(line);
    if complete {
        Some(record)
    } else {
        None
    }
}

/// The parts of a line, and whether the line has all the marks of an entry.
fn parse_parts(line: &Vec<char>) -> (parts: (Cedict, bool))
    ensures
        parts.0@ == entry_of(line@),
        parts.1 == is_entry(line@),
{
    let n = line.len();
    let mut record = Cedict::default();
    let mut complete = true;
    let ghost whole = line@;
    assert(whole.subrange(0, n as int) =~= whole);
    let first = find_char(line, 0, n, ' ');
    let mut from: usize = n;
    if first < n {
        let form = copy_range(line, 0, first);
        assert(form@ =~= before(whole, ' '));
        record.traditional_character = text_of(&form);
        from = first + 1;
    } else {
        complete = false;
    }
    let ghost second = past_traditional(whole);
    assert(second =~= whole.subrange(from as int, n as int));
    let next = find_char(line, from, n, ' ');
    let mut start: usize = from;
    if next < n - from {
        let form = copy_range(line, from, from + next);
        assert(form@ =~= before(second, ' '));
        record.simplify_character = text_of(&form);
        start = from + next + 1;
    } else {
        complete = false;
    }
    let ghost third = past_simplified(whole);
    assert(third =~= whole.subrange(start as int, n as int));
    let close = find_char(line, start, n, ']');
    if close < n - start {
        let reading = copy_range(line, start, start + close);
        assert(reading@ =~= before(third, ']'));
        let mut bracket: Vec<char> = Vec::new();
        bracket.push('[');
        assert(bracket@ =~= seq!['[']);
        let plain = remove_pattern(&reading, &bracket);
        record.pinyin = text_of(&plain);
        let rest = copy_range(line, start + close + 1, n);
        assert(rest@ =~= after(third, ']'));
        let meaning = trim_chars(&rest);
        record.english = text_of(&meaning);
    } else {
        complete = false;
    }
    (record, complete)
}

/// The translations in `english`: the pieces between its slashes that are
/// not empty, each without the white space around it.
pub open spec fn meanings(english: Seq<char>) -> Seq<Seq<char>>
    decreases english.len(),
    via meanings_end
{
    let piece = before(english, '/');
    let first = if piece.len() > 0 {
        seq![trimmed(piece)]
    } else {
        Seq::empty()
    };
    if has(english, '/') {
        first + meanings(after(english, '/'))
    } else {
        first
    }
}

#[via_fn]
proof fn meanings_end(english: Seq<char>) {
    lemma_index_of(english, '/');
}

impl Cedict {
    /// The translations of the entry, one by one.
    pub fn get_english_translations(&self) -> (list: Vec<String>)
        ensures
            texts(list@) == meanings(self.english@),
    {
        let chars = code_points(self.english.as_str());
        let n = chars.len();
        let mut list: Vec<String> = Vec::new();
        let mut from: usize = 0;
        let ghost whole = chars@;
        assert(whole.skip(0) =~= whole);
        assert(texts(list@) =~= Seq::empty());
        loop
            invariant_except_break
                from <= n,
                n == chars.len(),
                whole == chars@,
                texts(list@) + meanings(whole.skip(from as int)) == meanings(whole),
            ensures
                texts(list@) == meanings(whole),
            decreases n - from,
        {
            let ghost rest = whole.skip(from as int);
            assert(rest =~= whole.subrange(from as int, n as int));
            let ghost found = texts(list@);
            let at = find_char(&chars, from, n, '/');
            proof {
                lemma_index_of(rest, '/');
            }
            if at > 0 {
                let piece = copy_range(&chars, from, from + at);
                assert(piece@ =~= before(rest, '/'));
                let kept = trim_chars(&piece);
                list.push(text_of(&kept));
                assert(texts(list@) =~= found + seq![trimmed(before(rest, '/'))]);
            }
            if at < n - from {
                assert(after(rest, '/') =~= whole.skip(from + at + 1));
                assert(texts(list@) + meanings(whole.skip(from + at + 1)) =~= found
                    + meanings(rest));
                from = from + at + 1;
            } else {
                assert(texts(list@) =~= found + meanings(rest));
                break ;
            }
        }
        list
    }
}

/// The line that ends at a line feed, without the carriage return before it.
pub open spec fn without_return(line: Seq<char>) -> Seq<char> {
    if line.len() > 0 && line.last() == '\r' {
        line.drop_last()
    } else {
        line
    }
}

/// The lines of a text. A line ends at a line feed, which is no part of it,
/// nor is a carriage return just before the line feed. What follows the last
/// line feed is a line too, unless it is empty.
pub open spec fn lines_of(text: Seq<char>) -> Seq<Seq<char>>
    decreases text.len(),
    via lines_end
{
    if text.len() == 0 {
        Seq::empty()
    } else if has(text, '\n') {
        seq![without_return(before(text, '\n'))] + lines_of(after(text, '\n'))
    } else {
        seq![text]
    }
}

#[via_fn]
proof fn lines_end(text: Seq<char>) {
    lemma_index_of(text, '\n');
}

/// The views of the lines.
pub open spec fn line_views(lines: Seq<Vec<char>>) -> Seq<Seq<char>> {
    lines.map_values(|line: Vec<char>| line@)
}

/// Splits a text into its lines.
pub fn split_lines(chars: &Vec<char>) -> (lines: Vec<Vec<char>>)
    ensures
        line_views(lines@) == lines_of(chars@),
{
    let n = chars.len();
    let mut lines: Vec<Vec<char>> = Vec::new();
    let mut from: usize = 0;
    let ghost whole = chars@;
    assert(whole.skip(0) =~= whole);
    assert(line_views(lines@) =~= Seq::empty());
    while from < n
        invariant
            from <= n,
            n == chars.len(),
            whole == chars@,
            line_views(lines@) + lines_of(whole.skip(from as int)) == lines_of(whole),
        decreases n - from,
    {
        let ghost rest = whole.skip(from as int);
        assert(rest =~= whole.subrange(from as int, n as int));
        let ghost found = line_views(lines@);
        let at = find_char(chars, from, n, '\n');
        proof {
            lemma_index_of(rest, '\n');
        }
        if at < n - from {
            let mut to: usize = from + at;
            if at > 0 && chars[to - 1] == '\r' {
                to = to - 1;
            }
            let line = copy_range(chars, from, to);
            proof {
                let raw = before(rest, '\n');
                assert(raw =~= whole.subrange(from as int, from + at));
                if at > 0 {
                    assert(raw.last() == whole[from + at - 1]);
                }
                assert(line@ =~= without_return(raw));
                assert(after(rest, '\n') =~= whole.skip(from + at + 1));
            }
            lines.push(line);
            assert(line_views(lines@) =~= found + seq![without_return(before(rest, '\n'))]);
            assert(line_views(lines@) + lines_of(whole.skip(from + at + 1)) =~= found + lines_of(
                rest,
            ));
            from = from + at + 1;
        } else {
            let line = copy_range(chars, from, n);
            assert(line@ =~= rest);
            lines.push(line);
            assert(line_views(lines@) =~= found + seq![rest]);
            assert(whole.skip(n as int) =~= Seq::<char>::empty());
            assert(line_views(lines@) + lines_of(whole.skip(n as int)) =~= found + lines_of(rest));
            from = n;
        }
    }
    assert(lines_of(whole.skip(n as int)) =~= Seq::<Seq<char>>::empty());
    assert(line_views(lines@) + Seq::<Seq<char>>::empty() =~= line_views(lines@));
    lines
}

/// The lexicon of the lines, taken in order: every line that is an entry
/// and no comment gives a definition, which is stored under its traditional
/// form where that key is free, and merged into the definition stored there
/// where it is taken. Any other line is passed over.
pub open spec fn lexicon_of_lines(lines: Seq<Seq<char>>) -> Map<Seq<char>, DefinitionView>
    decreases lines.len(),
{
    if lines.len() == 0 {
        Map::empty()
    } else if is_comment(lines.last()) || !is_entry(lines.last()) {
        lexicon_of_lines(lines.drop_last())
    } else {
        inserted_or_merged(
            lexicon_of_lines(lines.drop_last()),
            entry_of(lines.last()).traditional_character,
            definition_of(entry_of(lines.last()), 0),
        )
    }
}

/// Words with their CEDICT records and counts, in the order in which each
/// was first found.
pub type SentencesDictionnary = OrderedMap<(Cedict, i128)>;

/// The map after one commit of `item` under its traditional form: the count
/// beside the stored record goes up by one, or, if there is none, `item` is
/// appended with count 1.
pub open spec fn with_record(
    entries: Seq<(Seq<char>, (CedictView, i128))>,
    item: CedictView,
) -> Seq<(Seq<char>, (CedictView, i128))> {
    match position(entries, item.traditional_character) {
        Some(i) => entries.update(
            i,
            (item.traditional_character, (entries[i].1.0, (entries[i].1.1 + 1) as i128)),
        ),
        None => entries.push((item.traditional_character, (item, 1i128))),
    }
}

/// Commits `item` into `map` under its traditional form.
pub fn insert_map_word(map: &mut SentencesDictionnary, item: Cedict)
    requires
        old(map).wf(),
        position(old(map)@, item.traditional_character@) matches Some(i) ==> old(map)@[i].1.1
            < i128::MAX,
    ensures
        final(map)@ == with_record(old(map)@, item@),
        final(map).wf(),
{
    proof {
        lemma_position(map@, item.traditional_character@);
    }
    match map.find(item.traditional_character.as_str()) {
        Some(i) => {
            let stored = map.value_at(i);
            let raised = (stored.0.duplicate(), stored.1 + 1);
            map.replace_at(i, raised);
        },
        None => {
            let key = item.traditional_character.clone();
            map.push_new(key, (item, 1));
        },
    }
}

/// The definition that a CEDICT record stands for.
pub open spec fn definition_of(record: CedictView, count: int) -> DefinitionView {
    DefinitionView {
        writing_method: record.traditional_character,
        second_writing_method: Some(record.simplify_character),
        pronunciations: seq![record.pinyin],
        translations: meanings(record.english),
        count,
        level: None,
    }
}

/// The meanings between slashes, as a CEDICT line holds them: nothing for no
/// meaning.
pub open spec fn slashed(meanings: Seq<Seq<char>>) -> Seq<char> {
    if meanings.len() == 0 {
        Seq::empty()
    } else {
        "/"@ + joined_by(meanings, "/"@) + "/"@
    }
}

/// The CEDICT record of a definition: its two written forms, its readings
/// with commas between them, and its meanings between slashes.
pub open spec fn record_of(definition: DefinitionView) -> CedictView {
    CedictView {
        traditional_character: definition.writing_method,
        simplify_character: match definition.second_writing_method {
            Some(form) => form,
            None => Seq::empty(),
        },
        pinyin: joined_by(definition.pronunciations, ","@),
        english: slashed(definition.translations),
    }
}

/// The definitions as CEDICT records, each beside its count.
pub open spec fn as_records(entries: Seq<(Seq<char>, DefinitionView)>) -> Seq<
    (Seq<char>, (CedictView, i128)),
> {
    entries.map_values(
        |e: (Seq<char>, DefinitionView)| (e.0, (record_of(e.1), e.1.count as i128)),
    )
}

impl Cedict {
    /// The CEDICT record of `definition`.
    pub fn from_definition(definition: &Definition) -> (record: Cedict)
        ensures
            record@ == record_of(definition@),
    {
        let mut english = String::new();
        if definition.translations.len() > 0 {
            english.append("/");
            english.append(join(&definition.translations, "/").as_str());
            english.append("/");
        }
        Cedict {
            traditional_character: definition.writing_method.clone(),
            simplify_character: match &definition.second_writing_method {
                Some(form) => form.clone(),
                None => String::new(),
            },
            pinyin: join(&definition.pronunciations, ","),
            english,
        }
    }

    /// A copy of the record.
    pub fn duplicate(&self) -> (copy: Cedict)
        ensures
            copy@ == self@,
    {
        Cedict {
            traditional_character: self.traditional_character.clone(),
            simplify_character: self.simplify_character.clone(),
            pinyin: self.pinyin.clone(),
            english: self.english.clone(),
        }
    }

    /// The record as a definition that carries `count`.
    pub fn to_definition(&self, count: i128) -> (definition: Definition)
        ensures
            definition@ == definition_of(self@, count as int),
    {
        let mut readings: Vec<String> = Vec::new();
        readings.push(self.pinyin.clone());
        assert(texts(readings@) =~= seq![self.pinyin@]);
        Definition {
            writing_method: self.traditional_character.clone(),
            second_writing_method: Some(self.simplify_character.clone()),
            pronunciations: readings,
            translations: self.get_english_translations(),
            count,
            level: None,
        }
    }
}

/// A dictionary read from the lines of a CEDICT file.
pub struct Dictionnary {
    dic: Lexicon<Definition>,
}

impl View for Dictionnary {
    type V = Map<Seq<char>, DefinitionView>;

    closed spec fn view(&self) -> Map<Seq<char>, DefinitionView> {
        self.dic@
    }
}

impl Clean for Dictionnary {

}

impl Dictionnary {
    /// A dictionary without words.
    pub fn new() -> (dictionnary: Dictionnary)
        ensures
            dictionnary@ == Map::<Seq<char>, DefinitionView>::empty(),
    {
        Dictionnary { dic: Lexicon::new() }
    }

    /// Tells whether a line of the file is to be read: `None` for a comment,
    /// the line itself for any other.
    pub fn verify_line(&self, line: String) -> (kept: Option<String>)
        ensures
            match kept {
                Some(content) => !is_comment(line@) && content == line,
                None => is_comment(line@),
            },
    {
        let chars = code_points(line.as_str());
        if comment_line(&chars) {
            None
        } else {
            Some(line)
        }
    }

    /// Replaces the words of the dictionary by those of the CEDICT file whose
    /// content is `content`. Lines for one traditional form are merged in the
    /// order in which they stand.
    pub fn load(&mut self, content: &str)
        ensures
            final(self)@ == lexicon_of_lines(lines_of(content@)),
    {
        let chars = code_points(content);
        let lines = split_lines(&chars);
        let mut dic: Lexicon<Definition> = Lexicon::new();
        let mut i: usize = 0;
        let ghost all = line_views(lines@);
        while i < lines.len()
            invariant
                i <= lines.len(),
                all == line_views(lines@),
                dic@ == lexicon_of_lines(all.subrange(0, i as int)),
            decreases lines.len() - i,
        {
            proof {
                let done = all.subrange(0, i + 1);
                assert(done.drop_last() =~= all.subrange(0, i as int));
                assert(done.last() == lines@[i as int]@);
            }
            if !comment_line(&lines[i]) {
                match read_line(&lines[i]) {
                    Some(record) => {
                        let key = record.traditional_character.clone();
                        dic.insert_or_merge(key, record.to_definition(0));
                    },
                    None => {},
                }
            }
            i += 1;
        }
        assert(all.subrange(0, lines@.len() as int) =~= all);
        self.dic = dic;
    }

    /// The record of `word`, if the dictionary has one.
    pub fn get(&self, word: &str) -> (record: Option<Cedict>)
        ensures
            match record {
                Some(r) => self@.contains_key(word@) && r@ == record_of(self@[word@]),
                None => !self@.contains_key(word@),
            },
    {
        match self.dic.get(word) {
            Some(definition) => Some(Cedict::from_definition(definition)),
            None => None,
        }
    }

    /// The definition of `word`, if the dictionary has one.
    pub fn definition(&self, word: &str) -> (found: Option<&Definition>)
        ensures
            match found {
                Some(d) => self@.contains_key(word@) && self@[word@] == d@,
                None => !self@.contains_key(word@),
            },
    {
        self.dic.get(word)
    }

    /// The words of the dictionary in `sentence`: what the scan of the
    /// sentence without punctuation commits, in the order of the first
    /// commit of each, with its definition and the number of its commits.
    pub open spec fn detected_in(&self, sentence: Seq<char>) -> Seq<(Seq<char>, DefinitionView)> {
        segmented::<Definition>(cleaned(sentence, punctuation_marks()), self@)
    }

    /// What `get_definitions_for_sentence` returns for `sentence`: the words
    /// found, each with its CEDICT record beside its count.
    pub open spec fn definitions_for(&self, sentence: Seq<char>) -> Seq<
        (Seq<char>, (CedictView, i128)),
    > {
        as_records(self.detected_in(sentence))
    }

    /// Finds the words of the dictionary in `sentence` by greedy longest match
    /// and counts them.
    pub fn get_definitions_for_sentence(&self, sentence: &str) -> (found: SentencesDictionnary)
        ensures
            found@ == self.definitions_for(sentence@),
            found.wf(),
            forall|i: int|
                0 <= i < found@.len() ==> self@.contains_key((#[trigger] found@[i]).0)
                    && found@[i].0.len() > 0 && is_window(
                    cleaned(sentence@, punctuation_marks()),
                    found@[i].0,
                ) && found@[i].1.0 == record_of(self@[found@[i].0]) && found@[i].1.1 >= 1,
    {
        let marks = punctuation();
        let chars = clean_chars(sentence, &marks);
        let words = segment(&chars, &self.dic);
        let ghost target = as_records(words@);
        proof {
            lemma_segmented::<Definition>(chars@, self@);
        }
        let mut found: SentencesDictionnary = OrderedMap::new();
        let mut i: usize = 0;
        while i < words.len()
            invariant
                i <= words@.len(),
                words.wf(),
                target == as_records(words@),
                found.wf(),
                found@ == target.subrange(0, i as int),
                forall|j: int| 0 <= j < words@.len() ==> (#[trigger] words@[j]).1.count >= 1,
                forall|j: int| 0 <= j < i ==> (#[trigger] found@[j]).1.1 >= 1,
            decreases words@.len() - i,
        {
            let key = words.key_at(i);
            let definition = words.value_at(i);
            assert(words@[i as int].1.count >= 1);
            proof {
                lemma_position(found@, key@);
                if position(found@, key@) is Some {
                    let j = position(found@, key@)->0;
                    assert(found@[j].0 == words@[j].0);
                }
            }
            found.push_new(key.clone(), (Cedict::from_definition(definition), definition.count));
            assert(found@ =~= target.subrange(0, i + 1));
            i += 1;
        }
        assert(target.subrange(0, words@.len() as int) =~= target);
        proof {
            assert forall|i: int| 0 <= i < found@.len() implies self@.contains_key(
                (#[trigger] found@[i]).0,
            ) && found@[i].0.len() > 0 && is_window(chars@, found@[i].0) && found@[i].1.0
                == record_of(self@[found@[i].0]) && found@[i].1.1 >= 1 by {
                assert(found@[i] == target[i]);
                let entry = words@[i];
                assert(entry == segmented::<Definition>(chars@, self@)[i]);
                assert(found@[i].0 == entry.0);
                assert(found@[i].1.0 == record_of(entry.1));
                assert(entry.1 == Definition::recount(self@[entry.0], entry.1.count));
            }
        }
        found
    }

    /// The words of the dictionary found in `sentence`, as definitions. There
    /// is always a result; it is empty where nothing was found.
    pub fn get_list_detected_words(&self, sentence: &str) -> (found: Option<DefinitionList>)
        ensures
            found matches Some(words) && words@ == self.detected_in(sentence@) && words.wf()
                && forall|i: int|
                0 <= i < words@.len() ==> self@.contains_key((#[trigger] words@[i]).0)
                    && words@[i].0.len() > 0 && is_window(
                    cleaned(sentence@, punctuation_marks()),
                    words@[i].0,
                ) && words@[i].1.count >= 1,
    {
        let marks = punctuation();
        let chars = clean_chars(sentence, &marks);
        Some(segment(&chars, &self.dic))
    }
}

/// The counts that stand beside the records.
pub open spec fn record_counts(entries: Seq<(Seq<char>, (CedictView, i128))>) -> Seq<int> {
    entries.map_values(|e: (Seq<char>, (CedictView, i128))| e.1.1 as int)
}

impl Ops<(Cedict, i128)> for SentencesDictionnary {
    open spec fn listable(&self) -> bool {
        self.wf()
    }

    open spec fn ordered(&self) -> Seq<(CedictView, i128)> {
        ranking(record_counts(self@), self@.len()).map_values(|p: int| self@[p].1)
    }

    fn get_ordered_characters(&self) -> (list: Vec<(Cedict, i128)>) {
        let mut counts: Vec<i128> = Vec::new();
        let mut i: usize = 0;
        while i < self.len()
            invariant
                i <= self@.len(),
                counts@.len() == i,
                forall|j: int| 0 <= j < i ==> counts@[j] == (#[trigger] self@[j]).1.1,
            decreases self@.len() - i,
        {
            counts.push(self.value_at(i).1);
            i += 1;
        }
        assert(as_ints(counts@) =~= record_counts(self@));
        let order = rank_order(&counts);
        let ghost target = self.ordered();
        let mut list: Vec<(Cedict, i128)> = Vec::new();
        let mut p: usize = 0;
        while p < order.len()
            invariant
                p <= order.len(),
                order.len() == self@.len(),
                is_ranking(as_positions(order@), record_counts(self@), self@.len() as int),
                as_positions(order@) == ranking(record_counts(self@), self@.len()),
                target == self.ordered(),
                list@.len() == p,
                list@.map_values(|item: (Cedict, i128)| item@) == target.subrange(0, p as int),
            decreases order.len() - p,
        {
            let at = order[p];
            assert(as_positions(order@)[p as int] == at);
            let pair = self.value_at(at);
            let ghost before = list@;
            list.push((pair.0.duplicate(), pair.1));
            proof {
                let views = list@.map_values(|item: (Cedict, i128)| item@);
                let wanted = target.subrange(0, p + 1);
                assert(views.len() == wanted.len());
                assert forall|q: int| 0 <= q < wanted.len() implies views[q] == wanted[q] by {
                    if q < p {
                        assert(list@[q] == before[q]);
                        assert(before.map_values(|item: (Cedict, i128)| item@)[q]
                            == target.subrange(0, p as int)[q]);
                    }
                }
                assert(views =~= wanted);
            }
            p += 1;
        }
        assert(target.subrange(0, order@.len() as int) =~= target);
        list
    }
}

} // verus!
