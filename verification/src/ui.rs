//! What a front end keeps and how it answers to what its user does. The
//! front end draws and listens; what a message changes is decided here.

use vstd::prelude::*;
use vstd::string::StringExecFns;

verus! {

/// A language that a front end offers for segmentation.
#[derive(Debug, PartialEq, Eq, Clone, Copy, Structural)]
pub enum Language {
    TraditionalChinese,
}

impl Language {
    /// The name of the language as shown to the user.
    pub fn label(&self) -> (text: String)
        ensures
            text@ == "Traditional Chinese"@,
    {
        String::from_str("Traditional Chinese")
    }
}

/// A language by the name that a front end keeps it under.
#[derive(Debug, PartialEq, Eq, Clone, Copy, Structural)]
pub enum SupportedLanguage {
    Chinese,
}

impl SupportedLanguage {
    /// The language of the given name; Chinese for every name, as long as
    /// no other language is offered.
    pub fn from_name(lang: &str) -> (language: SupportedLanguage)
        ensures
            language == SupportedLanguage::Chinese,
    {
        SupportedLanguage::Chinese
    }

    /// The name of the language.
    pub fn name(&self) -> (text: String)
        ensures
            text@ == "chinese"@,
    {
        String::from_str("chinese")
    }
}

/// What the user of a front end did.
#[derive(Debug, Clone)]
pub enum Message {
    /// A language was picked.
    LanguageSelected(Language),
    /// The button that asks for the words was pressed.
    GenerateBtnPressed,
    /// The button that asks for an export was pressed.
    ExportBtnPressed,
    /// The text in the input field changed.
    OnInput(String),
}

/// What the front end is to do after a message, beyond drawing itself anew.
#[derive(Debug)]
pub enum Effect {
    /// Nothing.
    Nothing,
    /// Write the line to the console.
    Announce(String),
}

/// What a front end keeps between two messages.
#[derive(Debug)]
pub struct App {
    /// The text in the input field.
    pub input_text: String,
    /// The words on display.
    pub words: Vec<String>,
    /// The language that was picked, if any.
    pub selected_language: Option<Language>,
}

impl App {
    /// The state in which a front end starts: no text, no words, no language.
    pub fn new() -> (app: App)
        ensures
            app.input_text@.len() == 0,
            app.words@.len() == 0,
            app.selected_language is None,
    {
        App { input_text: String::new(), words: Vec::new(), selected_language: None }
    }

    /// The title of the window.
    pub fn title(&self) -> (text: String)
        ensures
            text@ == "Lunette"@,
    {
        String::from_str("Lunette")
    }

    /// Takes a message in. A picked language and a changed text are kept; a
    /// request for the words puts one more word on display; a request for an
    /// export is announced and changes nothing.
    pub fn update(&mut self, message: Message) -> (effect: Effect)
        ensures
            match message {
                Message::LanguageSelected(language) => {
                    &&& final(self).selected_language == Some(language)
                    &&& final(self).input_text == old(self).input_text
                    &&& final(self).words == old(self).words
                    &&& effect is Nothing
                },
                Message::GenerateBtnPressed => {
                    &&& final(self).selected_language == old(self).selected_language
                    &&& final(self).input_text == old(self).input_text
                    &&& final(self).words@.len() == old(self).words@.len() + 1
                    &&& final(self).words@.drop_last() == old(self).words@
                    &&& final(self).words@.last()@ == "foo"@
                    &&& effect is Nothing
                },
                Message::ExportBtnPressed => {
                    &&& *final(self) == *old(self)
                    &&& effect matches Effect::Announce(line) && line@ == "export pressed"@
                },
                Message::OnInput(content) => {
                    &&& final(self).selected_language == old(self).selected_language
                    &&& final(self).input_text == content
                    &&& final(self).words == old(self).words
                    &&& effect is Nothing
                },
            },
    {
        match message {
            Message::LanguageSelected(language) => {
                self.selected_language = Some(language);
                Effect::Nothing
            },
            Message::GenerateBtnPressed => {
                self.words.push(String::from_str("foo"));
                assert(self.words@.drop_last() =~= old(self).words@);
                Effect::Nothing
            },
            Message::ExportBtnPressed => Effect::Announce(String::from_str("export pressed")),
            Message::OnInput(content) => {
                self.input_text = content;
                Effect::Nothing
            },
        }
    }
}

} // verus!
