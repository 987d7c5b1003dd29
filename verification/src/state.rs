//! The application state: input text, word counts and theme selection,
//! updated by a pure event handler.

use vstd::prelude::*;
use vstd::string::StringExecFns;
use crate::normalize::{normalize, normalize_spec};
use crate::tokenize::{split_words, words};
use crate::tally::{WordCounts, map_of, total_of, tally_of, tally_words};

verus! {

/// A color, each channel given in hundredths of full intensity (0 to 100).
#[derive(Clone, Copy, Debug, PartialEq, Eq, Structural)]
pub struct Rgb {
    pub red: u8,
    pub green: u8,
    pub blue: u8,
}

/// The named colors that make up a visual theme.
#[derive(Clone, Copy, Debug, PartialEq, Eq, Structural)]
pub struct Palette {
    pub background: Rgb,
    pub text: Rgb,
    pub primary: Rgb,
    pub success: Rgb,
    pub danger: Rgb,
}

/// The theme a user can select.
#[derive(Clone, Copy, Debug, PartialEq, Eq, Structural)]
pub enum ThemeType {
    Dark,
    Light,
    Custom,
}

/// The palette a theme selection activates: one of the toolkit's two
/// built-in palettes, or a fixed palette of this library's own.
#[derive(Clone, Copy, Debug, PartialEq, Eq, Structural)]
pub enum PaletteChoice {
    BuiltinLight,
    BuiltinDark,
    Fixed(Palette),
}

/// The fixed palette of the custom theme: a near-black blue-gray background,
/// near-white text, red primary and danger colors, and a green success color.
pub open spec fn custom_palette_spec() -> Palette {
    Palette {
        background: Rgb { red: 12, green: 13, blue: 16 },
        text: Rgb { red: 90, green: 90, blue: 90 },
        primary: Rgb { red: 100, green: 20, blue: 20 },
        success: Rgb { red: 0, green: 100, blue: 0 },
        danger: Rgb { red: 100, green: 0, blue: 0 },
    }
}

/// Builds the fixed palette of the custom theme.
pub fn custom_palette() -> (r: Palette)
    ensures
        r == custom_palette_spec(),
{
    Palette {
        background: Rgb { red: 12, green: 13, blue: 16 },
        text: Rgb { red: 90, green: 90, blue: 90 },
        primary: Rgb { red: 100, green: 20, blue: 20 },
        success: Rgb { red: 0, green: 100, blue: 0 },
        danger: Rgb { red: 100, green: 0, blue: 0 },
    }
}

/// The palette each theme selection activates.
pub open spec fn palette_of_spec(t: ThemeType) -> PaletteChoice {
    match t {
        ThemeType::Light => PaletteChoice::BuiltinLight,
        ThemeType::Dark => PaletteChoice::BuiltinDark,
        ThemeType::Custom => PaletteChoice::Fixed(custom_palette_spec()),
    }
}

/// Maps a theme selection to the palette it activates.
pub fn palette_of(t: ThemeType) -> (r: PaletteChoice)
    ensures
        r == palette_of_spec(t),
{
    match t {
        ThemeType::Light => PaletteChoice::BuiltinLight,
        ThemeType::Dark => PaletteChoice::BuiltinDark,
        ThemeType::Custom => PaletteChoice::Fixed(custom_palette()),
    }
}

impl Default for ThemeType {
    /// The theme every run starts with.
    fn default() -> (r: ThemeType)
        ensures
            r == ThemeType::Light,
    {
        ThemeType::Light
    }
}

/// An event the application reacts to: a calculation trigger, a keystroke
/// replacing the input text, or a theme selection.
#[derive(Clone, Debug)]
pub enum Message {
    Calculate,
    TextInputChanged(String),
    ThemeChanged(ThemeType),
}

/// The whole application state: the text being edited, the word counts of
/// the last calculation, and the selected theme.
pub struct Application {
    pub input: String,
    pub counts: WordCounts,
    pub theme: ThemeType,
}

impl Application {
    /// The state is well formed when its tally never repeats a word.
    pub open spec fn wf(&self) -> bool {
        self.counts.wf()
    }

    /// A fresh state: empty input, an empty tally, the light theme.
    pub fn new() -> (r: Application)
        ensures
            r.wf(),
            r.input@ == Seq::<char>::empty(),
            r.counts@ == Seq::<(Seq<char>, nat)>::empty(),
            r.theme == ThemeType::Light,
    {
        Application {
            input: String::new(),
            counts: WordCounts::new(),
            theme: ThemeType::Light,
        }
    }

    /// The window title.
    pub fn title(&self) -> (r: String)
        ensures
            r@ == "Word Counter"@,
    {
        String::from_str("Word Counter")
    }

    /// The selected theme.
    pub fn theme(&self) -> (r: ThemeType)
        ensures
            r == self.theme,
    {
        self.theme
    }

    /// Handles one event.  A keystroke replaces the input text wholesale; a
    /// theme selection replaces the theme; the calculation trigger overwrites
    /// the input with its normalized form and recounts the words of exactly
    /// that normalized text.  Nothing else changes in either case.
    pub fn update(&mut self, message: Message)
        requires
            old(self).wf(),
        ensures
            final(self).wf(),
            match message {
                Message::Calculate => {
                    &&& final(self).input@ == normalize_spec(old(self).input@)
                    &&& map_of(final(self).counts@) == tally_of(
                        words(normalize_spec(old(self).input@)),
                    )
                    &&& total_of(final(self).counts@) == words(
                        normalize_spec(old(self).input@),
                    ).len()
                    &&& final(self).theme == old(self).theme
                },
                Message::TextInputChanged(s) => {
                    &&& final(self).input@ == s@
                    &&& final(self).counts@ == old(self).counts@
                    &&& final(self).theme == old(self).theme
                },
                Message::ThemeChanged(t) => {
                    &&& final(self).theme == t
                    &&& final(self).input@ == old(self).input@
                    &&& final(self).counts@ == old(self).counts@
                },
            },
    {
        match message {
            Message::ThemeChanged(t) => {
                self.theme = t;
            },
            Message::Calculate => {
                let normalized = normalize(self.input.as_str());
                let ws = split_words(normalized.as_str());
                self.counts = tally_words(&ws);
                self.input = normalized;
            },
            Message::TextInputChanged(s) => {
                self.input = s;
            },
        }
    }
}

impl Default for Application {
    /// A fresh state, exactly as `Application::new` builds it.
    fn default() -> (r: Application)
        ensures
            r.wf(),
            r.input@ == Seq::<char>::empty(),
            r.counts@ == Seq::<(Seq<char>, nat)>::empty(),
            r.theme == ThemeType::Light,
    {
        Application::new()
    }
}

} // verus!
