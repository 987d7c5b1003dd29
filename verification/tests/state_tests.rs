use word_counter::state::{
    custom_palette, palette_of, Application, Message, Palette, PaletteChoice, Rgb, ThemeType,
};

fn count_of(app: &Application, w: &str) -> Option<usize> {
    app.counts.get(&String::from(w))
}

#[test]
fn fresh_state_is_empty_and_light() {
    let app = Application::new();
    assert_eq!(app.input, "");
    assert_eq!(app.counts.len(), 0);
    assert_eq!(app.theme(), ThemeType::Light);

    let by_default = Application::default();
    assert_eq!(by_default.input, "");
    assert_eq!(by_default.counts.len(), 0);
    assert_eq!(by_default.theme(), ThemeType::Light);

    assert_eq!(ThemeType::default(), ThemeType::Light);
}

#[test]
fn title_is_fixed() {
    let app = Application::new();
    assert_eq!(app.title(), "Word Counter");
}

#[test]
fn keystroke_replaces_input_wholesale() {
    let mut app = Application::new();
    app.update(Message::TextInputChanged(String::from("Hello")));
    assert_eq!(app.input, "Hello");
    app.update(Message::TextInputChanged(String::from("Bye")));
    assert_eq!(app.input, "Bye");
    assert_eq!(app.counts.len(), 0);
    assert_eq!(app.theme(), ThemeType::Light);
}

#[test]
fn calculate_normalizes_input_and_counts_words() {
    let mut app = Application::new();
    app.update(Message::TextInputChanged(String::from("Hello, hello! HELLO?")));
    app.update(Message::Calculate);
    assert_eq!(app.input, "hello hello hello");
    assert_eq!(app.counts.len(), 1);
    assert_eq!(count_of(&app, "hello"), Some(3));
}

#[test]
fn calculate_folds_case_beyond_ascii() {
    let mut app = Application::new();
    app.update(Message::TextInputChanged(String::from("École! école?")));
    app.update(Message::Calculate);
    assert_eq!(app.input, "école école");
    assert_eq!(app.counts.len(), 1);
    assert_eq!(count_of(&app, "école"), Some(2));
}

#[test]
fn calculate_on_empty_input_gives_empty_mapping() {
    let mut app = Application::new();
    app.update(Message::Calculate);
    assert_eq!(app.input, "");
    assert_eq!(app.counts.len(), 0);
}

#[test]
fn recalculation_replaces_the_whole_tally() {
    let mut app = Application::new();
    app.update(Message::TextInputChanged(String::from("a b a c b a")));
    app.update(Message::Calculate);
    assert_eq!(count_of(&app, "a"), Some(3));
    assert_eq!(count_of(&app, "b"), Some(2));
    assert_eq!(count_of(&app, "c"), Some(1));
    app.update(Message::TextInputChanged(String::from("d")));
    app.update(Message::Calculate);
    assert_eq!(app.counts.len(), 1);
    assert_eq!(count_of(&app, "a"), None);
    assert_eq!(count_of(&app, "d"), Some(1));
}

#[test]
fn theme_switch_activates_matching_palette_and_changes_nothing_else() {
    let mut app = Application::new();
    app.update(Message::TextInputChanged(String::from("x y x")));
    app.update(Message::Calculate);

    for theme in [ThemeType::Light, ThemeType::Dark, ThemeType::Custom] {
        app.update(Message::ThemeChanged(theme));
        assert_eq!(app.theme(), theme);
        let expected = match theme {
            ThemeType::Light => PaletteChoice::BuiltinLight,
            ThemeType::Dark => PaletteChoice::BuiltinDark,
            ThemeType::Custom => PaletteChoice::Fixed(custom_palette()),
        };
        assert_eq!(palette_of(theme), expected);
        assert_eq!(app.input, "x y x");
        assert_eq!(app.counts.len(), 2);
        assert_eq!(count_of(&app, "x"), Some(2));
        assert_eq!(count_of(&app, "y"), Some(1));
    }
}

#[test]
fn custom_palette_holds_the_fixed_colors() {
    let p: Palette = custom_palette();
    assert_eq!(p.background, Rgb { red: 12, green: 13, blue: 16 });
    assert_eq!(p.text, Rgb { red: 90, green: 90, blue: 90 });
    assert_eq!(p.primary, Rgb { red: 100, green: 20, blue: 20 });
    assert_eq!(p.success, Rgb { red: 0, green: 100, blue: 0 });
    assert_eq!(p.danger, Rgb { red: 100, green: 0, blue: 0 });
}
