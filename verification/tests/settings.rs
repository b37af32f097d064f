use rdict::config::{AppConfig, DisplaySettings, WindowSettings};
use rdict::hotkey::{
    add_part, key_code_for, parse_hotkey, parse_key_code, split_at_each, Hotkey, HotkeyParts,
    KeyCode, Modifiers,
};
use std::path::PathBuf;

#[test]
fn the_defaults_are_those_of_a_fresh_installation() {
    let config = AppConfig::default();
    assert_eq!(config.dictionary_path, PathBuf::from(""));
    assert!(config.mdx_file.is_none());
    assert!(config.mdd_file.is_none());
    assert!(config.css_file.is_none());
    assert_eq!(config.hotkey, "Alt+M");
    assert!(!config.clipboard_monitor);
    assert_eq!(config.display.font_family, "Segoe UI");
    assert_eq!(config.display.font_size, "14");
    assert_eq!(config.display.line_height, "1.6");
    assert_eq!(config.window.width, 600);
    assert_eq!(config.window.height, 52);
    assert_eq!(config.window.x, None);
    assert_eq!(config.window.y, None);
    let display = DisplaySettings::default();
    assert_eq!(display.font_family, "Segoe UI");
    let window = WindowSettings::default();
    assert_eq!((window.width, window.height), (600, 52));
}

#[test]
fn the_configuration_file_lies_in_the_configuration_directory() {
    let dir = AppConfig::config_dir();
    let file = AppConfig::config_file();
    assert_eq!(dir.file_name().unwrap(), "rdict");
    assert_eq!(file.file_name().unwrap(), "config.json");
    assert_eq!(file.parent().unwrap(), dir.as_path());
    assert_eq!(file, AppConfig::config_dir().join("config.json"));
}

#[test]
fn the_configuration_directory_lies_below_the_one_that_the_platform_names() {
    assert_eq!(
        AppConfig::config_dir_below(Some(PathBuf::from("home").join("alice"))),
        PathBuf::from("home").join("alice").join("rdict")
    );
    assert_eq!(AppConfig::config_dir_below(None), PathBuf::from(".").join("rdict"));
    assert_eq!(
        AppConfig::config_dir_below(Some(PathBuf::from(""))),
        PathBuf::from("rdict")
    );
    let expected = AppConfig::config_dir_below(dirs::config_dir());
    assert_eq!(AppConfig::config_dir(), expected);
    assert_eq!(AppConfig::config_file(), expected.join("config.json"));
}

#[test]
fn dictionary_files_are_told_by_their_extension() {
    let mut config = AppConfig::default();
    config.hotkey = "Ctrl+D".to_string();
    config.css_file = Some(PathBuf::from("old.css"));
    let entries = vec![
        PathBuf::from("dict/readme.txt"),
        PathBuf::from("dict/a.mdx"),
        PathBuf::from("dict/a.mdd"),
        PathBuf::from("dict/b.mdx"),
        PathBuf::from("dict/.mdd"),
        PathBuf::from("dict/c.MDX"),
        PathBuf::from("dict/mdx"),
        PathBuf::from("dict/d.mdx.bak"),
    ];
    config.update_dictionary_path(PathBuf::from("dict"), &entries);
    assert_eq!(config.dictionary_path, PathBuf::from("dict"));
    assert_eq!(config.mdx_file, Some(PathBuf::from("dict/b.mdx")));
    assert_eq!(config.mdd_file, Some(PathBuf::from("dict/a.mdd")));
    assert_eq!(config.css_file, Some(PathBuf::from("old.css")));
    assert_eq!(config.hotkey, "Ctrl+D");
    config.update_dictionary_path(PathBuf::from("other"), &Vec::new());
    assert_eq!(config.dictionary_path, PathBuf::from("other"));
    assert_eq!(config.mdx_file, Some(PathBuf::from("dict/b.mdx")));
    config.update_dictionary_path(PathBuf::from("third"), &vec![PathBuf::from("x/style.css")]);
    assert_eq!(config.css_file, Some(PathBuf::from("x/style.css")));
}

#[test]
fn a_listing_is_applied_entry_by_entry() {
    let mut config = AppConfig::default();
    let listing = vec![
        (PathBuf::from("one"), Some("mdx".to_string())),
        (PathBuf::from("two"), None),
        (PathBuf::from("three"), Some("css".to_string())),
        (PathBuf::from("four"), Some("mdx".to_string())),
        (PathBuf::from("five"), Some("Mdd".to_string())),
        (PathBuf::from("six"), Some("".to_string())),
    ];
    config.apply_listing(PathBuf::from("base"), &listing);
    assert_eq!(config.dictionary_path, PathBuf::from("base"));
    assert_eq!(config.mdx_file, Some(PathBuf::from("four")));
    assert_eq!(config.mdd_file, None);
    assert_eq!(config.css_file, Some(PathBuf::from("three")));
    config.note_file(PathBuf::from("seven"), Some("mdd".to_string()));
    assert_eq!(config.mdd_file, Some(PathBuf::from("seven")));
    config.note_file(PathBuf::from("eight"), None);
    config.note_file(PathBuf::from("nine"), Some("txt".to_string()));
    assert_eq!(config.mdx_file, Some(PathBuf::from("four")));
    assert_eq!(config.mdd_file, Some(PathBuf::from("seven")));
    assert_eq!(config.css_file, Some(PathBuf::from("three")));
}

#[test]
fn display_settings_take_over_what_is_given() {
    let mut display = DisplaySettings::default();
    display.apply(None, Some("16".to_string()), None);
    assert_eq!(display.font_family, "Segoe UI");
    assert_eq!(display.font_size, "16");
    assert_eq!(display.line_height, "1.6");
    display.apply(Some("Noto Sans".to_string()), None, Some("2".to_string()));
    assert_eq!(display.font_family, "Noto Sans");
    assert_eq!(display.font_size, "16");
    assert_eq!(display.line_height, "2");
    display.apply(None, None, None);
    assert_eq!(display.font_family, "Noto Sans");
}

const NONE: Modifiers = Modifiers { control: false, meta: false, alt: false, shift: false };

#[test]
fn key_names_stand_for_keys() {
    assert_eq!(parse_key_code("a"), Some(KeyCode::KeyA));
    assert_eq!(parse_key_code("A"), Some(KeyCode::KeyA));
    assert_eq!(parse_key_code("m"), Some(KeyCode::KeyM));
    assert_eq!(parse_key_code("Z"), Some(KeyCode::KeyZ));
    assert_eq!(parse_key_code("0"), Some(KeyCode::Digit0));
    assert_eq!(parse_key_code("9"), Some(KeyCode::Digit9));
    assert_eq!(parse_key_code("f1"), Some(KeyCode::F1));
    assert_eq!(parse_key_code("F10"), Some(KeyCode::F10));
    assert_eq!(parse_key_code("F12"), Some(KeyCode::F12));
    assert_eq!(parse_key_code("F13"), None);
    assert_eq!(parse_key_code("space"), Some(KeyCode::Space));
    assert_eq!(parse_key_code("Escape"), Some(KeyCode::Escape));
    assert_eq!(parse_key_code("ENTER"), Some(KeyCode::Enter));
    assert_eq!(parse_key_code("tab"), Some(KeyCode::Tab));
    assert_eq!(parse_key_code(""), None);
    assert_eq!(parse_key_code(" a"), None);
    assert_eq!(parse_key_code("AA"), None);
    assert_eq!(parse_key_code("esc"), None);
    assert_eq!(key_code_for(&"a".to_string()), None);
    assert_eq!(key_code_for(&"Q".to_string()), Some(KeyCode::KeyQ));
    assert_eq!(key_code_for(&"5".to_string()), Some(KeyCode::Digit5));
    assert_eq!(key_code_for(&"F7".to_string()), Some(KeyCode::F7));
}

#[test]
fn a_text_is_split_at_each_separator() {
    assert_eq!(split_at_each("a+b+c", '+'), vec!["a", "b", "c"]);
    assert_eq!(split_at_each("abc", '+'), vec!["abc"]);
    assert_eq!(split_at_each("", '+'), vec![""]);
    assert_eq!(split_at_each("+", '+'), vec!["", ""]);
    assert_eq!(split_at_each("a++b+", '+'), vec!["a", "", "b", ""]);
    assert_eq!(split_at_each(" Ctrl + \u{e9} ", '+'), vec![" Ctrl ", " \u{e9} "]);
    for text in ["a+b+c", "", "+", "a++b+", "x", "++"] {
        let expected: Vec<String> = text.split('+').map(|p| p.to_string()).collect();
        assert_eq!(split_at_each(text, '+'), expected);
    }
}

#[test]
fn hotkeys_are_read_part_by_part() {
    assert_eq!(
        parse_hotkey("Alt+M"),
        Some(Hotkey { modifiers: Modifiers { alt: true, ..NONE }, key: KeyCode::KeyM })
    );
    assert_eq!(
        parse_hotkey(" ctrl + SHIFT + f5 "),
        Some(Hotkey {
            modifiers: Modifiers { control: true, shift: true, ..NONE },
            key: KeyCode::F5
        })
    );
    assert_eq!(
        parse_hotkey("Cmd+Option+Space"),
        Some(Hotkey { modifiers: Modifiers { meta: true, alt: true, ..NONE }, key: KeyCode::Space })
    );
    assert_eq!(
        parse_hotkey("control+command+meta+alt+shift+1"),
        Some(Hotkey {
            modifiers: Modifiers { control: true, meta: true, alt: true, shift: true },
            key: KeyCode::Digit1
        })
    );
    assert_eq!(parse_hotkey("K"), Some(Hotkey { modifiers: NONE, key: KeyCode::KeyK }));
    // The last part that is no modifier names the key.
    assert_eq!(
        parse_hotkey("A+Ctrl+B"),
        Some(Hotkey { modifiers: Modifiers { control: true, ..NONE }, key: KeyCode::KeyB })
    );
    assert_eq!(
        parse_hotkey("nothing+B+Shift"),
        Some(Hotkey { modifiers: Modifiers { shift: true, ..NONE }, key: KeyCode::KeyB })
    );
    assert_eq!(parse_hotkey("B+nothing"), None);
    assert_eq!(parse_hotkey("Ctrl+"), None);
    assert_eq!(parse_hotkey("Ctrl"), None);
    assert_eq!(parse_hotkey(""), None);
    assert_eq!(parse_hotkey("Ctrl+Alt"), None);
    assert_eq!(parse_hotkey("Ctrl-K"), None);
    let start = HotkeyParts { modifiers: NONE, key: Some(KeyCode::KeyA) };
    assert_eq!(
        add_part(start, &"shift".to_string(), Some(KeyCode::KeyS)),
        HotkeyParts { modifiers: Modifiers { shift: true, ..NONE }, key: Some(KeyCode::KeyA) }
    );
    assert_eq!(
        add_part(start, &"s".to_string(), Some(KeyCode::KeyS)),
        HotkeyParts { modifiers: NONE, key: Some(KeyCode::KeyS) }
    );
    assert_eq!(
        add_part(start, &"Shift".to_string(), None),
        HotkeyParts { modifiers: NONE, key: None }
    );
}
