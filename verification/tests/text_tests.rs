use dicom_tagger::help;
use dicom_tagger::keymap::{command_for_key, Command, KeyCode, KeyInput, Mode};
use dicom_tagger::text::{format_value, hex4, len_display, pad_to, str_eq, u32_dec, RawValue};

#[test]
fn test_hex4_formatting() {
    assert_eq!(hex4(0x0008), "0008");
    assert_eq!(hex4(0x7fe0), "7fe0");
    assert_eq!(hex4(0xffff), "ffff");
    assert_eq!(hex4(0), "0000");
    assert_eq!(hex4(0x1a2b), "1a2b");
}

#[test]
fn test_decimal_formatting() {
    assert_eq!(u32_dec(0), "0");
    assert_eq!(u32_dec(7), "7");
    assert_eq!(u32_dec(10), "10");
    assert_eq!(u32_dec(4294967295), "4294967295");
}

#[test]
fn test_len_display() {
    assert_eq!(len_display(0), "0");
    assert_eq!(len_display(1234), "1234");
    assert_eq!(len_display(0xffff_ffff), "U/L");
}

#[test]
fn test_pad_to() {
    assert_eq!(pad_to("ab", 5), "ab   ");
    assert_eq!(pad_to("abcdef", 3), "abcdef");
    assert_eq!(pad_to("", 2), "  ");
    assert_eq!(pad_to("xy", 2), "xy");
}

#[test]
fn test_str_eq() {
    assert!(str_eq("", ""));
    assert!(str_eq("abc", "abc"));
    assert!(!str_eq("abc", "abd"));
    assert!(!str_eq("abc", "ab"));
}

#[test]
fn test_format_value_binary_vr() {
    let v = RawValue::Primitive("anything".to_string());
    assert_eq!(format_value("OB", &v), "<binary data>");
    assert_eq!(format_value("OW", &v), "<binary data>");
    assert_eq!(format_value("SH", &v), "anything");
}

#[test]
fn test_format_value_truncates_long_text() {
    let long: String = "x".repeat(100);
    let formatted = format_value("LO", &RawValue::Primitive(long.clone()));
    assert_eq!(formatted.len(), 80);
    assert_eq!(formatted, format!("{}...", &long[..77]));
    let exactly_80: String = "y".repeat(80);
    assert_eq!(format_value("LO", &RawValue::Primitive(exactly_80.clone())), exactly_80);
}

#[test]
fn test_format_value_sequences() {
    assert_eq!(format_value("SQ", &RawValue::Sequence(4)), "sequence with 4 items");
    assert_eq!(format_value("OB", &RawValue::PixelSequence), "pixel sequence");
}

#[test]
fn test_help_lines_and_window() {
    let lines = help::help_text();
    assert_eq!(lines.len(), help::num_help_text_lines());
    assert_eq!(lines[0], "Navigation:");
    assert!(help::raw_help_text().starts_with("Navigation:\n"));
    assert_eq!(help::max_help_scroll(), lines.len() - 3);

    let window = help::help_window(2, 3);
    assert_eq!(window, lines[2..5].to_vec());
    let tail = help::help_window(lines.len() - 1, 10);
    assert_eq!(tail.len(), 1);
    let past_end = help::help_window(lines.len() + 5, 4);
    assert!(past_end.is_empty());
}

fn key(code: KeyCode) -> KeyInput {
    KeyInput { code, shift: false, ctrl: false }
}

fn ctrl(code: KeyCode) -> KeyInput {
    KeyInput { code, shift: false, ctrl: true }
}

fn shift(code: KeyCode) -> KeyInput {
    KeyInput { code, shift: true, ctrl: false }
}

#[test]
fn test_command_for_key_browse() {
    assert_eq!(command_for_key(Mode::Browse, key(KeyCode::Character('q'))), Command::Quit);
    assert_eq!(command_for_key(Mode::Browse, key(KeyCode::Esc)), Command::Quit);
    assert_eq!(
        command_for_key(Mode::Browse, key(KeyCode::Character('2'))),
        Command::SortByTag(0)
    );
    assert_eq!(
        command_for_key(Mode::Browse, key(KeyCode::Character('3'))),
        Command::SortByTag(1)
    );
    assert_eq!(command_for_key(Mode::Browse, key(KeyCode::Down)), Command::MoveDown);
    assert_eq!(
        command_for_key(Mode::Browse, shift(KeyCode::Down)),
        Command::MoveToNextSibling
    );
    assert_eq!(
        command_for_key(Mode::Browse, ctrl(KeyCode::Character('d'))),
        Command::HalfPageDown
    );
    assert_eq!(
        command_for_key(Mode::Browse, key(KeyCode::Character('d'))),
        Command::Nothing
    );
    assert_eq!(
        command_for_key(Mode::Browse, key(KeyCode::Character(' '))),
        Command::ToggleNode
    );
    assert_eq!(
        command_for_key(Mode::Browse, shift(KeyCode::Left)),
        Command::MoveToParent
    );
    assert_eq!(command_for_key(Mode::Browse, key(KeyCode::Left)), Command::MoveUpTree);
}

#[test]
fn test_command_for_key_help_and_search() {
    assert_eq!(command_for_key(Mode::Help, key(KeyCode::Character('q'))), Command::HideHelp);
    assert_eq!(command_for_key(Mode::Help, key(KeyCode::Down)), Command::ScrollHelpDown);
    assert_eq!(
        command_for_key(Mode::Help, key(KeyCode::Character('x'))),
        Command::Nothing
    );
    assert_eq!(command_for_key(Mode::Search, key(KeyCode::Esc)), Command::CancelSearch);
    assert_eq!(command_for_key(Mode::Search, key(KeyCode::Enter)), Command::FinishSearch);
    assert_eq!(
        command_for_key(Mode::Search, key(KeyCode::Character('a'))),
        Command::SearchInput
    );
}
