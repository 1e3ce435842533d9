use pw_viz::text::{chars_of, contains, parse_u32, same_text};

#[test]
fn chars_of_lists_every_character() {
    assert_eq!(chars_of("aé€"), vec!['a', 'é', '€']);
    assert_eq!(chars_of(""), Vec::<char>::new());
}

#[test]
fn same_text_compares_characters() {
    assert!(same_text("node.nick", "node.nick"));
    assert!(same_text("", ""));
    assert!(!same_text("in", "out"));
    assert!(!same_text("in", "inn"));
    assert!(!same_text("é", "e"));
}

#[test]
fn contains_finds_a_word_anywhere() {
    assert!(contains("Audio/Sink", "Audio"));
    assert!(contains("Stream/Output/Audio", "Audio"));
    assert!(contains("XAudioY", "Audio"));
    assert!(!contains("audio/sink", "Audio"));
    assert!(!contains("Audi", "Audio"));
    assert!(!contains("", "Audio"));
}

#[test]
fn contains_the_empty_word_always() {
    assert!(contains("Video", ""));
    assert!(contains("", ""));
}

#[test]
fn contains_works_on_characters_not_bytes() {
    assert!(contains("héllo Midi", "Midi"));
    assert!(contains("héllo", "él"));
    assert!(!contains("héllo", "el"));
}

#[test]
fn parse_u32_reads_decimal_numbers() {
    assert_eq!(parse_u32("0"), Some(0));
    assert_eq!(parse_u32("10"), Some(10));
    assert_eq!(parse_u32("007"), Some(7));
    assert_eq!(parse_u32("+42"), Some(42));
    assert_eq!(parse_u32("4294967295"), Some(4294967295));
    assert_eq!(parse_u32("00000000000000000000004294967295"), Some(4294967295));
}

#[test]
fn parse_u32_refuses_what_is_no_number_of_32_bits() {
    assert_eq!(parse_u32(""), None);
    assert_eq!(parse_u32("+"), None);
    assert_eq!(parse_u32("-1"), None);
    assert_eq!(parse_u32("++1"), None);
    assert_eq!(parse_u32("1+"), None);
    assert_eq!(parse_u32(" 1"), None);
    assert_eq!(parse_u32("1 "), None);
    assert_eq!(parse_u32("1a"), None);
    assert_eq!(parse_u32("1_000"), None);
    assert_eq!(parse_u32("٣"), None);
    assert_eq!(parse_u32("4294967296"), None);
    assert_eq!(parse_u32("99999999999999999999999999"), None);
}

#[test]
fn parse_u32_agrees_with_the_standard_parser() {
    let samples = [
        "0", "1", "+1", "-0", "+0", "", "+", "12345", "4294967295", "4294967296", "42949672950",
        "0x10", "1e3", "٣", " 7", "7 ", "0000", "+-1",
    ];
    for text in samples {
        assert_eq!(parse_u32(text), text.parse::<u32>().ok(), "{}", format!("{:?}", text));
    }
}
