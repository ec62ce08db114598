use pmd_message::{MessageKeyword, MessageKeywordEncodeError};

#[test]
fn test_message_keyword() {
    let keywords = MessageKeyword::new_default();

    let source = "\\[ [RED] \\\\";
    assert_eq!(&keywords.decode(&keywords.encode(source).unwrap()), source);
    assert_eq!(
        keywords.encode("\\"),
        Err(MessageKeywordEncodeError::NoCharAfterEscape)
    );
    assert_eq!(
        keywords.encode("\\a"),
        Err(MessageKeywordEncodeError::UselessEscape('a'))
    );
    assert_eq!(
        keywords.encode("[RED"),
        Err(MessageKeywordEncodeError::NoCharInBracket)
    );
    match keywords.encode("[SOMETHING_UNKNOWN]") {
        Err(MessageKeywordEncodeError::UnknownEscape(_)) => (),
        x => panic!("{:?}", x),
    };
}

#[test]
fn default_red_keyword() {
    let keywords = MessageKeyword::new_default();
    assert_eq!(keywords.decode("\u{C103}"), "[RED]");
    assert_eq!(keywords.decode("\u{C10A}"), "[RED]");
    assert_eq!(keywords.encode("[RED]").unwrap(), "\u{C10A}");
    assert_eq!(keywords.encode("[PAUSE]").unwrap(), "\u{EB00}");
    assert_eq!(keywords.decode("\u{EB00}"), "[PAUSE]");
}

#[test]
fn empty_table_passthrough() {
    let k = MessageKeyword::new_empty();
    assert_eq!(k.decode("abc"), "abc");
    assert_eq!(k.decode("a[b\\c"), "a\\[b\\\\c");
    assert_eq!(k.encode("a\\[b\\\\c").unwrap(), "a[b\\c");
    assert_eq!(k.encode("").unwrap(), "");
}

#[test]
fn add_keyword_last_registration_wins() {
    let mut k = MessageKeyword::new_empty();
    k.add_keyword('\u{E000}', "X".to_string());
    k.add_keyword('\u{E001}', "X".to_string());
    assert_eq!(k.encode("[X]").unwrap(), "\u{E001}");
    assert_eq!(k.decode("\u{E000}"), "[X]");
    assert_eq!(k.decode("\u{E001}"), "[X]");
}

#[test]
fn unknown_escape_carries_name() {
    let k = MessageKeyword::new_default();
    match k.encode("[NOT_A_KEYWORD]") {
        Err(MessageKeywordEncodeError::UnknownEscape(name)) => {
            assert_eq!(name, "NOT_A_KEYWORD");
        }
        x => panic!("{:?}", x),
    }
}
