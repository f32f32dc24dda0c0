use browser_core::attribute::Attribute;
use browser_core::token::State;
use browser_core::token::tokenize;
use browser_core::token::HtmlToken;
use browser_core::token::HtmlTokenizer;

#[test]
fn test_empty() {
    let html = "".to_string();
    let mut tokenizer = HtmlTokenizer::new(html);
    assert!(tokenizer.next().is_none());
}

#[test]
fn test_start_and_end_tag() {
    let html = "<body></body>".to_string();
    let mut tokenizer = HtmlTokenizer::new(html);
    let expected = [
        HtmlToken::StartTag {
            tag: "body".to_string(),
            self_closing: false,
            attributes: Vec::new(),
        },
        HtmlToken::EndTag {
            tag: "body".to_string(),
        },
    ];
    for e in expected {
        assert_eq!(Some(e), tokenizer.next());
    }
}

#[test]
fn test_attributes() {
    let html = "<p class=\"A\" id='B' foo=bar></p>".to_string();
    let mut tokenizer = HtmlTokenizer::new(html);
    let mut atr1 = Attribute::new();
    atr1.add_char('c', true);
    atr1.add_char('l', true);
    atr1.add_char('a', true);
    atr1.add_char('s', true);
    atr1.add_char('s', true);
    atr1.add_char('A', false);

    let mut attr2 = Attribute::new();
    attr2.add_char('i', true);
    attr2.add_char('d', true);
    attr2.add_char('B', false);

    let mut attr3 = Attribute::new();
    attr3.add_char('f', true);
    attr3.add_char('o', true);
    attr3.add_char('o', true);
    attr3.add_char('b', false);
    attr3.add_char('a', false);
    attr3.add_char('r', false);

    let expected = [
        HtmlToken::StartTag {
            tag: "p".to_string(),
            self_closing: false,
            attributes: vec![atr1, attr2, attr3],
        },
        HtmlToken::EndTag {
            tag: "p".to_string(),
        },
    ];
    for e in expected {
        assert_eq!(Some(e), tokenizer.next());
    }
}

#[test]
fn test_self_closing_tag() {
    let html = "<img />".to_string();
    let mut tokenizer = HtmlTokenizer::new(html);
    let expected = [HtmlToken::StartTag {
        tag: "img".to_string(),
        self_closing: true,
        attributes: Vec::new(),
    }];
    for e in expected {
        assert_eq!(Some(e), tokenizer.next());
    }
}

#[test]
fn test_cript_tag() {
    let html = "<script>js code;</script>".to_string();
    let mut tokenizer = HtmlTokenizer::new(html);
    let expected = [
        HtmlToken::StartTag {
            tag: "script".to_string(),
            self_closing: false,
            attributes: Vec::new(),
        },
        HtmlToken::Char('j'),
        HtmlToken::Char('s'),
        HtmlToken::Char(' '),
        HtmlToken::Char('c'),
        HtmlToken::Char('o'),
        HtmlToken::Char('d'),
        HtmlToken::Char('e'),
        HtmlToken::Char(';'),
        HtmlToken::EndTag {
            tag: "script".to_string(),
        },
    ];
    for e in expected {
        assert_eq!(Some(e), tokenizer.next());
    }
}

#[test]
fn test_plain_text_tokenizes_to_chars_then_eof() {
    let toks = tokenize("ab c".to_string());
    assert_eq!(
        toks,
        vec![
            HtmlToken::Char('a'),
            HtmlToken::Char('b'),
            HtmlToken::Char(' '),
            HtmlToken::Char('c'),
            HtmlToken::Eof,
        ]
    );
}

#[test]
fn test_empty_text_tokenizes_to_eof_only() {
    let toks = tokenize("".to_string());
    assert_eq!(toks, vec![HtmlToken::Eof]);
}

#[test]
fn test_tag_names_are_lowercased() {
    let mut tokenizer = HtmlTokenizer::new("<BODY></BODY>".to_string());
    assert_eq!(
        tokenizer.next(),
        Some(HtmlToken::StartTag {
            tag: "body".to_string(),
            self_closing: false,
            attributes: Vec::new(),
        })
    );
    assert_eq!(
        tokenizer.next(),
        Some(HtmlToken::EndTag {
            tag: "body".to_string(),
        })
    );
}

#[test]
fn test_attribute_names_are_lowercased_on_append() {
    let mut a = Attribute::new();
    a.add_char('I', true);
    a.add_char('D', true);
    a.add_char('X', false);
    assert_eq!(a.name, "id".to_string());
    assert_eq!(a.value, "X".to_string());
}

#[test]
fn test_truncated_tag_forces_eof_token() {
    let mut tokenizer = HtmlTokenizer::new("<bo".to_string());
    assert_eq!(tokenizer.next(), Some(HtmlToken::Eof));
    assert!(tokenizer.next().is_none());
}

#[test]
fn test_script_data_bogus_end_tag_is_replayed_as_text() {
    // In script-data scanning, a partially matched end tag that breaks off
    // is drained back out of the temporary buffer one character at a time.
    let mut tokenizer = HtmlTokenizer::new("a</b xyz".to_string());
    tokenizer.state = State::ScriptData;
    assert_eq!(tokenizer.next(), Some(HtmlToken::Char('a')));
    assert_eq!(tokenizer.next(), Some(HtmlToken::Char('<')));
    assert_eq!(tokenizer.next(), Some(HtmlToken::Char('/')));
    assert_eq!(tokenizer.next(), Some(HtmlToken::Char('b')));
    assert_eq!(tokenizer.next(), Some(HtmlToken::Char(' ')));
    assert_eq!(tokenizer.next(), Some(HtmlToken::Char('x')));
    assert_eq!(tokenizer.next(), Some(HtmlToken::Char('y')));
    assert_eq!(tokenizer.next(), Some(HtmlToken::Char('z')));
    assert!(tokenizer.next().is_none());
}

#[test]
fn test_script_data_drain_finishes_at_end_of_input() {
    // A partially matched end tag broken off by the end of the input is
    // still replayed in full before the end-of-input token.
    let mut tokenizer = HtmlTokenizer::new("a</b ".to_string());
    tokenizer.state = State::ScriptData;
    assert_eq!(tokenizer.next(), Some(HtmlToken::Char('a')));
    assert_eq!(tokenizer.next(), Some(HtmlToken::Char('<')));
    assert_eq!(tokenizer.next(), Some(HtmlToken::Char('/')));
    assert_eq!(tokenizer.next(), Some(HtmlToken::Char('b')));
    assert_eq!(tokenizer.next(), Some(HtmlToken::Char(' ')));
    assert!(tokenizer.next().is_none());
}

#[test]
fn test_script_data_end_tag_closes_scanning() {
    let mut tokenizer = HtmlTokenizer::new("ab</style>".to_string());
    tokenizer.state = State::ScriptData;
    assert_eq!(tokenizer.next(), Some(HtmlToken::Char('a')));
    assert_eq!(tokenizer.next(), Some(HtmlToken::Char('b')));
    assert_eq!(
        tokenizer.next(),
        Some(HtmlToken::EndTag {
            tag: "style".to_string(),
        })
    );
    assert!(tokenizer.next().is_none());
}
