use pycc::lex::{is_whitespace, tokenize};

#[test]
fn token() {
    let src = "123456 abcde \n 114514abc [] ()";
    let chars: Vec<char> = src.chars().collect();
    let tokens = tokenize(&chars);

    let expect: Vec<&str> = src.split_whitespace().collect();
    assert_eq!(tokens.len(), expect.len());
    for (got, expect) in tokens.iter().zip(expect) {
        assert_eq!(got.as_str(), expect);
    }
    assert_eq!(tokens[0].get_span().start, 0);
    assert_eq!(tokens[0].get_span().end, 6);
    assert_eq!(tokens[2].get_span().start, 15);
}

#[test]
fn whitespace_is_unicode_white_space() {
    for c in ['\t', '\n', '\u{b}', '\u{c}', '\r', ' ', '\u{85}', '\u{a0}', '\u{1680}', '\u{2000}', '\u{200a}', '\u{2028}', '\u{2029}', '\u{202f}', '\u{205f}', '\u{3000}'] {
        assert!(is_whitespace(c), "{c:?}");
        assert_eq!(is_whitespace(c), c.is_whitespace());
    }
    for c in ['a', '_', '的', '\u{200b}', '0'] {
        assert!(!is_whitespace(c));
        assert_eq!(is_whitespace(c), c.is_whitespace());
    }
}

#[test]
fn tokens_of_empty_and_blank_sources() {
    assert_eq!(tokenize(&Vec::new()).len(), 0);
    let blank: Vec<char> = " \n\t ".chars().collect();
    assert_eq!(tokenize(&blank).len(), 0);
    let one: Vec<char> = "  han2".chars().collect();
    let t = tokenize(&one);
    assert_eq!(t.len(), 1);
    assert_eq!(t[0].as_str(), "han2");
    assert_eq!((t[0].get_span().start, t[0].get_span().end), (2, 6));
}
