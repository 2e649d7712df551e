use formal::charclass::{
    cleanup, first_char, is_bracket, is_normal, is_not_ws, is_punctuation, same_bracket, token_class_of,
    IterToken, TokenClass,
};
use unicode_ident::{is_xid_continue, is_xid_start};

#[test]
fn test() {
    assert!(!is_normal(' '));
    assert!(!unicode_ident::is_xid_start('_'));
    assert!(unicode_ident::is_xid_continue('_'));
    assert!(unicode_ident::is_xid_continue('あ'));
    assert!(!unicode_ident::is_xid_continue('、'));
    for c in '\u{0}'..='\u{7F}' {
        assert!(!is_normal(c) || is_not_ws(c));
    }
    let s = cleanup("");
    assert_eq!(s, "");
    let s = cleanup("\n(a+  b )*c\n");
    assert_eq!(s, "(a + b) * c");
    let s = cleanup("(){}[](}(]{){][)[}");
    assert_eq!(s, "() {} [] ( } ( ] { ) { ] [ ) [ }");
}

#[test]
fn xid() {
    assert!(!is_xid_continue(' '));
    assert!(!is_xid_start('_'));
    assert!(is_xid_continue('_'));
    assert!(!is_xid_start('@'));
    assert!(!is_xid_start('$'));
    assert!(is_xid_start('あ'));
    assert!(is_xid_start('α'));
}

#[test]
fn classes_of_characters() {
    assert_eq!(first_char("xy"), Some('x'));
    assert_eq!(first_char(""), None);
    assert!(is_bracket('{') && is_bracket(']'));
    assert!(is_punctuation('+') && !is_punctuation('a'));
    assert!(same_bracket('(', ')') && same_bracket('[', '['));
    assert!(!same_bracket('(', ']') && !same_bracket('a', 'a'));
    assert_eq!(token_class_of("ab"), Some(TokenClass::Ident));
    assert_eq!(token_class_of("+="), Some(TokenClass::Punct));
    assert_eq!(token_class_of(" a"), None);
    assert_eq!(token_class_of("(x"), Some(TokenClass::BracketL));
}

#[test]
fn tokens_split_at_class_changes() {
    let mut it = IterToken::new("  ab+= (c)");
    let mut out = Vec::new();
    while let Some(t) = it.next() {
        out.push(t);
    }
    assert_eq!(out, vec!["ab", "+=", "(", "c", ")"]);
    assert_eq!(cleanup("f(x,y)"), "f (x , y)");
}
