//! The text helpers behind the string primitives, and the shell's key
//! handling.

use zipvm::text::{chars_of, text_is, text_eq, replace_chars, split_char, lines_of, words_of, parse_i64, char_is_alphanumeric, char_is_whitespace, char_from_u32};
use zipvm::shell::{Shell, Key};
use zipvm::editor::Mode;
use zipvm::syntax::Expr;

fn s(text: &str) -> Vec<char> {
    chars_of(text)
}

fn back(cs: &[Vec<char>]) -> Vec<String> {
    cs.iter().map(|v| v.iter().collect()).collect()
}

#[test]
fn text_comparisons() {
    assert!(text_is(&s("dup"), "dup"));
    assert!(!text_is(&s("dup"), "del"));
    assert!(!text_is(&s("du"), "dup"));
    assert!(text_eq(&s("ab"), &s("ab")));
    assert!(!text_eq(&s("ab"), &s("ba")));
}

#[test]
fn replace_all_occurrences() {
    let r: String = replace_chars(&s("banana"), &s("an"), &s("um")).iter().collect();
    assert_eq!(r, "bumuma");
    let r: String = replace_chars(&s("aaa"), &s("aa"), &s("b")).iter().collect();
    assert_eq!(r, "ba");
    let r: String = replace_chars(&s("ab"), &s(""), &s("-")).iter().collect();
    assert_eq!(r, "-a-b-");
}

#[test]
fn split_and_lines() {
    assert_eq!(back(&split_char(&s("a,b,,c"), ',')), vec!["a", "b", "", "c"]);
    assert_eq!(back(&split_char(&s(""), ',')), vec![""]);
    assert_eq!(back(&lines_of(&s("x\ny\n"))), vec!["x", "y"]);
    assert_eq!(back(&lines_of(&s("x\ny"))), vec!["x", "y"]);
    assert_eq!(back(&lines_of(&s(""))), Vec::<String>::new());
}

#[test]
fn words_collapse_runs() {
    assert_eq!(back(&words_of(&s("a,,b c"))), vec!["a", "b", "c"]);
    assert_eq!(back(&words_of(&s(",a,"))), vec!["", "a", ""]);
}

#[test]
fn parsing_integers() {
    assert_eq!(parse_i64(&s("42")), Some(42));
    assert_eq!(parse_i64(&s("-42")), Some(-42));
    assert_eq!(parse_i64(&s("+7")), Some(7));
    assert_eq!(parse_i64(&s("")), None);
    assert_eq!(parse_i64(&s("-")), None);
    assert_eq!(parse_i64(&s("4x")), None);
    assert_eq!(parse_i64(&s("9223372036854775807")), Some(i64::MAX));
    assert_eq!(parse_i64(&s("-9223372036854775808")), Some(i64::MIN));
    assert_eq!(parse_i64(&s("9223372036854775808")), None);
}

#[test]
fn character_classes_come_from_the_library() {
    assert!(char_is_alphanumeric('a'));
    assert!(char_is_alphanumeric('7'));
    assert!(!char_is_alphanumeric(','));
    assert!(char_is_whitespace(' '));
    assert!(!char_is_whitespace('x'));
    assert_eq!(char_from_u32(97), Some('a'));
    assert_eq!(char_from_u32(0xD800), None);
}

#[test]
fn shell_keys_drive_the_cursor() {
    let mut sh = Shell::new();
    sh.handle_key_event(Key::Glyph('i'));
    assert!(matches!(sh.cursor.mode(), Mode::Ident));
    sh.handle_key_event(Key::Glyph('d'));
    sh.handle_key_event(Key::Glyph('u'));
    sh.handle_key_event(Key::Glyph('p'));
    sh.handle_key_event(Key::Glyph(' '));
    assert!(matches!(sh.cursor.mode(), Mode::Normal));
    let p = sh.cursor.program();
    assert_eq!(p.len(), 1);
    match &p[0] {
        Expr::Ident(cs) => assert_eq!(cs, &chars_of("dup")),
        _ => panic!("expected an identifier"),
    }
    sh.handle_key_event(Key::Glyph('"'));
    assert!(matches!(sh.cursor.mode(), Mode::StrLit));
    sh.handle_key_event(Key::Glyph('h'));
    sh.handle_key_event(Key::Glyph('"'));
    assert!(matches!(sh.cursor.mode(), Mode::Normal));
    assert_eq!(sh.cursor.program().len(), 2);
    sh.handle_key_event(Key::Backspace);
    assert_eq!(sh.cursor.program().len(), 1);
    sh.handle_key_event(Key::Glyph('{'));
    sh.handle_key_event(Key::Glyph('}'));
    assert_eq!(sh.cursor.program().len(), 2);
}
