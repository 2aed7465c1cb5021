use lexical_analyzer::lexer::{classify, LexErrorKind, Token, TokenCategory};
use lexical_analyzer::numbering::add_line_numbers;
use lexical_analyzer::process;
use lexical_analyzer::scanner::remove_comments;
use lexical_analyzer::tables::build_tables;

fn kinds(tokens: &[Token]) -> Vec<(String, TokenCategory)> {
    tokens.iter().map(|t| (t.lexeme.clone(), t.category)).collect()
}

fn lex(raw: &str) -> Vec<(String, TokenCategory)> {
    let cleaned = remove_comments(raw.to_string());
    kinds(&classify(&cleaned).unwrap())
}

#[test]
fn line_comment_is_removed_and_tokens_classified() {
    let cleaned = remove_comments("int x = 5; // set x\n".to_string());
    assert_eq!(cleaned, "int x = 5;\n");
    assert_eq!(
        kinds(&classify(&cleaned).unwrap()),
        vec![
            ("int".to_string(), TokenCategory::Keyword),
            ("x".to_string(), TokenCategory::Identifier),
            ("=".to_string(), TokenCategory::Operator),
            ("5".to_string(), TokenCategory::NumericConstant),
            (";".to_string(), TokenCategory::Separator),
        ]
    );
}

#[test]
fn block_comment_across_lines_is_removed() {
    assert_eq!(remove_comments("/* a\nb */int y;".to_string()), "int y;\n");
}

#[test]
fn unterminated_string_fails() {
    let cleaned = remove_comments("x = \"abc".to_string());
    let err = classify(&cleaned).unwrap_err();
    assert_eq!(err.kind, LexErrorKind::UnterminatedString);
    assert_eq!(err.offset, 4);
}

#[test]
fn slash_with_spaces_is_division() {
    assert_eq!(remove_comments("a / b".to_string()), "a / b\n");
    assert_eq!(
        lex("a / b"),
        vec![
            ("a".to_string(), TokenCategory::Identifier),
            ("/".to_string(), TokenCategory::Operator),
            ("b".to_string(), TokenCategory::Identifier),
        ]
    );
}

#[test]
fn two_decimal_points_fail() {
    let cleaned = remove_comments("1.2.3".to_string());
    let err = classify(&cleaned).unwrap_err();
    assert_eq!(err.kind, LexErrorKind::InvalidNumber);
    assert_eq!(err.offset, 0);
}

#[test]
fn unrecognized_character_fails() {
    let err = classify(&"a # b\n".to_string()).unwrap_err();
    assert_eq!(err.kind, LexErrorKind::UnrecognizedCharacter);
    assert_eq!(err.offset, 2);
    assert_eq!(err.message(), "unrecognized character at offset 2");
}

#[test]
fn stripping_twice_changes_nothing_more() {
    let raw = "a  b // c\n\n  d\t\te;\n\n\n";
    let once = remove_comments(raw.to_string());
    assert_eq!(once, "a b d\te;\n");
    assert_eq!(remove_comments(once.clone()), once);
}

#[test]
fn stripping_commented_text_twice_changes_nothing_more() {
    let once = remove_comments("int a; // first\n/* second */ b = a / 2;\n".to_string());
    assert_eq!(once, "int a; b = a / 2;\n");
    assert_eq!(remove_comments(once.clone()), once);
}

#[test]
fn clean_text_strips_to_its_trim() {
    let raw = "  int a;\nb = a;  ";
    assert_eq!(remove_comments(raw.to_string()), "int a;\nb = a;\n");
}

#[test]
fn empty_and_blank_inputs_give_empty_text() {
    assert_eq!(remove_comments(String::new()), "");
    assert_eq!(remove_comments(" \n\t\n".to_string()), "");
    assert_eq!(remove_comments("// only\n/* all */".to_string()), "");
}

#[test]
fn unterminated_block_comment_runs_to_end() {
    assert_eq!(remove_comments("a; /* never closed\nb;".to_string()), "a;\n");
}

#[test]
fn star_inside_block_comment_does_not_close_it() {
    assert_eq!(remove_comments("/* a * b */c".to_string()), "c\n");
}

#[test]
fn blank_lines_are_dropped() {
    assert_eq!(remove_comments("a\n\n\n  b\n".to_string()), "a\nb\n");
    assert_eq!(remove_comments("a\n/* x */\nb".to_string()), "a\nb\n");
}

#[test]
fn line_numbers_are_left_justified() {
    assert_eq!(add_line_numbers("a\nb\n".to_string()), "0  a\n1  b\n");
    assert_eq!(add_line_numbers(String::new()), "");
    assert_eq!(add_line_numbers("x\r\ny".to_string()), "0  x\n1  y\n");
}

#[test]
fn line_numbers_widen_past_999() {
    let text: String = (0..1001).map(|_| "z\n").collect();
    let out = add_line_numbers(text);
    let lines: Vec<&str> = out.lines().collect();
    assert_eq!(lines.len(), 1001);
    assert_eq!(lines[0], "0  z");
    assert_eq!(lines[42], "42 z");
    assert_eq!(lines[999], "999z");
    assert_eq!(lines[1000], "1000z");
}

#[test]
fn every_category_is_recognized() {
    assert_eq!(
        lex("while (i <= 10) { s += \"a\\\"b\"; i++; } return 3.5f;"),
        vec![
            ("while".to_string(), TokenCategory::Keyword),
            ("(".to_string(), TokenCategory::Separator),
            ("i".to_string(), TokenCategory::Identifier),
            ("<=".to_string(), TokenCategory::Operator),
            ("10".to_string(), TokenCategory::NumericConstant),
            (")".to_string(), TokenCategory::Separator),
            ("{".to_string(), TokenCategory::Separator),
            ("s".to_string(), TokenCategory::Identifier),
            ("+=".to_string(), TokenCategory::Operator),
            ("\"a\\\"b\"".to_string(), TokenCategory::StringLiteral),
            (";".to_string(), TokenCategory::Separator),
            ("i".to_string(), TokenCategory::Identifier),
            ("++".to_string(), TokenCategory::Operator),
            (";".to_string(), TokenCategory::Separator),
            ("}".to_string(), TokenCategory::Separator),
            ("return".to_string(), TokenCategory::Keyword),
            ("3.5f".to_string(), TokenCategory::NumericConstant),
            (";".to_string(), TokenCategory::Separator),
        ]
    );
}

#[test]
fn keywords_are_case_sensitive() {
    assert_eq!(
        lex("Int int"),
        vec![
            ("Int".to_string(), TokenCategory::Identifier),
            ("int".to_string(), TokenCategory::Keyword),
        ]
    );
}

#[test]
fn repeated_lexemes_keep_their_code() {
    let text = "int x = x + y;\nx = 1;\n".to_string();
    let tokens = classify(&text).unwrap();
    let t = build_tables(&text, &tokens);
    assert_eq!(t.keywords, "int\n");
    assert_eq!(t.identifiers, "x\ny\n");
    assert_eq!(t.consts, "1\n");
    assert_eq!(t.operators, "=\n+\n");
    assert_eq!(t.strings, "");
    assert_eq!(t.separators, ";\n");
    assert_eq!(
        t.descriptors,
        "10 int keyword\n20 x identifier\n40 = operator\n41 + operator\n21 y identifier\n60 ; separator\n30 1 numeric constant\n"
    );
    assert_eq!(t.pseudocode, "10 20 40 20 41 2160\n20 40 3060\n");
}

#[test]
fn string_literals_get_their_own_band() {
    let text = "s = \"hi\";\n".to_string();
    let tokens = classify(&text).unwrap();
    let t = build_tables(&text, &tokens);
    assert_eq!(t.strings, "\"hi\"\n");
    assert_eq!(t.pseudocode, "20 40 5060\n");
}

#[test]
fn process_reports_error_and_keeps_display() {
    let out = process("x = \"abc // not a comment".to_string());
    assert_eq!(out.cleaned_display, "0  x = \"abc\n");
    let err = out.tables.err().unwrap();
    assert_eq!(err.kind, LexErrorKind::UnterminatedString);
}

#[test]
fn process_builds_tables() {
    let out = process("int a; // note\n\n/* c */ a = 2;".to_string());
    assert_eq!(out.cleaned_display, "0  int a; a = 2;\n");
    let t = out.tables.ok().unwrap();
    assert_eq!(t.pseudocode, "10 2060 20 40 3060\n");
}

#[test]
fn letters_inside_a_number_fail() {
    let err = classify(&"x = 12abc;\n".to_string()).unwrap_err();
    assert_eq!(err.kind, LexErrorKind::InvalidNumber);
    assert_eq!(err.offset, 4);
}

#[test]
fn blanks_around_a_block_comment_collapse() {
    assert_eq!(remove_comments("a /*c*/ b".to_string()), "a b\n");
    assert_eq!(remove_comments("a /**/ b".to_string()), "a b\n");
    assert_eq!(remove_comments("a\n/**/ b".to_string()), "a\nb\n");
    assert_eq!(remove_comments("a /**/\nb".to_string()), "a\nb\n");
    let once = remove_comments("a /*c*/ b".to_string());
    assert_eq!(remove_comments(once.clone()), once);
}

#[test]
fn kept_lines_stay_as_they_are() {
    assert_eq!(remove_comments("a \r\nb".to_string()), "a \r\nb\n");
    assert_eq!(remove_comments("a\r\r\nb".to_string()), "a\r\r\nb\n");
    assert_eq!(remove_comments("a\u{a0}\nb".to_string()), "a\u{a0}\nb\n");
    assert_eq!(remove_comments("a\n\u{a0}\r\nb".to_string()), "a\nb\n");
    for raw in ["a \r\nb", "a\r\r\nb", "a\u{a0}\nb", "x /* c */\u{c}\ny"] {
        let once = remove_comments(raw.to_string());
        assert_eq!(remove_comments(once.clone()), once);
    }
}

#[test]
fn slash_between_blanks_stays() {
    assert_eq!(remove_comments("/ /".to_string()), "/ /\n");
    assert_eq!(remove_comments("/ /\n".to_string()), "/ /\n");
}

#[test]
fn lexemes_separated_by_any_whitespace_classify() {
    let tokens = classify(&"x\t=\n\n 1.5 ;\u{a0}\"s\" ".to_string()).unwrap();
    assert_eq!(
        kinds(&tokens),
        vec![
            ("x".to_string(), TokenCategory::Identifier),
            ("=".to_string(), TokenCategory::Operator),
            ("1.5".to_string(), TokenCategory::NumericConstant),
            (";".to_string(), TokenCategory::Separator),
            ("\"s\"".to_string(), TokenCategory::StringLiteral),
        ]
    );
}

#[test]
fn line_count_kept_when_a_line_ends_in_carriage_return() {
    let text = "a\r\r\nb\r".to_string();
    let out = add_line_numbers(text.clone());
    assert_eq!(out, "0  a\r\n1  b\r\n");
    assert_eq!(out.lines().count(), text.lines().count());
    assert_eq!(out.lines().collect::<Vec<_>>(), vec!["0  a", "1  b"]);
}
