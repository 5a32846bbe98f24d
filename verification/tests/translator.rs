use lmcl::error::{ErrorKind, TranslateError};
use lmcl::parser::parse_lines;
use lmcl::reader::store_valid_lines;

const HEADER: &str = "<!DOCTYPE html>\n<html>\n<head><meta charset=\"UTF-8\"></head>\n<body>";
const FOOTER: &str = "</body>\n</html>";

fn translate(src: &str) -> Result<String, TranslateError> {
    let lines = store_valid_lines(src)?;
    parse_lines(lines)
}

#[test]
fn declaration_with_title_tag() {
    let out = translate("let title pagetitle = \"Hello\";").unwrap();
    assert!(out.contains("<h1 id=\"pagetitle\">Hello</h1>"));
}

#[test]
fn store_then_place_reference() {
    let out = translate("store greeting = \"Hi\";\nplace p = greeting;").unwrap();
    assert!(out.contains("<p>Hi</p>"));
}

#[test]
fn declaration_with_class() {
    let out = translate("let div.box content = \"X\";").unwrap();
    assert!(out.contains("<div class=\"box\" id=\"content\">X</div>"));
}

#[test]
fn duplicate_name_cites_second_line() {
    let e = translate("let p a = \"1\";\nlet p a = \"2\";").unwrap_err();
    assert_eq!(e.kind, ErrorKind::DuplicateName);
    assert_eq!(e.line_num, 2);
    assert_eq!(e.line, "let p a = \"2\";");
}

#[test]
fn unknown_tag_is_rejected() {
    let e = translate("place span = \"x\";").unwrap_err();
    assert_eq!(e.kind, ErrorKind::UnknownTag);
    assert_eq!(e.line_num, 1);
}

#[test]
fn duplicate_name_across_kinds_let_then_store() {
    let e = translate("let p a = \"1\";\nstore a = \"2\";").unwrap_err();
    assert_eq!(e.kind, ErrorKind::DuplicateName);
    assert_eq!(e.line_num, 2);
}

#[test]
fn duplicate_name_across_kinds_store_then_let() {
    let e = translate("store a = \"1\";\nlet p a = \"2\";").unwrap_err();
    assert_eq!(e.kind, ErrorKind::DuplicateName);
    assert_eq!(e.line_num, 2);
}

#[test]
fn unresolved_reference_is_rejected() {
    let e = translate("place p = missing;").unwrap_err();
    assert_eq!(e.kind, ErrorKind::UnresolvedReference);
    assert_eq!(e.line_num, 1);
}

#[test]
fn reference_must_be_stored_before_use() {
    let e = translate("place p = greeting;\nstore greeting = \"Hi\";").unwrap_err();
    assert_eq!(e.kind, ErrorKind::UnresolvedReference);
    assert_eq!(e.line_num, 1);
}

#[test]
fn syntax_error_without_terminator() {
    let e = translate("let p a = \"1\"").unwrap_err();
    assert_eq!(e.kind, ErrorKind::Syntax);
    assert_eq!(e.line_num, 1);
    assert_eq!(e.line, "let p a = \"1\"");
}

#[test]
fn syntax_error_unknown_keyword() {
    let e = translate("give p a = \"1\";").unwrap_err();
    assert_eq!(e.kind, ErrorKind::Syntax);
    assert_eq!(e.line_num, 1);
}

#[test]
fn blank_lines_and_comments_are_dropped() {
    let out = translate("// a comment\n\n   \nlet p a = \"1\";\n").unwrap();
    assert!(out.contains("<p id=\"a\">1</p>"));
}

#[test]
fn syntax_error_line_number_counts_raw_lines() {
    let e = translate("// a comment\n\nnonsense").unwrap_err();
    assert_eq!(e.kind, ErrorKind::Syntax);
    assert_eq!(e.line_num, 3);
    assert_eq!(e.line, "nonsense");
}

#[test]
fn translation_is_idempotent() {
    let src = "let title t = \"A\";\nstore v = \"B\";\nplace p.c = v;";
    let first = translate(src).unwrap();
    let second = translate(src).unwrap();
    assert_eq!(first, second);
}

#[test]
fn whole_document_is_exact() {
    let out = translate("let title pagetitle = \"Hello\";").unwrap();
    let expected = format!("{}\n<h1 id=\"pagetitle\">Hello</h1>\n{}", HEADER, FOOTER);
    assert_eq!(out, expected);
}

#[test]
fn empty_input_gives_bare_document() {
    let out = translate("").unwrap();
    assert_eq!(out, format!("{}\n{}", HEADER, FOOTER));
}

#[test]
fn header_and_footer_appear_exactly_once() {
    let out = translate("let p a = \"x\";\nplace div = a;").unwrap();
    assert!(out.starts_with(HEADER));
    assert!(out.ends_with(FOOTER));
    assert_eq!(out.matches("<!DOCTYPE html>").count(), 1);
    assert_eq!(out.matches("</html>").count(), 1);
}

#[test]
fn every_tag_name_maps_to_its_element() {
    let cases = [
        ("paragraph", "p"),
        ("p", "p"),
        ("title", "h1"),
        ("h1", "h1"),
        ("subtitle", "h2"),
        ("h2", "h2"),
        ("h3", "h3"),
        ("h4", "h4"),
        ("h5", "h5"),
        ("h6", "h6"),
        ("div", "div"),
    ];
    for (name, tag) in cases.iter() {
        let out = translate(&format!("place {} = \"x\";", name)).unwrap();
        assert!(out.contains(&format!("<{}>x</{}>", tag, tag)), "{}", name);
    }
}

#[test]
fn missing_equals_is_rejected() {
    let e = translate("store a;").unwrap_err();
    assert_eq!(e.kind, ErrorKind::MissingEquals);
    assert_eq!(e.line_num, 1);
}

#[test]
fn missing_tokens_is_rejected() {
    let e = translate("let p = \"x\";").unwrap_err();
    assert_eq!(e.kind, ErrorKind::MissingTokens);
}

#[test]
fn extra_tokens_is_rejected() {
    let e = translate("store a b = \"x\";").unwrap_err();
    assert_eq!(e.kind, ErrorKind::ExtraTokens);
}

#[test]
fn store_alone_emits_nothing() {
    let out = translate("store x = \"v\";").unwrap();
    assert_eq!(out, format!("{}\n{}", HEADER, FOOTER));
}

#[test]
fn quote_anywhere_means_literal() {
    let out = translate("place p = mi\"d;").unwrap();
    assert!(out.contains("<p>mi\"d</p>"));
}

#[test]
fn literal_may_hold_semicolons() {
    let out = translate("place p = \"a;b\";").unwrap();
    assert!(out.contains("<p>a;b</p>"));
}

#[test]
fn placement_with_class() {
    let out = translate("place h3.note = \"N\";").unwrap();
    assert!(out.contains("<h3 class=\"note\">N</h3>"));
}

#[test]
fn stored_value_flows_through_references() {
    let out = translate("store a = \"v\";\nstore b = a;\nplace p = b;").unwrap();
    assert!(out.contains("<p>v</p>"));
}

#[test]
fn declared_value_can_be_referenced() {
    let out = translate("let p a = \"v\";\nplace div = a;").unwrap();
    assert!(out.contains("<p id=\"a\">v</p>"));
    assert!(out.contains("<div>v</div>"));
}

#[test]
fn parse_error_counts_statement_positions() {
    let e = translate("// note\nlet p a = \"1\";\nlet p a = \"2\";").unwrap_err();
    assert_eq!(e.kind, ErrorKind::DuplicateName);
    assert_eq!(e.line_num, 2);
}

#[test]
fn fragments_keep_statement_order() {
    let out = translate("place p = \"one\";\nplace div = \"two\";").unwrap();
    let expected = format!("{}\n<p>one</p>\n<div>two</div>\n{}", HEADER, FOOTER);
    assert_eq!(out, expected);
}

#[test]
fn statements_with_extra_whitespace() {
    let out = translate("   let   title   t   = \"A\";  ").unwrap();
    assert!(out.contains("<h1 id=\"t\">A</h1>"));
}

#[test]
fn error_message_names_kind_line_and_text() {
    let e = translate("let p a = \"1\";\nlet p a = \"2\";").unwrap_err();
    assert_eq!(
        e.message(),
        "Multiple elements with same name, on line 2: let p a = \"2\";"
    );
    let e = translate("bad").unwrap_err();
    assert_eq!(e.message(), "Syntax error, on line 1: bad");
}

#[test]
fn error_message_renders_multi_digit_line_numbers() {
    let blanks = "\n".repeat(119);
    let e = translate(&format!("{}oops", blanks)).unwrap_err();
    assert_eq!(e.line_num, 120);
    assert_eq!(e.message(), "Syntax error, on line 120: oops");
}
