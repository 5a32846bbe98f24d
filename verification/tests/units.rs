use lmcl::error::ErrorKind;
use lmcl::parser::{
    analyze_class, convert_declaration_to_html, convert_placement_to_html, declaration_tokens,
    extract_tokens, placement_tokens, resolve_value, split_line, storing_tokens, type_conversion,
};
use lmcl::reader::{is_line_valid, store_valid_lines};
use lmcl::table::SymbolTable;
use lmcl::text::{
    find_char, join_lines, last_char_is, split_at_char, str_contains, str_eq, str_starts_with,
    trim, trim_char, trim_end_char, whitespace_tokens,
};

#[test]
fn trim_strips_both_ends() {
    assert_eq!(trim("  \t hello \r\n"), "hello");
    assert_eq!(trim(""), "");
    assert_eq!(trim("   "), "");
    assert_eq!(trim("a b"), "a b");
}

#[test]
fn trim_char_strips_every_edge_quote() {
    assert_eq!(trim_char("\"x\"", '"'), "x");
    assert_eq!(trim_char("\"\"x\"\"", '"'), "x");
    assert_eq!(trim_char("a\"b", '"'), "a\"b");
}

#[test]
fn trim_end_char_strips_trailing_only() {
    assert_eq!(trim_end_char("a;;", ';'), "a");
    assert_eq!(trim_end_char(";a", ';'), ";a");
}

#[test]
fn whitespace_tokens_splits_on_runs() {
    assert_eq!(whitespace_tokens("let  p   a"), vec!["let", "p", "a"]);
    assert_eq!(whitespace_tokens("   "), Vec::<String>::new());
    assert_eq!(whitespace_tokens(" one "), vec!["one"]);
}

#[test]
fn string_search_helpers() {
    assert_eq!(find_char("a=b", '='), Some(1));
    assert_eq!(find_char("ab", '='), None);
    assert!(str_contains("a\"b", '"'));
    assert!(!str_contains("ab", '"'));
    assert_eq!(split_at_char("tag.class", '.'), Some(("tag", "class")));
    assert_eq!(split_at_char("tag", '.'), None);
    assert!(str_eq("ab", "ab"));
    assert!(!str_eq("ab", "ac"));
    assert!(str_starts_with("store x", "store"));
    assert!(!str_starts_with("st", "store"));
    assert!(last_char_is("a;", ';'));
    assert!(!last_char_is("", ';'));
}

#[test]
fn join_lines_inserts_newlines() {
    let v = vec!["a".to_string(), "b".to_string(), "c".to_string()];
    assert_eq!(join_lines(&v), "a\nb\nc");
    assert_eq!(join_lines(&Vec::new()), "");
}

#[test]
fn symbol_table_stores_and_looks_up() {
    let mut t = SymbolTable::new();
    assert!(!t.contains_key("a"));
    assert_eq!(t.get("a"), None);
    t.insert("a".to_string(), "1".to_string());
    assert!(t.contains_key("a"));
    assert_eq!(t.get("a"), Some("1".to_string()));
    assert!(!t.contains_key("b"));
}

#[test]
fn split_line_on_first_equals() {
    let (l, r) = split_line(0, "let p a = \"x=y\";").unwrap();
    assert_eq!(l, "let p a ");
    assert_eq!(r, " \"x=y\";");
    let e = split_line(0, "let p a;").unwrap_err();
    assert_eq!(e.kind, ErrorKind::MissingEquals);
    assert_eq!(e.line_num, 1);
}

#[test]
fn resolve_value_literal_and_reference() {
    let mut t = SymbolTable::new();
    t.insert("name".to_string(), "value".to_string());
    assert_eq!(resolve_value("\"lit\"", 0, "ln", &t).unwrap(), "lit");
    assert_eq!(resolve_value("name", 0, "ln", &t).unwrap(), "value");
    let e = resolve_value("other", 0, "ln", &t).unwrap_err();
    assert_eq!(e.kind, ErrorKind::UnresolvedReference);
}

#[test]
fn extract_tokens_checks_count() {
    let t = SymbolTable::new();
    let (toks, v) = extract_tokens(3, 0, "let p a = \"x\";", &t).unwrap();
    assert_eq!(toks, vec!["let", "p", "a"]);
    assert_eq!(v, "x");
    let e = extract_tokens(3, 0, "let p = \"x\";", &t).unwrap_err();
    assert_eq!(e.kind, ErrorKind::MissingTokens);
    let e = extract_tokens(2, 0, "store a b = \"x\";", &t).unwrap_err();
    assert_eq!(e.kind, ErrorKind::ExtraTokens);
}

#[test]
fn token_accessors_pick_fields() {
    let t = SymbolTable::new();
    let (tag, v) = placement_tokens(0, "place div = \"x\";", &t).unwrap();
    assert_eq!(tag, "div");
    assert_eq!(v, "x");
    let (name, v) = storing_tokens(0, "store n = \"y\";", &t).unwrap();
    assert_eq!(name, "n");
    assert_eq!(v, "y");
    let (tag, name, v) = declaration_tokens(0, "let p.c n = \"z\";", &t).unwrap();
    assert_eq!(tag, "p.c");
    assert_eq!(name, "n");
    assert_eq!(v, "z");
}

#[test]
fn type_conversion_maps_the_closed_set() {
    assert_eq!(type_conversion("paragraph", 0, "ln").unwrap(), "p");
    assert_eq!(type_conversion("subtitle", 0, "ln").unwrap(), "h2");
    assert_eq!(type_conversion("div", 0, "ln").unwrap(), "div");
    let e = type_conversion("span", 0, "ln").unwrap_err();
    assert_eq!(e.kind, ErrorKind::UnknownTag);
    assert_eq!(e.line_num, 1);
    assert_eq!(e.line, "ln");
}

#[test]
fn analyze_class_needs_a_dot() {
    assert_eq!(analyze_class("div.box", 0, "ln").unwrap(), ("div", "box"));
    assert_eq!(analyze_class("a.b.c", 0, "ln").unwrap(), ("a", "b.c"));
    let e = analyze_class("div", 0, "ln").unwrap_err();
    assert_eq!(e.kind, ErrorKind::MalformedTagSpec);
    assert_eq!(e.line_num, 1);
}

#[test]
fn fragment_builders_emit_exact_html() {
    assert_eq!(
        convert_declaration_to_html("title", "t", "V", 0, "ln").unwrap(),
        "<h1 id=\"t\">V</h1>"
    );
    assert_eq!(
        convert_declaration_to_html("div.box", "t", "V", 0, "ln").unwrap(),
        "<div class=\"box\" id=\"t\">V</div>"
    );
    assert_eq!(convert_placement_to_html("p", "V", 0, "ln").unwrap(), "<p>V</p>");
    assert_eq!(
        convert_placement_to_html("h4.x", "V", 0, "ln").unwrap(),
        "<h4 class=\"x\">V</h4>"
    );
    let e = convert_placement_to_html("nav", "V", 0, "ln").unwrap_err();
    assert_eq!(e.kind, ErrorKind::UnknownTag);
}

#[test]
fn reader_judges_lines() {
    assert_eq!(is_line_valid(0, "").unwrap(), false);
    assert_eq!(is_line_valid(0, "// note").unwrap(), false);
    assert_eq!(is_line_valid(0, "let p a = \"1\";").unwrap(), true);
    let e = is_line_valid(4, "bad line").unwrap_err();
    assert_eq!(e.kind, ErrorKind::Syntax);
    assert_eq!(e.line_num, 5);
    assert_eq!(e.line, "bad line");
    let kept = store_valid_lines(" let p a = \"1\"; \n// c\n\nplace p = a;").unwrap();
    assert_eq!(kept, vec!["let p a = \"1\";", "place p = a;"]);
}
