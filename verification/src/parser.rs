//! The statement translator: turns the admissible statement lines into
//! one HTML document, maintaining the symbol table that lets later
//! statements reference earlier stored values by name.
//!
//! Processing is a strict left-to-right fold over the lines. Each line is
//! dispatched on its leading keyword, split at its first `=`, its left
//! side tokenized, its right side resolved to a value, and an HTML
//! fragment emitted for the statement kinds that produce visible output.
//! The first error aborts the whole run.

use crate::error::{err_at, matches_err, ErrorKind, SpecError, TranslateError};
use crate::table::SymbolTable;
use crate::text::{
    char_pred, cleaned_of, contains_char, find_if, join_lines, join_nl, split_at_char,
    str_contains, str_eq, str_starts_with, tokens_of, trim, trim_char, trim_char_spec,
    trim_end_char, whitespace_tokens,
};
use vstd::prelude::*;

verus! {

/// The value denoted by a cleaned right-hand side `v` under table `tbl`:
/// a side containing a quote anywhere is a literal and keeps its text
/// with the quote characters at both ends stripped; any other side is a
/// reference to a stored name, `None` when that name is not stored.
pub open spec fn resolve_spec(v: Seq<char>, tbl: Map<Seq<char>, Seq<char>>) -> Option<Seq<char>> {
    if contains_char(v, '"') {
        Some(trim_char_spec(v, '"'))
    } else if tbl.contains_key(v) {
        Some(tbl[v])
    } else {
        None
    }
}

/// The HTML tag that an LMCL tag name maps to, if recognized.
pub open spec fn tag_html(tag: Seq<char>) -> Option<Seq<char>> {
    if tag == "paragraph"@ || tag == "p"@ {
        Some("p"@)
    } else if tag == "title"@ || tag == "h1"@ {
        Some("h1"@)
    } else if tag == "subtitle"@ || tag == "h2"@ {
        Some("h2"@)
    } else if tag == "h3"@ {
        Some("h3"@)
    } else if tag == "h4"@ {
        Some("h4"@)
    } else if tag == "h5"@ {
        Some("h5"@)
    } else if tag == "h6"@ {
        Some("h6"@)
    } else if tag == "div"@ {
        Some("div"@)
    } else {
        None
    }
}

/// `<TAG id="NAME">VALUE</TAG>`, with ` class="CLASS"` before the id when
/// a class is given.
pub open spec fn declaration_html(
    tag: Seq<char>,
    class: Option<Seq<char>>,
    name: Seq<char>,
    value: Seq<char>,
) -> Seq<char> {
    match class {
        None => "<"@ + tag + " id=\""@ + name + "\">"@ + value + "</"@ + tag + ">"@,
        Some(c) => "<"@ + tag + " class=\""@ + c + "\" id=\""@ + name + "\">"@ + value + "</"@
            + tag + ">"@,
    }
}

/// `<TAG>VALUE</TAG>`, with ` class="CLASS"` after the tag when a class
/// is given.
pub open spec fn placement_html(
    tag: Seq<char>,
    class: Option<Seq<char>>,
    value: Seq<char>,
) -> Seq<char> {
    match class {
        None => "<"@ + tag + ">"@ + value + "</"@ + tag + ">"@,
        Some(c) => "<"@ + tag + " class=\""@ + c + "\">"@ + value + "</"@ + tag + ">"@,
    }
}

/// The tag and optional class of a tag-spec: split at the first `.` when
/// one is present, the whole spec as the tag otherwise.
pub open spec fn tag_class_of(ts: Seq<char>) -> (Seq<char>, Option<Seq<char>>) {
    if contains_char(ts, '.') {
        let k = find_if(ts, char_pred('.'));
        (ts.subrange(0, k), Some(ts.subrange(k + 1, ts.len() as int)))
    } else {
        (ts, None)
    }
}

/// The fragment a declaration with tag-spec `ts` emits, `None` when the
/// tag is not recognized.
pub open spec fn decl_fragment(ts: Seq<char>, name: Seq<char>, value: Seq<char>) -> Option<
    Seq<char>,
> {
    let (tag, class) = tag_class_of(ts);
    match tag_html(tag) {
        Some(h) => Some(declaration_html(h, class, name, value)),
        None => None,
    }
}

/// The fragment a placement with tag-spec `ts` emits, `None` when the
/// tag is not recognized.
pub open spec fn place_fragment(ts: Seq<char>, value: Seq<char>) -> Option<Seq<char>> {
    let (tag, class) = tag_class_of(ts);
    match tag_html(tag) {
        Some(h) => Some(placement_html(h, class, value)),
        None => None,
    }
}

/// Parse statement line `t` at 0-based position `n`: split at the first
/// `=`, tokenize the left side expecting exactly `expected` tokens, and
/// resolve the right side to a value under `tbl`.
pub open spec fn stmt_parts(
    t: Seq<char>,
    n: int,
    expected: int,
    tbl: Map<Seq<char>, Seq<char>>,
) -> Result<(Seq<Seq<char>>, Seq<char>), SpecError> {
    if !contains_char(t, '=') {
        Err((ErrorKind::MissingEquals, n + 1, t))
    } else {
        let k = find_if(t, char_pred('='));
        let toks = tokens_of(t.subrange(0, k));
        if toks.len() < expected {
            Err((ErrorKind::MissingTokens, n + 1, t))
        } else if toks.len() > expected {
            Err((ErrorKind::ExtraTokens, n + 1, t))
        } else {
            match resolve_spec(cleaned_of(t.subrange(k + 1, t.len() as int)), tbl) {
                Some(v) => Ok((toks, v)),
                None => Err((ErrorKind::UnresolvedReference, n + 1, t)),
            }
        }
    }
}

/// One translation step: process line `t` at 0-based position `n` under
/// table `tbl`, yielding the updated table and the emitted fragments
/// (one or none), or the first error. A line starting with none of the
/// three keywords is passed over.
pub open spec fn step_spec(t: Seq<char>, n: int, tbl: Map<Seq<char>, Seq<char>>) -> Result<
    (Map<Seq<char>, Seq<char>>, Seq<Seq<char>>),
    SpecError,
> {
    if "let"@.is_prefix_of(t) {
        match stmt_parts(t, n, 3, tbl) {
            Err(e) => Err(e),
            Ok((toks, v)) => {
                if tbl.contains_key(toks[2]) {
                    Err((ErrorKind::DuplicateName, n + 1, t))
                } else {
                    match decl_fragment(toks[1], toks[2], v) {
                        None => Err((ErrorKind::UnknownTag, n + 1, t)),
                        Some(f) => Ok((tbl.insert(toks[2], v), seq![f])),
                    }
                }
            },
        }
    } else if "store"@.is_prefix_of(t) {
        match stmt_parts(t, n, 2, tbl) {
            Err(e) => Err(e),
            Ok((toks, v)) => {
                if tbl.contains_key(toks[1]) {
                    Err((ErrorKind::DuplicateName, n + 1, t))
                } else {
                    Ok((tbl.insert(toks[1], v), Seq::empty()))
                }
            },
        }
    } else if "place"@.is_prefix_of(t) {
        match stmt_parts(t, n, 2, tbl) {
            Err(e) => Err(e),
            Ok((toks, v)) => match place_fragment(toks[1], v) {
                None => Err((ErrorKind::UnknownTag, n + 1, t)),
                Some(f) => Ok((tbl, seq![f])),
            },
        }
    } else {
        Ok((tbl, Seq::empty()))
    }
}

/// Translate the lines from position `i` on, starting from table `tbl`:
/// the final table and all emitted fragments in order, or the first
/// error.
pub open spec fn translate_from(
    lines: Seq<Seq<char>>,
    i: int,
    tbl: Map<Seq<char>, Seq<char>>,
) -> Result<(Map<Seq<char>, Seq<char>>, Seq<Seq<char>>), SpecError>
    decreases lines.len() - i,
{
    if i < 0 || i >= lines.len() {
        Ok((tbl, Seq::empty()))
    } else {
        match step_spec(lines[i], i, tbl) {
            Err(e) => Err(e),
            Ok((t2, fr)) => match translate_from(lines, i + 1, t2) {
                Err(e) => Err(e),
                Ok((t3, rest)) => Ok((t3, fr + rest)),
            },
        }
    }
}

/// The whole translation of `lines`, from an empty table.
pub open spec fn translation_of(lines: Seq<Seq<char>>) -> Result<
    (Map<Seq<char>, Seq<char>>, Seq<Seq<char>>),
    SpecError,
> {
    translate_from(lines, 0, Map::empty())
}

/// The fixed document header.
pub open spec fn doc_header() -> Seq<char> {
    "<!DOCTYPE html>\n<html>\n<head><meta charset=\"UTF-8\"></head>\n<body>"@
}

/// The fixed document footer.
pub open spec fn doc_footer() -> Seq<char> {
    "</body>\n</html>"@
}

/// The finished document: header, every emitted fragment in statement
/// order, and footer, joined by newlines.
pub open spec fn doc_spec(frags: Seq<Seq<char>>) -> Seq<char> {
    join_nl(seq![doc_header()] + frags + seq![doc_footer()])
}

/// What translating `lines` returns, at the spec level: the finished
/// document on success, the first error otherwise.
pub open spec fn parse_result_is(lines: Seq<Seq<char>>, r: Result<Seq<char>, SpecError>) -> bool {
    match translation_of(lines) {
        Ok(p) => r == Ok::<Seq<char>, SpecError>(doc_spec(p.1)),
        Err(e) => r == Err::<Seq<char>, SpecError>(e),
    }
}

/// The spec-level value of an exec translation result.
pub open spec fn parse_view(r: Result<String, TranslateError>) -> Result<Seq<char>, SpecError> {
    match r {
        Ok(s) => Ok(s@),
        Err(e) => Err((e.kind, e.line_num as int, e.line@)),
    }
}

/// Split a statement line at its first `=` into left and right sides.
pub fn split_line<'a>(line_num: usize, line: &'a str) -> (r: Result<
    (&'a str, &'a str),
    TranslateError,
>)
    requires
        line_num < usize::MAX,
    ensures
        match r {
            Ok(parts) => contains_char(line@, '=') && parts.0@ == line@.subrange(
                0,
                find_if(line@, char_pred('=')),
            ) && parts.1@ == line@.subrange(find_if(line@, char_pred('=')) + 1, line@.len() as int),
            Err(e) => !contains_char(line@, '=') && matches_err(
                e,
                (ErrorKind::MissingEquals, line_num + 1int, line@),
            ),
        },
{
    match split_at_char(line, '=') {
        Some(parts) => Ok(parts),
        None => Err(err_at(ErrorKind::MissingEquals, line_num, line)),
    }
}

/// Resolve a cleaned right-hand side to its value: the literal text with
/// edge quotes stripped when it contains a quote, the stored value of
/// the named element otherwise.
pub fn resolve_value(right: &str, line_num: usize, line: &str, stored_elements: &SymbolTable) -> (r:
    Result<String, TranslateError>)
    requires
        line_num < usize::MAX,
    ensures
        match r {
            Ok(v) => resolve_spec(right@, stored_elements@) == Some(v@),
            Err(e) => resolve_spec(right@, stored_elements@) is None && matches_err(
                e,
                (ErrorKind::UnresolvedReference, line_num + 1int, line@),
            ),
        },
{
    if str_contains(right, '"') {
        Ok(trim_char(right, '"').to_owned())
    } else {
        match stored_elements.get(right) {
            Some(value) => Ok(value),
            None => Err(err_at(ErrorKind::UnresolvedReference, line_num, line)),
        }
    }
}

/// Split the line at `=`, check the left-side token count against the
/// statement kind's expectation, and resolve the right side to a value.
pub fn extract_tokens(
    expected_tokens: usize,
    line_num: usize,
    line: &str,
    stored_elements: &SymbolTable,
) -> (r: Result<(Vec<String>, String), TranslateError>)
    requires
        line_num < usize::MAX,
    ensures
        ({
            let sp = stmt_parts(line@, line_num as int, expected_tokens as int, stored_elements@);
            match r {
                Ok(p) => sp == Ok::<(Seq<Seq<char>>, Seq<char>), SpecError>(
                    (p.0.deep_view(), p.1@),
                ),
                Err(e) => sp is Err && matches_err(e, sp->Err_0),
            }
        }),
{
    let parts = match split_line(line_num, line) {
        Ok(p) => p,
        Err(e) => {
            return Err(e);
        },
    };
    let left_tokens = whitespace_tokens(parts.0);
    if left_tokens.len() < expected_tokens {
        return Err(err_at(ErrorKind::MissingTokens, line_num, line));
    } else if left_tokens.len() > expected_tokens {
        return Err(err_at(ErrorKind::ExtraTokens, line_num, line));
    }
    let cleaned = trim(trim_end_char(parts.1, ';'));
    match resolve_value(cleaned, line_num, line, stored_elements) {
        Ok(value) => Ok((left_tokens, value)),
        Err(e) => Err(e),
    }
}

/// The tag-spec and value of a `place` statement: exactly two left
/// tokens, keyword and tag-spec.
pub fn placement_tokens(line_num: usize, line: &str, stored_elements: &SymbolTable) -> (r: Result<
    (String, String),
    TranslateError,
>)
    requires
        line_num < usize::MAX,
    ensures
        ({
            let sp = stmt_parts(line@, line_num as int, 2, stored_elements@);
            match r {
                Ok(p) => sp is Ok && p.0@ == sp->Ok_0.0[1] && p.1@ == sp->Ok_0.1,
                Err(e) => sp is Err && matches_err(e, sp->Err_0),
            }
        }),
{
    match extract_tokens(2, line_num, line, stored_elements) {
        Ok(p) => {
            proof {
                assert(p.0.deep_view()[1] == p.0@[1]@);
            }
            Ok((p.0[1].clone(), p.1))
        },
        Err(e) => Err(e),
    }
}

/// The name and value of a `store` statement: exactly two left tokens,
/// keyword and name.
pub fn storing_tokens(line_num: usize, line: &str, stored_elements: &SymbolTable) -> (r: Result<
    (String, String),
    TranslateError,
>)
    requires
        line_num < usize::MAX,
    ensures
        ({
            let sp = stmt_parts(line@, line_num as int, 2, stored_elements@);
            match r {
                Ok(p) => sp is Ok && p.0@ == sp->Ok_0.0[1] && p.1@ == sp->Ok_0.1,
                Err(e) => sp is Err && matches_err(e, sp->Err_0),
            }
        }),
{
    match extract_tokens(2, line_num, line, stored_elements) {
        Ok(p) => {
            proof {
                assert(p.0.deep_view()[1] == p.0@[1]@);
            }
            Ok((p.0[1].clone(), p.1))
        },
        Err(e) => Err(e),
    }
}

/// The tag-spec, name and value of a `let` statement: exactly three left
/// tokens, keyword, tag-spec and name.
pub fn declaration_tokens(line_num: usize, line: &str, stored_elements: &SymbolTable) -> (r: Result<
    (String, String, String),
    TranslateError,
>)
    requires
        line_num < usize::MAX,
    ensures
        ({
            let sp = stmt_parts(line@, line_num as int, 3, stored_elements@);
            match r {
                Ok(p) => sp is Ok && p.0@ == sp->Ok_0.0[1] && p.1@ == sp->Ok_0.0[2] && p.2@
                    == sp->Ok_0.1,
                Err(e) => sp is Err && matches_err(e, sp->Err_0),
            }
        }),
{
    match extract_tokens(3, line_num, line, stored_elements) {
        Ok(p) => {
            proof {
                assert(p.0.deep_view()[1] == p.0@[1]@);
                assert(p.0.deep_view()[2] == p.0@[2]@);
            }
            Ok((p.0[1].clone(), p.0[2].clone(), p.1))
        },
        Err(e) => Err(e),
    }
}

/// The HTML tag for an LMCL tag name; an unrecognized name is the
/// unknown-tag error.
pub fn type_conversion(input_type: &str, line_num: usize, line: &str) -> (r: Result<
    String,
    TranslateError,
>)
    requires
        line_num < usize::MAX,
    ensures
        match r {
            Ok(h) => tag_html(input_type@) == Some(h@),
            Err(e) => tag_html(input_type@) is None && matches_err(
                e,
                (ErrorKind::UnknownTag, line_num + 1int, line@),
            ),
        },
{
    if str_eq(input_type, "paragraph") || str_eq(input_type, "p") {
        Ok("p".to_owned())
    } else if str_eq(input_type, "title") || str_eq(input_type, "h1") {
        Ok("h1".to_owned())
    } else if str_eq(input_type, "subtitle") || str_eq(input_type, "h2") {
        Ok("h2".to_owned())
    } else if str_eq(input_type, "h3") {
        Ok("h3".to_owned())
    } else if str_eq(input_type, "h4") {
        Ok("h4".to_owned())
    } else if str_eq(input_type, "h5") {
        Ok("h5".to_owned())
    } else if str_eq(input_type, "h6") {
        Ok("h6".to_owned())
    } else if str_eq(input_type, "div") {
        Ok("div".to_owned())
    } else {
        Err(err_at(ErrorKind::UnknownTag, line_num, line))
    }
}

/// Split a `tag.class` spec at its first `.`; a spec without a `.` is
/// the malformed-tag-spec error.
pub fn analyze_class<'a>(input_type: &'a str, line_num: usize, line: &str) -> (r: Result<
    (&'a str, &'a str),
    TranslateError,
>)
    requires
        line_num < usize::MAX,
    ensures
        match r {
            Ok(p) => contains_char(input_type@, '.') && p.0@ == input_type@.subrange(
                0,
                find_if(input_type@, char_pred('.')),
            ) && p.1@ == input_type@.subrange(
                find_if(input_type@, char_pred('.')) + 1,
                input_type@.len() as int,
            ),
            Err(e) => !contains_char(input_type@, '.') && matches_err(
                e,
                (ErrorKind::MalformedTagSpec, line_num + 1int, line@),
            ),
        },
{
    match split_at_char(input_type, '.') {
        Some(parts) => Ok(parts),
        None => Err(err_at(ErrorKind::MalformedTagSpec, line_num, line)),
    }
}

/// The HTML fragment a declaration emits:
/// `<TAG id="NAME">VALUE</TAG>`, with the class attribute when the
/// tag-spec carries one.
pub fn convert_declaration_to_html(
    decl_type: &str,
    decl_name: &str,
    value: &str,
    line_num: usize,
    line: &str,
) -> (r: Result<String, TranslateError>)
    requires
        line_num < usize::MAX,
    ensures
        match r {
            Ok(h) => decl_fragment(decl_type@, decl_name@, value@) == Some(h@),
            Err(e) => decl_fragment(decl_type@, decl_name@, value@) is None && matches_err(
                e,
                (ErrorKind::UnknownTag, line_num + 1int, line@),
            ),
        },
{
    if !str_contains(decl_type, '.') {
        let type_converted = match type_conversion(decl_type, line_num, line) {
            Ok(t) => t,
            Err(e) => {
                return Err(e);
            },
        };
        let mut out = String::new();
        out.append("<");
        out.append(type_converted.as_str());
        out.append(" id=\"");
        out.append(decl_name);
        out.append("\">");
        out.append(value);
        out.append("</");
        out.append(type_converted.as_str());
        out.append(">");
        proof {
            assert(out@ =~= declaration_html(type_converted@, None, decl_name@, value@));
        }
        Ok(out)
    } else {
        let (tag, class) = match analyze_class(decl_type, line_num, line) {
            Ok(p) => p,
            Err(e) => {
                return Err(e);
            },
        };
        let type_converted = match type_conversion(tag, line_num, line) {
            Ok(t) => t,
            Err(e) => {
                return Err(e);
            },
        };
        let mut out = String::new();
        out.append("<");
        out.append(type_converted.as_str());
        out.append(" class=\"");
        out.append(class);
        out.append("\" id=\"");
        out.append(decl_name);
        out.append("\">");
        out.append(value);
        out.append("</");
        out.append(type_converted.as_str());
        out.append(">");
        proof {
            assert(out@ =~= declaration_html(type_converted@, Some(class@), decl_name@, value@));
        }
        Ok(out)
    }
}

/// The HTML fragment a placement emits: `<TAG>VALUE</TAG>`, with the
/// class attribute when the tag-spec carries one.
pub fn convert_placement_to_html(
    place_type: &str,
    value: &str,
    line_num: usize,
    line: &str,
) -> (r: Result<String, TranslateError>)
    requires
        line_num < usize::MAX,
    ensures
        match r {
            Ok(h) => place_fragment(place_type@, value@) == Some(h@),
            Err(e) => place_fragment(place_type@, value@) is None && matches_err(
                e,
                (ErrorKind::UnknownTag, line_num + 1int, line@),
            ),
        },
{
    if !str_contains(place_type, '.') {
        let type_converted = match type_conversion(place_type, line_num, line) {
            Ok(t) => t,
            Err(e) => {
                return Err(e);
            },
        };
        let mut out = String::new();
        out.append("<");
        out.append(type_converted.as_str());
        out.append(">");
        out.append(value);
        out.append("</");
        out.append(type_converted.as_str());
        out.append(">");
        proof {
            assert(out@ =~= placement_html(type_converted@, None, value@));
        }
        Ok(out)
    } else {
        let (tag, class) = match analyze_class(place_type, line_num, line) {
            Ok(p) => p,
            Err(e) => {
                return Err(e);
            },
        };
        let type_converted = match type_conversion(tag, line_num, line) {
            Ok(t) => t,
            Err(e) => {
                return Err(e);
            },
        };
        let mut out = String::new();
        out.append("<");
        out.append(type_converted.as_str());
        out.append(" class=\"");
        out.append(class);
        out.append("\">");
        out.append(value);
        out.append("</");
        out.append(type_converted.as_str());
        out.append(">");
        proof {
            assert(out@ =~= placement_html(type_converted@, Some(class@), value@));
        }
        Ok(out)
    }
}

/// Process the admissible lines in source order: push one HTML fragment
/// per emitting statement onto `html_code` and store named values in
/// `stored_elements`. The first error aborts the run.
#[verifier::loop_isolation(false)]
pub fn pushing_converted_code(
    input_lines: Vec<String>,
    html_code: &mut Vec<String>,
    stored_elements: &mut SymbolTable,
) -> (r: Result<(), TranslateError>)
    ensures
        ({
            let tr = translate_from(input_lines.deep_view(), 0, old(stored_elements)@);
            match r {
                Ok(_) => tr is Ok && final(stored_elements)@ == tr->Ok_0.0 && final(html_code).deep_view()
                    == old(html_code).deep_view() + tr->Ok_0.1,
                Err(e) => tr is Err && matches_err(e, tr->Err_0),
            }
        }),
{
    let ghost lines = input_lines.deep_view();
    let ghost tbl0 = stored_elements@;
    let ghost html0 = html_code.deep_view();
    let n = input_lines.len();
    proof {
        assert(html_code.deep_view().take(html0.len() as int) =~= html0);
        assert(html_code.deep_view().skip(html0.len() as int) =~= Seq::<Seq<char>>::empty());
        let whole = translate_from(lines, 0, tbl0);
        if whole is Ok {
            assert(Seq::<Seq<char>>::empty() + whole->Ok_0.1 =~= whole->Ok_0.1);
        }
    }
    let mut line_num: usize = 0;
    while line_num < n
        invariant
            0 <= line_num <= n,
            html_code.deep_view().len() >= html0.len(),
            html_code.deep_view().take(html0.len() as int) == html0,
            ({
                let emitted = html_code.deep_view().skip(html0.len() as int);
                let cur = translate_from(lines, line_num as int, stored_elements@);
                let whole = translate_from(lines, 0, tbl0);
                match cur {
                    Ok(p) => whole == Ok::<(Map<Seq<char>, Seq<char>>, Seq<Seq<char>>), SpecError>(
                        (p.0, emitted + p.1),
                    ),
                    Err(e) => whole == Err::<
                        (Map<Seq<char>, Seq<char>>, Seq<Seq<char>>),
                        SpecError,
                    >(e),
                }
            }),
        decreases n - line_num,
    {
        let line: &String = &input_lines[line_num];
        let ghost t = lines[line_num as int];
        let ghost ln = line_num as int;
        let ghost tbl_i = stored_elements@;
        let ghost html_i = html_code.deep_view();
        proof {
            assert(t == line@);
        }
        if str_starts_with(line.as_str(), "let") {
            match declaration_tokens(line_num, line.as_str(), stored_elements) {
                Err(e) => {
                    proof {
                        assert(step_spec(t, ln, tbl_i) is Err);
                    }
                    return Err(e);
                },
                Ok(parts) => {
                    let (decl_type, decl_name, value) = parts;
                    if stored_elements.contains_key(decl_name.as_str()) {
                        proof {
                            assert(step_spec(t, ln, tbl_i) == Err::<
                                (Map<Seq<char>, Seq<char>>, Seq<Seq<char>>),
                                SpecError,
                            >((ErrorKind::DuplicateName, ln + 1, t)));
                        }
                        return Err(err_at(ErrorKind::DuplicateName, line_num, line.as_str()));
                    }
                    match convert_declaration_to_html(
                        decl_type.as_str(),
                        decl_name.as_str(),
                        value.as_str(),
                        line_num,
                        line.as_str(),
                    ) {
                        Err(e) => {
                            proof {
                                assert(step_spec(t, ln, tbl_i) == Err::<
                                    (Map<Seq<char>, Seq<char>>, Seq<Seq<char>>),
                                    SpecError,
                                >((ErrorKind::UnknownTag, ln + 1, t)));
                            }
                            return Err(e);
                        },
                        Ok(frag) => {
                            let ghost fv = frag@;
                            let ghost nv = decl_name@;
                            let ghost vv = value@;
                            html_code.push(frag);
                            stored_elements.insert(decl_name, value);
                            proof {
                                assert(step_spec(t, ln, tbl_i) == Ok::<
                                    (Map<Seq<char>, Seq<char>>, Seq<Seq<char>>),
                                    SpecError,
                                >((tbl_i.insert(nv, vv), seq![fv])));
                                assert(html_code.deep_view() =~= html_i.push(fv));
                                assert(html_code.deep_view().take(html0.len() as int) =~= html0);
                                let em_old = html_i.skip(html0.len() as int);
                                let em_new = html_code.deep_view().skip(html0.len() as int);
                                assert(em_new =~= em_old.push(fv));
                                let cur2 = translate_from(lines, ln + 1, stored_elements@);
                                match cur2 {
                                    Ok(p2) => {
                                        assert(em_old + (seq![fv] + p2.1) =~= em_new + p2.1);
                                    },
                                    Err(_) => {},
                                }
                            }
                        },
                    }
                },
            }
        } else if str_starts_with(line.as_str(), "store") {
            match storing_tokens(line_num, line.as_str(), stored_elements) {
                Err(e) => {
                    proof {
                        assert(step_spec(t, ln, tbl_i) is Err);
                    }
                    return Err(e);
                },
                Ok(parts) => {
                    let (store_name, value) = parts;
                    if stored_elements.contains_key(store_name.as_str()) {
                        proof {
                            assert(step_spec(t, ln, tbl_i) == Err::<
                                (Map<Seq<char>, Seq<char>>, Seq<Seq<char>>),
                                SpecError,
                            >((ErrorKind::DuplicateName, ln + 1, t)));
                        }
                        return Err(err_at(ErrorKind::DuplicateName, line_num, line.as_str()));
                    }
                    let ghost nv = store_name@;
                    let ghost vv = value@;
                    stored_elements.insert(store_name, value);
                    proof {
                        assert(step_spec(t, ln, tbl_i) == Ok::<
                            (Map<Seq<char>, Seq<char>>, Seq<Seq<char>>),
                            SpecError,
                        >((tbl_i.insert(nv, vv), Seq::empty())));
                        let em = html_code.deep_view().skip(html0.len() as int);
                        let cur2 = translate_from(lines, ln + 1, stored_elements@);
                        match cur2 {
                            Ok(p2) => {
                                assert(em + (Seq::<Seq<char>>::empty() + p2.1) =~= em + p2.1);
                            },
                            Err(_) => {},
                        }
                    }
                },
            }
        } else if str_starts_with(line.as_str(), "place") {
            match placement_tokens(line_num, line.as_str(), stored_elements) {
                Err(e) => {
                    proof {
                        assert(step_spec(t, ln, tbl_i) is Err);
                    }
                    return Err(e);
                },
                Ok(parts) => {
                    let (place_type, value) = parts;
                    match convert_placement_to_html(
                        place_type.as_str(),
                        value.as_str(),
                        line_num,
                        line.as_str(),
                    ) {
                        Err(e) => {
                            proof {
                                assert(step_spec(t, ln, tbl_i) == Err::<
                                    (Map<Seq<char>, Seq<char>>, Seq<Seq<char>>),
                                    SpecError,
                                >((ErrorKind::UnknownTag, ln + 1, t)));
                            }
                            return Err(e);
                        },
                        Ok(frag) => {
                            let ghost fv = frag@;
                            html_code.push(frag);
                            proof {
                                assert(step_spec(t, ln, tbl_i) == Ok::<
                                    (Map<Seq<char>, Seq<char>>, Seq<Seq<char>>),
                                    SpecError,
                                >((tbl_i, seq![fv])));
                                assert(html_code.deep_view() =~= html_i.push(fv));
                                assert(html_code.deep_view().take(html0.len() as int) =~= html0);
                                let em_old = html_i.skip(html0.len() as int);
                                let em_new = html_code.deep_view().skip(html0.len() as int);
                                assert(em_new =~= em_old.push(fv));
                                let cur2 = translate_from(lines, ln + 1, stored_elements@);
                                match cur2 {
                                    Ok(p2) => {
                                        assert(em_old + (seq![fv] + p2.1) =~= em_new + p2.1);
                                    },
                                    Err(_) => {},
                                }
                            }
                        },
                    }
                },
            }
        } else {
            proof {
                assert(step_spec(t, ln, tbl_i) == Ok::<
                    (Map<Seq<char>, Seq<char>>, Seq<Seq<char>>),
                    SpecError,
                >((tbl_i, Seq::empty())));
                let em = html_code.deep_view().skip(html0.len() as int);
                let cur2 = translate_from(lines, ln + 1, stored_elements@);
                match cur2 {
                    Ok(p2) => {
                        assert(em + (Seq::<Seq<char>>::empty() + p2.1) =~= em + p2.1);
                    },
                    Err(_) => {},
                }
            }
        }
        line_num = line_num + 1;
    }
    proof {
        let emitted = html_code.deep_view().skip(html0.len() as int);
        let whole = translate_from(lines, 0, tbl0);
        assert(translate_from(lines, line_num as int, stored_elements@) == Ok::<
            (Map<Seq<char>, Seq<char>>, Seq<Seq<char>>),
            SpecError,
        >((stored_elements@, Seq::empty())));
        assert(emitted + Seq::<Seq<char>>::empty() =~= emitted);
        assert(whole == Ok::<(Map<Seq<char>, Seq<char>>, Seq<Seq<char>>), SpecError>(
            (stored_elements@, emitted),
        ));
        assert(html_code.deep_view() =~= html0 + emitted);
    }
    Ok(())
}

/// Translate the admissible statement lines into the full HTML document:
/// the fixed header, one fragment per emitting statement in order, and
/// the fixed footer, joined by newlines.
pub fn parse_lines(input_lines: Vec<String>) -> (r: Result<String, TranslateError>)
    ensures
        parse_result_is(input_lines.deep_view(), parse_view(r)),
{
    let ghost lines = input_lines.deep_view();
    let mut html_code: Vec<String> = Vec::new();
    let mut stored_elements = SymbolTable::new();
    html_code.push("<!DOCTYPE html>\n<html>\n<head><meta charset=\"UTF-8\"></head>\n<body>".to_owned());
    proof {
        assert(html_code.deep_view() =~= seq![doc_header()]);
    }
    match pushing_converted_code(input_lines, &mut html_code, &mut stored_elements) {
        Ok(_) => {},
        Err(e) => {
            return Err(e);
        },
    }
    let ghost frags = translation_of(lines)->Ok_0.1;
    proof {
        assert(html_code.deep_view() == seq![doc_header()] + frags);
    }
    let ghost html2 = html_code.deep_view();
    html_code.push("</body>\n</html>".to_owned());
    proof {
        assert(html_code.deep_view() =~= html2.push(doc_footer()));
        assert(html_code.deep_view() =~= seq![doc_header()] + frags + seq![doc_footer()]);
    }
    let out = join_lines(&html_code);
    Ok(out)
}

/// A finished document carries the fixed header at its start and the
/// fixed footer at its end, whatever the statements emitted.
pub proof fn lemma_doc_shape(frags: Seq<Seq<char>>)
    ensures
        doc_header().is_prefix_of(doc_spec(frags)),
        doc_footer().is_suffix_of(doc_spec(frags)),
{
    let all = seq![doc_header()] + frags + seq![doc_footer()];
    assert(all[0] == doc_header());
    assert(all.last() == doc_footer());
    crate::text::lemma_join_nl_prefix(all);
    crate::text::lemma_join_nl_suffix(all);
}

/// Re-declaring or re-storing an existing name fails with the
/// duplicate-name error, whichever statement kind introduced the name
/// and whichever tries to introduce it again: a `let` or `store` line
/// whose parts are in order but whose target name is already stored
/// steps to exactly that error.
pub proof fn lemma_duplicate_name_fails(
    t: Seq<char>,
    n: int,
    tbl: Map<Seq<char>, Seq<char>>,
    toks: Seq<Seq<char>>,
    v: Seq<char>,
)
    requires
        ("let"@.is_prefix_of(t) && stmt_parts(t, n, 3, tbl) == Ok::<
            (Seq<Seq<char>>, Seq<char>),
            SpecError,
        >((toks, v)) && tbl.contains_key(toks[2])) || (!"let"@.is_prefix_of(t)
            && "store"@.is_prefix_of(t) && stmt_parts(t, n, 2, tbl) == Ok::<
            (Seq<Seq<char>>, Seq<char>),
            SpecError,
        >((toks, v)) && tbl.contains_key(toks[1])),
    ensures
        step_spec(t, n, tbl) == Err::<(Map<Seq<char>, Seq<char>>, Seq<Seq<char>>), SpecError>(
            (ErrorKind::DuplicateName, n + 1, t),
        ),
{
}

/// Referencing a name that is not stored fails with the
/// unresolved-reference error: when a statement line's right-hand side,
/// cleaned, holds no quote and is not a stored name, the line's parts
/// resolve to that error, and a line of any of the three statement kinds
/// steps to it.
pub proof fn lemma_unresolved_reference_fails(
    t: Seq<char>,
    n: int,
    expected: int,
    tbl: Map<Seq<char>, Seq<char>>,
)
    requires
        contains_char(t, '='),
        tokens_of(t.subrange(0, find_if(t, char_pred('=')))).len() == expected,
        !contains_char(
            cleaned_of(t.subrange(find_if(t, char_pred('=')) + 1, t.len() as int)),
            '"',
        ),
        !tbl.contains_key(cleaned_of(t.subrange(find_if(t, char_pred('=')) + 1, t.len() as int))),
    ensures
        stmt_parts(t, n, expected, tbl) == Err::<(Seq<Seq<char>>, Seq<char>), SpecError>(
            (ErrorKind::UnresolvedReference, n + 1, t),
        ),
        "let"@.is_prefix_of(t) && expected == 3 ==> step_spec(t, n, tbl) == Err::<
            (Map<Seq<char>, Seq<char>>, Seq<Seq<char>>),
            SpecError,
        >((ErrorKind::UnresolvedReference, n + 1, t)),
        !"let"@.is_prefix_of(t) && "store"@.is_prefix_of(t) && expected == 2 ==> step_spec(
            t,
            n,
            tbl,
        ) == Err::<(Map<Seq<char>, Seq<char>>, Seq<Seq<char>>), SpecError>(
            (ErrorKind::UnresolvedReference, n + 1, t),
        ),
        !"let"@.is_prefix_of(t) && !"store"@.is_prefix_of(t) && "place"@.is_prefix_of(t) && expected
            == 2 ==> step_spec(t, n, tbl) == Err::<
            (Map<Seq<char>, Seq<char>>, Seq<Seq<char>>),
            SpecError,
        >((ErrorKind::UnresolvedReference, n + 1, t)),
{
}

/// Every value of the table is a single line: it holds no newline.
pub open spec fn table_single_line(tbl: Map<Seq<char>, Seq<char>>) -> bool {
    forall|k: Seq<char>| #[trigger] tbl.contains_key(k) ==> !contains_char(tbl[k], '\n')
}

/// The fixed pieces that fragments are assembled from hold no newline.
proof fn lemma_html_pieces_single_line()
    ensures
        !contains_char("<"@, '\n'),
        !contains_char(">"@, '\n'),
        !contains_char("</"@, '\n'),
        !contains_char(" id=\""@, '\n'),
        !contains_char("\">"@, '\n'),
        !contains_char(" class=\""@, '\n'),
        !contains_char("\" id=\""@, '\n'),
{
    reveal_strlit("<");
    reveal_strlit(">");
    reveal_strlit("</");
    reveal_strlit(" id=\"");
    reveal_strlit("\">");
    reveal_strlit(" class=\"");
    reveal_strlit("\" id=\"");
    crate::text::lemma_no_char_of("<"@, '\n');
    crate::text::lemma_no_char_of(">"@, '\n');
    crate::text::lemma_no_char_of("</"@, '\n');
    crate::text::lemma_no_char_of(" id=\""@, '\n');
    crate::text::lemma_no_char_of("\">"@, '\n');
    crate::text::lemma_no_char_of(" class=\""@, '\n');
    crate::text::lemma_no_char_of("\" id=\""@, '\n');
}

/// A recognized tag's HTML name holds no newline.
proof fn lemma_tag_html_single_line(tag: Seq<char>)
    ensures
        tag_html(tag) is Some ==> !contains_char(tag_html(tag)->Some_0, '\n'),
{
    if tag_html(tag) is Some {
        reveal_strlit("p");
        reveal_strlit("h1");
        reveal_strlit("h2");
        reveal_strlit("h3");
        reveal_strlit("h4");
        reveal_strlit("h5");
        reveal_strlit("h6");
        reveal_strlit("div");
        crate::text::lemma_no_char_of("p"@, '\n');
        crate::text::lemma_no_char_of("h1"@, '\n');
        crate::text::lemma_no_char_of("h2"@, '\n');
        crate::text::lemma_no_char_of("h3"@, '\n');
        crate::text::lemma_no_char_of("h4"@, '\n');
        crate::text::lemma_no_char_of("h5"@, '\n');
        crate::text::lemma_no_char_of("h6"@, '\n');
        crate::text::lemma_no_char_of("div"@, '\n');
    }
}

/// A declaration fragment assembled from single-line parts is one line.
proof fn lemma_declaration_html_single_line(
    tag: Seq<char>,
    class: Option<Seq<char>>,
    name: Seq<char>,
    value: Seq<char>,
)
    requires
        !contains_char(tag, '\n'),
        match class {
            Some(c) => !contains_char(c, '\n'),
            None => true,
        },
        !contains_char(name, '\n'),
        !contains_char(value, '\n'),
    ensures
        !contains_char(declaration_html(tag, class, name, value), '\n'),
{
    lemma_html_pieces_single_line();
    let nl = '\n';
    match class {
        None => {
            let e1 = "<"@ + tag;
            crate::text::lemma_no_char_concat("<"@, tag, nl);
            let e2 = e1 + " id=\""@;
            crate::text::lemma_no_char_concat(e1, " id=\""@, nl);
            let e3 = e2 + name;
            crate::text::lemma_no_char_concat(e2, name, nl);
            let e4 = e3 + "\">"@;
            crate::text::lemma_no_char_concat(e3, "\">"@, nl);
            let e5 = e4 + value;
            crate::text::lemma_no_char_concat(e4, value, nl);
            let e6 = e5 + "</"@;
            crate::text::lemma_no_char_concat(e5, "</"@, nl);
            let e7 = e6 + tag;
            crate::text::lemma_no_char_concat(e6, tag, nl);
            crate::text::lemma_no_char_concat(e7, ">"@, nl);
        },
        Some(c) => {
            let e1 = "<"@ + tag;
            crate::text::lemma_no_char_concat("<"@, tag, nl);
            let e2 = e1 + " class=\""@;
            crate::text::lemma_no_char_concat(e1, " class=\""@, nl);
            let e3 = e2 + c;
            crate::text::lemma_no_char_concat(e2, c, nl);
            let e4 = e3 + "\" id=\""@;
            crate::text::lemma_no_char_concat(e3, "\" id=\""@, nl);
            let e5 = e4 + name;
            crate::text::lemma_no_char_concat(e4, name, nl);
            let e6 = e5 + "\">"@;
            crate::text::lemma_no_char_concat(e5, "\">"@, nl);
            let e7 = e6 + value;
            crate::text::lemma_no_char_concat(e6, value, nl);
            let e8 = e7 + "</"@;
            crate::text::lemma_no_char_concat(e7, "</"@, nl);
            let e9 = e8 + tag;
            crate::text::lemma_no_char_concat(e8, tag, nl);
            crate::text::lemma_no_char_concat(e9, ">"@, nl);
        },
    }
}

/// A placement fragment assembled from single-line parts is one line.
proof fn lemma_placement_html_single_line(
    tag: Seq<char>,
    class: Option<Seq<char>>,
    value: Seq<char>,
)
    requires
        !contains_char(tag, '\n'),
        match class {
            Some(c) => !contains_char(c, '\n'),
            None => true,
        },
        !contains_char(value, '\n'),
    ensures
        !contains_char(placement_html(tag, class, value), '\n'),
{
    lemma_html_pieces_single_line();
    let nl = '\n';
    match class {
        None => {
            let e1 = "<"@ + tag;
            crate::text::lemma_no_char_concat("<"@, tag, nl);
            let e2 = e1 + ">"@;
            crate::text::lemma_no_char_concat(e1, ">"@, nl);
            let e3 = e2 + value;
            crate::text::lemma_no_char_concat(e2, value, nl);
            let e4 = e3 + "</"@;
            crate::text::lemma_no_char_concat(e3, "</"@, nl);
            let e5 = e4 + tag;
            crate::text::lemma_no_char_concat(e4, tag, nl);
            crate::text::lemma_no_char_concat(e5, ">"@, nl);
        },
        Some(c) => {
            let e1 = "<"@ + tag;
            crate::text::lemma_no_char_concat("<"@, tag, nl);
            let e2 = e1 + " class=\""@;
            crate::text::lemma_no_char_concat(e1, " class=\""@, nl);
            let e3 = e2 + c;
            crate::text::lemma_no_char_concat(e2, c, nl);
            let e4 = e3 + "\">"@;
            crate::text::lemma_no_char_concat(e3, "\">"@, nl);
            let e5 = e4 + value;
            crate::text::lemma_no_char_concat(e4, value, nl);
            let e6 = e5 + "</"@;
            crate::text::lemma_no_char_concat(e5, "</"@, nl);
            let e7 = e6 + tag;
            crate::text::lemma_no_char_concat(e6, tag, nl);
            crate::text::lemma_no_char_concat(e7, ">"@, nl);
        },
    }
}

/// The tokens and resolved value of a successfully parsed single-line
/// statement are single lines themselves.
proof fn lemma_stmt_parts_single_line(
    t: Seq<char>,
    n: int,
    expected: int,
    tbl: Map<Seq<char>, Seq<char>>,
)
    requires
        !contains_char(t, '\n'),
        table_single_line(tbl),
        stmt_parts(t, n, expected, tbl) is Ok,
    ensures
        forall|m: int|
            0 <= m < stmt_parts(t, n, expected, tbl)->Ok_0.0.len() ==> !contains_char(
                #[trigger] stmt_parts(t, n, expected, tbl)->Ok_0.0[m],
                '\n',
            ),
        !contains_char(stmt_parts(t, n, expected, tbl)->Ok_0.1, '\n'),
{
    let nl = '\n';
    let k = find_if(t, char_pred('='));
    crate::text::lemma_find_if(t, char_pred('='));
    assert(0 <= k < t.len());
    let left = t.subrange(0, k);
    let right = t.subrange(k + 1, t.len() as int);
    crate::text::lemma_no_char_subrange(t, nl, 0, k);
    crate::text::lemma_no_char_subrange(t, nl, k + 1, t.len() as int);
    crate::text::lemma_no_char_tokens(left, nl, 0);
    crate::text::lemma_no_char_cleaned(right, nl);
    let cv = cleaned_of(right);
    if contains_char(cv, '"') {
        crate::text::lemma_no_char_trim_char(cv, '"', nl);
    } else {
        assert(tbl.contains_key(cv));
    }
}

/// The fragment of a recognized tag-spec whose parts are single lines is
/// a single line.
proof fn lemma_fragment_single_line(ts: Seq<char>, name: Seq<char>, value: Seq<char>)
    requires
        !contains_char(ts, '\n'),
        !contains_char(name, '\n'),
        !contains_char(value, '\n'),
    ensures
        decl_fragment(ts, name, value) is Some ==> !contains_char(
            decl_fragment(ts, name, value)->Some_0,
            '\n',
        ),
        place_fragment(ts, value) is Some ==> !contains_char(
            place_fragment(ts, value)->Some_0,
            '\n',
        ),
{
    let nl = '\n';
    let (tag, class) = tag_class_of(ts);
    if contains_char(ts, '.') {
        let k = find_if(ts, char_pred('.'));
        crate::text::lemma_find_if(ts, char_pred('.'));
        crate::text::lemma_no_char_subrange(ts, nl, 0, k);
        crate::text::lemma_no_char_subrange(ts, nl, k + 1, ts.len() as int);
    }
    lemma_tag_html_single_line(tag);
    match tag_html(tag) {
        Some(h) => {
            lemma_declaration_html_single_line(h, class, name, value);
            lemma_placement_html_single_line(h, class, value);
        },
        None => {},
    }
}

/// One successful step of single-line state emits single-line fragments
/// and keeps every table value a single line.
proof fn lemma_step_single_line(t: Seq<char>, n: int, tbl: Map<Seq<char>, Seq<char>>)
    requires
        !contains_char(t, '\n'),
        table_single_line(tbl),
        step_spec(t, n, tbl) is Ok,
    ensures
        table_single_line(step_spec(t, n, tbl)->Ok_0.0),
        forall|m: int|
            0 <= m < step_spec(t, n, tbl)->Ok_0.1.len() ==> !contains_char(
                #[trigger] step_spec(t, n, tbl)->Ok_0.1[m],
                '\n',
            ),
{
    let nl = '\n';
    if "let"@.is_prefix_of(t) {
        lemma_stmt_parts_single_line(t, n, 3, tbl);
        let (toks, v) = stmt_parts(t, n, 3, tbl)->Ok_0;
        lemma_fragment_single_line(toks[1], toks[2], v);
        let f = decl_fragment(toks[1], toks[2], v)->Some_0;
        assert(seq![f][0] == f);
        let t2 = tbl.insert(toks[2], v);
        assert forall|k: Seq<char>| #[trigger] t2.contains_key(k) implies !contains_char(
            t2[k],
            nl,
        ) by {
            if k != toks[2] {
                assert(tbl.contains_key(k));
            }
        }
    } else if "store"@.is_prefix_of(t) {
        lemma_stmt_parts_single_line(t, n, 2, tbl);
        let (toks, v) = stmt_parts(t, n, 2, tbl)->Ok_0;
        let t2 = tbl.insert(toks[1], v);
        assert forall|k: Seq<char>| #[trigger] t2.contains_key(k) implies !contains_char(
            t2[k],
            nl,
        ) by {
            if k != toks[1] {
                assert(tbl.contains_key(k));
            }
        }
    } else if "place"@.is_prefix_of(t) {
        lemma_stmt_parts_single_line(t, n, 2, tbl);
        let (toks, v) = stmt_parts(t, n, 2, tbl)->Ok_0;
        lemma_fragment_single_line(toks[1], toks[1], v);
        let f = place_fragment(toks[1], v)->Some_0;
        assert(seq![f][0] == f);
    } else {
    }
}

/// A successful translation of single-line lines emits only single-line
/// fragments and keeps every table value a single line.
proof fn lemma_translate_single_line(lines: Seq<Seq<char>>, i: int, tbl: Map<Seq<char>, Seq<char>>)
    requires
        forall|j: int| 0 <= j < lines.len() ==> !contains_char(#[trigger] lines[j], '\n'),
        table_single_line(tbl),
        translate_from(lines, i, tbl) is Ok,
    ensures
        table_single_line(translate_from(lines, i, tbl)->Ok_0.0),
        forall|m: int|
            0 <= m < translate_from(lines, i, tbl)->Ok_0.1.len() ==> !contains_char(
                #[trigger] translate_from(lines, i, tbl)->Ok_0.1[m],
                '\n',
            ),
    decreases lines.len() - i,
{
    if i < 0 || i >= lines.len() {
    } else {
        lemma_step_single_line(lines[i], i, tbl);
        let (t2, fr) = step_spec(lines[i], i, tbl)->Ok_0;
        lemma_translate_single_line(lines, i + 1, t2);
        let rest = translate_from(lines, i + 1, t2)->Ok_0.1;
        assert forall|m: int| 0 <= m < (fr + rest).len() implies !contains_char(
            #[trigger] (fr + rest)[m],
            '\n',
        ) by {
            if m < fr.len() {
                assert((fr + rest)[m] == fr[m]);
            } else {
                assert((fr + rest)[m] == rest[m - fr.len()]);
            }
        }
    }
}

/// A successful translation of single-line statement lines emits only
/// single-line fragments: in the finished document each emitted element
/// sits on a line of its own between the fixed header and footer, so
/// neither the multi-line header nor the footer can recur inside them.
pub proof fn lemma_fragments_single_line(lines: Seq<Seq<char>>)
    requires
        forall|j: int| 0 <= j < lines.len() ==> !contains_char(#[trigger] lines[j], '\n'),
        translation_of(lines) is Ok,
    ensures
        forall|m: int|
            0 <= m < translation_of(lines)->Ok_0.1.len() ==> !contains_char(
                #[trigger] translation_of(lines)->Ok_0.1[m],
                '\n',
            ),
{
    let tbl = Map::<Seq<char>, Seq<char>>::empty();
    assert forall|k: Seq<char>| #[trigger] tbl.contains_key(k) implies !contains_char(
        tbl[k],
        '\n',
    ) by {}
    lemma_translate_single_line(lines, 0, tbl);
}

/// Two translation runs of the same lines agree exactly: the result is a
/// pure function of the input.
pub proof fn lemma_translation_deterministic(
    lines: Seq<Seq<char>>,
    r1: Result<Seq<char>, SpecError>,
    r2: Result<Seq<char>, SpecError>,
)
    requires
        parse_result_is(lines, r1),
        parse_result_is(lines, r2),
    ensures
        r1 == r2,
{
}

} // verus!
