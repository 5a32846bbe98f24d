//! The line filter: consumes the raw source text and returns the ordered
//! sequence of syntactically admissible statement lines, trimmed, or
//! fails on the first malformed line.
//!
//! Per line: trim surrounding whitespace; a blank line or a `//` comment
//! is silently dropped; a line beginning with `let`, `store` or `place`
//! and ending with `;` is retained; any other line is a fatal syntax
//! error naming the 1-based line number and the trimmed line.

use crate::error::{err_at, matches_err, ErrorKind, TranslateError};
use crate::text::{last_char_is, str_starts_with, trim, trim_spec};
use vstd::prelude::*;
use vstd::string::*;

verus! {

/// A trimmed line is a statement line: it begins with one of the three
/// keywords and ends with `;`.
pub open spec fn stmt_shaped(t: Seq<char>) -> bool {
    ("let"@.is_prefix_of(t) || "store"@.is_prefix_of(t) || "place"@.is_prefix_of(t)) && t.len() > 0
        && t.last() == ';'
}

/// A trimmed line is admissible: blank, a comment, or a statement line.
/// Anything else is a syntax error.
pub open spec fn line_passes(t: Seq<char>) -> bool {
    t.len() == 0 || "//"@.is_prefix_of(t) || stmt_shaped(t)
}

/// A trimmed line is retained for the translator: admissible and neither
/// blank nor a comment.
pub open spec fn line_kept(t: Seq<char>) -> bool {
    t.len() > 0 && !"//"@.is_prefix_of(t) && stmt_shaped(t)
}

/// Length of the line starting at position `i` of `code`: the run of
/// characters before the next newline or the end.
pub open spec fn line_len(code: Seq<char>, i: int) -> nat
    decreases code.len() - i,
{
    if i < 0 || i >= code.len() || code[i] == '\n' {
        0
    } else {
        (1 + line_len(code, i + 1)) as nat
    }
}

/// The retained lines of `code` from position `i` on, `done` lines
/// already consumed, or the first syntax error as its 1-based line
/// number and trimmed text.
pub open spec fn filter_from(code: Seq<char>, i: int, done: int) -> Result<
    Seq<Seq<char>>,
    (int, Seq<char>),
>
    decreases code.len() - i,
{
    let j = i + line_len(code, i);
    let t = trim_spec(code.subrange(i, j));
    if !line_passes(t) {
        Err((done + 1, t))
    } else {
        let kept: Seq<Seq<char>> = if line_kept(t) {
            seq![t]
        } else {
            Seq::empty()
        };
        if j >= code.len() {
            Ok(kept)
        } else {
            match filter_from(code, j + 1, done + 1) {
                Err(e) => Err(e),
                Ok(rest) => Ok(kept + rest),
            }
        }
    }
}

/// The retained lines of the whole source, or the first syntax error.
pub open spec fn filter_spec(code: Seq<char>) -> Result<Seq<Seq<char>>, (int, Seq<char>)> {
    filter_from(code, 0, 0)
}

/// The line starting at `i` ends exactly at `j`.
proof fn lemma_line_len_at(code: Seq<char>, i: int, j: int)
    requires
        0 <= i <= j <= code.len(),
        forall|k: int| i <= k < j ==> code[k] != '\n',
        j < code.len() ==> code[j] == '\n',
    ensures
        line_len(code, i) == j - i,
    decreases j - i,
{
    if i < j {
        lemma_line_len_at(code, i + 1, j);
    }
}

/// The characters of the line starting at `i` lie before its newline.
proof fn lemma_line_region_no_newline(code: Seq<char>, i: int)
    ensures
        forall|k: int| i <= k < i + line_len(code, i) ==> code[k] != '\n',
    decreases code.len() - i,
{
    if !(i < 0 || i >= code.len() || code[i] == '\n') {
        lemma_line_region_no_newline(code, i + 1);
    }
}

/// A line starting inside `code` ends no later than `code` does.
proof fn lemma_line_len_bound(code: Seq<char>, i: int)
    requires
        0 <= i <= code.len(),
    ensures
        line_len(code, i) <= code.len() - i,
    decreases code.len() - i,
{
    if i < code.len() && code[i] != '\n' {
        lemma_line_len_bound(code, i + 1);
    }
}

/// Every line the filter retains is a single line: it holds no newline.
proof fn lemma_filter_single_line(code: Seq<char>, i: int, done: int)
    requires
        0 <= i <= code.len(),
        filter_from(code, i, done) is Ok,
    ensures
        forall|m: int|
            0 <= m < filter_from(code, i, done)->Ok_0.len() ==> !crate::text::contains_char(
                #[trigger] filter_from(code, i, done)->Ok_0[m],
                '\n',
            ),
    decreases code.len() - i,
{
    let j = i + line_len(code, i);
    lemma_line_len_bound(code, i);
    let sub = code.subrange(i, j);
    let t = trim_spec(sub);
    lemma_line_region_no_newline(code, i);
    assert forall|m: int| 0 <= m < sub.len() implies sub[m] != '\n' by {
        assert(sub[m] == code[i + m]);
    }
    crate::text::lemma_no_char_of(sub, '\n');
    crate::text::lemma_no_char_trim(sub, '\n');
    let kept: Seq<Seq<char>> = if line_kept(t) {
        seq![t]
    } else {
        Seq::empty()
    };
    if line_kept(t) {
        assert(kept[0] == t);
    }
    if j < code.len() {
        lemma_filter_single_line(code, j + 1, done + 1);
        let rest = filter_from(code, j + 1, done + 1)->Ok_0;
        assert forall|m: int| 0 <= m < (kept + rest).len() implies !crate::text::contains_char(
            #[trigger] (kept + rest)[m],
            '\n',
        ) by {
            if m < kept.len() {
                assert((kept + rest)[m] == kept[m]);
            } else {
                assert((kept + rest)[m] == rest[m - kept.len()]);
            }
        }
    }
}

/// Every line a successful filter retains is a single line: it holds no
/// newline. The translator's single-line guarantees therefore apply to
/// whatever the filter hands it.
pub proof fn lemma_retained_lines_single_line(code: Seq<char>)
    requires
        filter_spec(code) is Ok,
    ensures
        forall|m: int|
            0 <= m < filter_spec(code)->Ok_0.len() ==> !crate::text::contains_char(
                #[trigger] filter_spec(code)->Ok_0[m],
                '\n',
            ),
{
    lemma_filter_single_line(code, 0, 0);
}

/// Judge one trimmed line: dropped (`Ok(false)`), retained (`Ok(true)`),
/// or the syntax error. A non-blank, non-comment line is retained if and
/// only if it begins with `let`, `store` or `place` and ends with `;`.
pub fn is_line_valid(line_num: usize, line: &str) -> (r: Result<bool, TranslateError>)
    requires
        line@.len() > 0 ==> line_num < usize::MAX,
    ensures
        match r {
            Ok(true) => line_passes(line@) && line_kept(line@),
            Ok(false) => line_passes(line@) && !line_kept(line@),
            Err(e) => !line_passes(line@) && matches_err(
                e,
                (ErrorKind::Syntax, line_num + 1int, line@),
            ),
        },
{
    if line.unicode_len() == 0 || str_starts_with(line, "//") {
        Ok(false)
    } else if (str_starts_with(line, "let") || str_starts_with(line, "store") || str_starts_with(
        line,
        "place",
    )) && last_char_is(line, ';') {
        Ok(true)
    } else {
        Err(err_at(ErrorKind::Syntax, line_num, line))
    }
}

/// Filter the raw source into its admissible statement lines, trimmed and
/// in order; fail on the first line that is neither blank, a comment,
/// nor a statement line.
pub fn store_valid_lines(code: &str) -> (r: Result<Vec<String>, TranslateError>)
    ensures
        ({
            let fs = filter_spec(code@);
            match r {
                Ok(v) => fs is Ok && v.deep_view() == fs->Ok_0,
                Err(e) => fs is Err && matches_err(
                    e,
                    (ErrorKind::Syntax, fs->Err_0.0, fs->Err_0.1),
                ),
            }
        }),
{
    let n = code.unicode_len();
    let mut valid_lines: Vec<String> = Vec::new();
    let mut i: usize = 0;
    let mut line_num: usize = 0;
    proof {
        let fs = filter_spec(code@);
        if fs is Ok {
            assert(Seq::<Seq<char>>::empty() + fs->Ok_0 =~= fs->Ok_0);
        }
    }
    loop
        invariant_except_break
            ({
                let fs = filter_spec(code@);
                let cur = filter_from(code@, i as int, line_num as int);
                match cur {
                    Ok(rest) => fs == Ok::<Seq<Seq<char>>, (int, Seq<char>)>(
                        valid_lines.deep_view() + rest,
                    ),
                    Err(e) => fs == Err::<Seq<Seq<char>>, (int, Seq<char>)>(e),
                }
            }),
        invariant
            n == code@.len(),
            0 <= i <= n,
            line_num <= i,
        ensures
            filter_spec(code@) is Ok && valid_lines.deep_view() == filter_spec(code@)->Ok_0,
        decreases n - i,
    {
        let mut j: usize = i;
        while j < n && code.get_char(j) != '\n'
            invariant
                n == code@.len(),
                i <= j <= n,
                forall|k: int| i <= k < j ==> code@[k] != '\n',
            decreases n - j,
        {
            j = j + 1;
        }
        proof {
            lemma_line_len_at(code@, i as int, j as int);
        }
        let raw = code.substring_char(i, j);
        let t = trim(raw);
        let ghost prev = valid_lines.deep_view();
        match is_line_valid(line_num, t) {
            Ok(true) => {
                valid_lines.push(t.to_owned());
                proof {
                    assert(valid_lines.deep_view() =~= prev.push(t@));
                }
            },
            Ok(false) => {},
            Err(e) => {
                return Err(e);
            },
        }
        if j < n {
            proof {
                let cur = filter_from(code@, i as int, line_num as int);
                let next = filter_from(code@, j + 1, line_num + 1);
                let ghost kept: Seq<Seq<char>> = if line_kept(t@) {
                    seq![t@]
                } else {
                    Seq::empty()
                };
                match next {
                    Ok(rest) => {
                        assert(prev + (kept + rest) =~= valid_lines.deep_view() + rest);
                    },
                    Err(_) => {},
                }
            }
            i = j + 1;
            line_num = line_num + 1;
        } else {
            proof {
                let cur = filter_from(code@, i as int, line_num as int);
                let ghost kept: Seq<Seq<char>> = if line_kept(t@) {
                    seq![t@]
                } else {
                    Seq::empty()
                };
                assert(cur == Ok::<Seq<Seq<char>>, (int, Seq<char>)>(kept));
                assert(prev + kept =~= valid_lines.deep_view());
            }
            break ;
        }
    }
    Ok(valid_lines)
}

} // verus!
