//! The fatal translation error: every failure carries what went wrong,
//! the 1-based number of the offending line, and that line's text.

use vstd::prelude::*;

verus! {

/// What went wrong. Every kind aborts the whole run.
#[derive(Clone, Copy, Debug, PartialEq, Eq, Structural)]
pub enum ErrorKind {
    /// A non-blank, non-comment line fails the keyword/terminator allow-list.
    Syntax,
    /// A statement line has no `=` separator.
    MissingEquals,
    /// The left side of a statement has too few tokens for its kind.
    MissingTokens,
    /// The left side of a statement has too many tokens for its kind.
    ExtraTokens,
    /// A bare value names no stored element.
    UnresolvedReference,
    /// A declaration or storage targets a name that is already stored.
    DuplicateName,
    /// A tag is not in the recognized set.
    UnknownTag,
    /// A `tag.class` split was attempted on a spec without a `.`.
    MalformedTagSpec,
}

/// A fatal translation error.
#[derive(Debug)]
pub struct TranslateError {
    /// What went wrong.
    pub kind: ErrorKind,
    /// The 1-based number of the offending line.
    pub line_num: usize,
    /// The offending line's text.
    pub line: String,
}

/// The fixed phrase describing each error kind.
pub open spec fn kind_text(kind: ErrorKind) -> Seq<char> {
    match kind {
        ErrorKind::Syntax => "Syntax error"@,
        ErrorKind::MissingEquals => "Missing '=' separator"@,
        ErrorKind::MissingTokens => "Missing tokens"@,
        ErrorKind::ExtraTokens => "Too many tokens"@,
        ErrorKind::UnresolvedReference => "Failed to find value of element"@,
        ErrorKind::DuplicateName => "Multiple elements with same name"@,
        ErrorKind::UnknownTag => "Non-existent tag"@,
        ErrorKind::MalformedTagSpec => "Expected 'tag.class' format"@,
    }
}

/// The user-facing message for an error: its kind's phrase, the 1-based
/// line number in decimal, and the offending line.
pub open spec fn message_of(kind: ErrorKind, line_num: nat, line: Seq<char>) -> Seq<char> {
    kind_text(kind) + ", on line "@ + crate::text::dec_str(line_num) + ": "@ + line
}

impl TranslateError {
    /// The user-facing message: what went wrong, on which line, and that
    /// line's text.
    pub fn message(&self) -> (r: String)
        ensures
            r@ == message_of(self.kind, self.line_num as nat, self.line@),
    {
        let mut out: String = match self.kind {
            ErrorKind::Syntax => "Syntax error".to_owned(),
            ErrorKind::MissingEquals => "Missing '=' separator".to_owned(),
            ErrorKind::MissingTokens => "Missing tokens".to_owned(),
            ErrorKind::ExtraTokens => "Too many tokens".to_owned(),
            ErrorKind::UnresolvedReference => "Failed to find value of element".to_owned(),
            ErrorKind::DuplicateName => "Multiple elements with same name".to_owned(),
            ErrorKind::UnknownTag => "Non-existent tag".to_owned(),
            ErrorKind::MalformedTagSpec => "Expected 'tag.class' format".to_owned(),
        };
        out.append(", on line ");
        let num = crate::text::usize_to_string(self.line_num);
        out.append(num.as_str());
        out.append(": ");
        out.append(self.line.as_str());
        proof {
            assert(out@ =~= message_of(self.kind, self.line_num as nat, self.line@));
        }
        out
    }
}

/// An error at the spec level: kind, 1-based line number, line text.
pub type SpecError = (ErrorKind, int, Seq<char>);

/// The error `e` carries exactly the spec-level error `s`.
pub open spec fn matches_err(e: TranslateError, s: SpecError) -> bool {
    e.kind == s.0 && e.line_num as int == s.1 && e.line@ == s.2
}

/// Build the error of kind `kind` for the line at 0-based position `n`.
pub fn err_at(kind: ErrorKind, n: usize, line: &str) -> (e: TranslateError)
    requires
        n < usize::MAX,
    ensures
        matches_err(e, (kind, n + 1int, line@)),
{
    TranslateError { kind, line_num: n + 1, line: line.to_owned() }
}

} // verus!
