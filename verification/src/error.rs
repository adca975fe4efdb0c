//! The single error type of the library, its texts and its exit codes.

use vstd::prelude::*;
use vstd::string::*;

use crate::text::{
    debug_quoted, join, join_strings, law_every_part_is_in_the_joined_text, lemma_occurs_between,
    lemma_occurs_within, occurs, quoted, views,
};

verus! {

/// Everything that a command can fail with.
#[derive(Debug)]
pub enum SiftError {
    /// A request could not be carried out.
    Network(String),
    /// Nothing matches the query.
    NotFound(String),
    /// The program was driven in a way that makes no sense.
    Internal(String),
    /// A text does not have the shape it should have.
    Parse(String),
    /// The file system refused something.
    Io(String),
    /// The reader of standard output went away.
    BrokenPipe,
    /// Every applicable source failed: one `(name, message)` for each.
    AllSourcesFailed(Vec<(String, String)>),
    /// No registered source takes the request.
    NoApplicableSource(String),
    /// The code is not in the listings.
    MissingOrgId(String),
    /// No credentials for text recognition are configured.
    OcrTokenMissing,
}

/// An error as the texts that it carries.
pub enum ErrorView {
    Network(Seq<char>),
    NotFound(Seq<char>),
    Internal(Seq<char>),
    Parse(Seq<char>),
    Io(Seq<char>),
    BrokenPipe,
    AllSourcesFailed(Seq<(Seq<char>, Seq<char>)>),
    NoApplicableSource(Seq<char>),
    MissingOrgId(Seq<char>),
    OcrTokenMissing,
}

/// The texts of a list of `(name, message)` pairs.
pub open spec fn pair_views(v: Seq<(String, String)>) -> Seq<(Seq<char>, Seq<char>)> {
    v.map_values(|p: (String, String)| (p.0@, p.1@))
}

impl View for SiftError {
    type V = ErrorView;

    open spec fn view(&self) -> ErrorView {
        match self {
            SiftError::Network(m) => ErrorView::Network(m@),
            SiftError::NotFound(m) => ErrorView::NotFound(m@),
            SiftError::Internal(m) => ErrorView::Internal(m@),
            SiftError::Parse(m) => ErrorView::Parse(m@),
            SiftError::Io(m) => ErrorView::Io(m@),
            SiftError::BrokenPipe => ErrorView::BrokenPipe,
            SiftError::AllSourcesFailed(v) => ErrorView::AllSourcesFailed(pair_views(v@)),
            SiftError::NoApplicableSource(m) => ErrorView::NoApplicableSource(m@),
            SiftError::MissingOrgId(m) => ErrorView::MissingOrgId(m@),
            SiftError::OcrTokenMissing => ErrorView::OcrTokenMissing,
        }
    }
}

/// A result with both sides taken by their views.
pub open spec fn outcome<T: View>(r: Result<T, SiftError>) -> Result<T::V, ErrorView> {
    match r {
        Ok(t) => Ok(t@),
        Err(e) => Err(e@),
    }
}

/// One `  name: message` line.
pub open spec fn failure_line(p: (Seq<char>, Seq<char>)) -> Seq<char> {
    "  "@ + p.0 + ": "@ + p.1
}

/// One line for each failed source, in order.
pub open spec fn failure_lines(v: Seq<(Seq<char>, Seq<char>)>) -> Seq<char> {
    join(v.map_values(|p: (Seq<char>, Seq<char>)| failure_line(p)), "\n"@)
}

impl ErrorView {
    /// The text shown to the user.
    pub open spec fn message(self) -> Seq<char> {
        match self {
            ErrorView::Network(m) => "network error: "@ + m,
            ErrorView::NotFound(m) => "no match for query "@ + quoted(m),
            ErrorView::Internal(m) => "internal: "@ + m,
            ErrorView::Parse(m) => "parse error: "@ + m,
            ErrorView::Io(m) => "io error: "@ + m,
            ErrorView::BrokenPipe => "broken pipe"@,
            ErrorView::AllSourcesFailed(v) => "all sources failed:\n"@ + failure_lines(v),
            ErrorView::NoApplicableSource(m) => "no applicable source for "@ + m,
            ErrorView::MissingOrgId(m) => "symbol "@ + quoted(m)
                + " not in cninfo listings; check the code or wait for the list refresh"@,
            ErrorView::OcrTokenMissing =>
                "PaddleOCR not configured. Set either (PADDLEOCR_API_BASE + PADDLEOCR_API_TOKEN) or (PADDLEOCR_API_KEY + PADDLEOCR_SECRET_KEY) in the environment"@,
        }
    }

    /// The exit code of the process.
    pub open spec fn exit_code(self) -> int {
        match self {
            ErrorView::BrokenPipe => 0,
            ErrorView::Network(_) | ErrorView::AllSourcesFailed(_) => 3,
            ErrorView::NotFound(_) => 4,
            _ => 1,
        }
    }
}

/// The concatenation of two texts.
pub fn concat2(a: &str, b: &str) -> (out: String)
    ensures
        out@ == a@ + b@,
{
    let mut out = a.to_owned();
    out.append(b);
    out
}

/// The concatenation of three texts.
pub fn concat3(a: &str, b: &str, c: &str) -> (out: String)
    ensures
        out@ == a@ + b@ + c@,
{
    let mut out = concat2(a, b);
    out.append(c);
    out
}

/// The concatenation of four texts.
pub fn concat4(a: &str, b: &str, c: &str, d: &str) -> (out: String)
    ensures
        out@ == a@ + b@ + c@ + d@,
{
    let mut out = concat3(a, b, c);
    out.append(d);
    out
}

/// The concatenation of five texts.
pub fn concat5(a: &str, b: &str, c: &str, d: &str, e: &str) -> (out: String)
    ensures
        out@ == a@ + b@ + c@ + d@ + e@,
{
    let mut out = concat4(a, b, c, d);
    out.append(e);
    out
}

/// One indented `name: message` line for each failed source.
pub fn format_source_failures(failures: &Vec<(String, String)>) -> (out: String)
    ensures
        out@ == failure_lines(pair_views(failures@)),
{
    let mut lines: Vec<String> = Vec::new();
    let mut i: usize = 0;
    while i < failures.len()
        invariant
            i <= failures@.len(),
            lines@.len() == i,
            forall|k: int|
                0 <= k < i ==> (#[trigger] lines@[k])@ == failure_line(pair_views(failures@)[k]),
        decreases failures@.len() - i,
    {
        let line = concat4("  ", failures[i].0.as_str(), ": ", failures[i].1.as_str());
        lines.push(line);
        i = i + 1;
    }
    proof {
        assert(views(lines@) =~= pair_views(failures@).map_values(
            |p: (Seq<char>, Seq<char>)| failure_line(p),
        ));
    }
    join_strings(&lines, "\n")
}

impl SiftError {
    /// The exit code of the process: 0 for a closed pipe, 1 for what the user
    /// can mend, 3 for the network, 4 for an empty search.
    pub fn exit_code(&self) -> (code: i32)
        ensures
            code == self@.exit_code(),
    {
        match self {
            SiftError::BrokenPipe => 0,
            SiftError::Internal(_)
            | SiftError::Parse(_)
            | SiftError::Io(_)
            | SiftError::NoApplicableSource(_)
            | SiftError::MissingOrgId(_)
            | SiftError::OcrTokenMissing => 1,
            SiftError::Network(_) | SiftError::AllSourcesFailed(_) => 3,
            SiftError::NotFound(_) => 4,
        }
    }

    /// The text shown to the user.
    pub fn message(&self) -> (out: String)
        ensures
            out@ == self@.message(),
    {
        match self {
            SiftError::Network(m) => concat2("network error: ", m.as_str()),
            SiftError::NotFound(m) => {
                let q = debug_quoted(m.as_str());
                concat2("no match for query ", q.as_str())
            },
            SiftError::Internal(m) => concat2("internal: ", m.as_str()),
            SiftError::Parse(m) => concat2("parse error: ", m.as_str()),
            SiftError::Io(m) => concat2("io error: ", m.as_str()),
            SiftError::BrokenPipe => "broken pipe".to_owned(),
            SiftError::AllSourcesFailed(v) => {
                let lines = format_source_failures(v);
                concat2("all sources failed:\n", lines.as_str())
            },
            SiftError::NoApplicableSource(m) => concat2("no applicable source for ", m.as_str()),
            SiftError::MissingOrgId(m) => {
                let q = debug_quoted(m.as_str());
                concat3(
                    "symbol ",
                    q.as_str(),
                    " not in cninfo listings; check the code or wait for the list refresh",
                )
            },
            SiftError::OcrTokenMissing => {
                "PaddleOCR not configured. Set either (PADDLEOCR_API_BASE + PADDLEOCR_API_TOKEN) or (PADDLEOCR_API_KEY + PADDLEOCR_SECRET_KEY) in the environment".to_owned()
            },
        }
    }
}

/// Where all sources failed, the text for the user holds the name and the message
/// of each of them.
pub proof fn law_every_failure_is_told(v: Seq<(Seq<char>, Seq<char>)>, i: int)
    requires
        0 <= i < v.len(),
    ensures
        occurs(ErrorView::AllSourcesFailed(v).message(), v[i].0),
        occurs(ErrorView::AllSourcesFailed(v).message(), v[i].1),
{
    let lines = v.map_values(|p: (Seq<char>, Seq<char>)| failure_line(p));
    let all = failure_lines(v);
    let line = failure_line(v[i]);
    assert(lines[i] == line);
    law_every_part_is_in_the_joined_text(lines, "\n"@, i);
    lemma_in_the_message(v);
    lemma_occurs_within(ErrorView::AllSourcesFailed(v).message(), all, line);
    lemma_in_the_line(v[i]);
    lemma_occurs_within(ErrorView::AllSourcesFailed(v).message(), line, v[i].0);
    lemma_occurs_within(ErrorView::AllSourcesFailed(v).message(), line, v[i].1);
}

proof fn lemma_in_the_message(v: Seq<(Seq<char>, Seq<char>)>)
    ensures
        occurs(ErrorView::AllSourcesFailed(v).message(), failure_lines(v)),
{
    let none = Seq::<char>::empty();
    let head = "all sources failed:\n"@;
    lemma_occurs_between(head, failure_lines(v), none);
    assert(head + failure_lines(v) + none =~= head + failure_lines(v));
}

proof fn lemma_in_the_line(p: (Seq<char>, Seq<char>))
    ensures
        occurs(failure_line(p), p.0),
        occurs(failure_line(p), p.1),
{
    let none = Seq::<char>::empty();
    let line = failure_line(p);
    lemma_occurs_between("  "@, p.0, ": "@ + p.1);
    assert("  "@ + p.0 + (": "@ + p.1) =~= line);
    lemma_occurs_between("  "@ + p.0 + ": "@, p.1, none);
    assert("  "@ + p.0 + ": "@ + p.1 + none =~= line);
}

/// The process ends well only where the reader of its output went away; what the
/// network is to blame for, what is not found and all else end in different ways.
pub proof fn law_exit_codes_tell_failures_apart(e: ErrorView)
    ensures
        e.exit_code() == 0 <==> e is BrokenPipe,
        e.exit_code() == 3 <==> e is Network || e is AllSourcesFailed,
        e.exit_code() == 4 <==> e is NotFound,
        e.exit_code() == 1 <==> !(e is BrokenPipe || e is Network || e is AllSourcesFailed || e is
            NotFound),
{
}

/// What went well stays well, and what failed fails with the texts of its error.
pub proof fn law_an_outcome_keeps_its_side<T: View>(r: Result<T, SiftError>)
    ensures
        r matches Ok(t) ==> outcome(r) == Ok::<T::V, ErrorView>(t@),
        r matches Err(e) ==> outcome(r) == Err::<T::V, ErrorView>(e@),
{
}

} // verus!
