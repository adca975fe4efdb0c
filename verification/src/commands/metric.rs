//! Standard metrics, and the lines that follow a batch.

use vstd::prelude::*;
use vstd::string::*;

use crate::error::{ErrorView, SiftError, concat4, concat5};
use crate::text::{decimal, decimal_string, lemma_occurs_between, occurs, views};

verus! {

/// The options of `metric add`.
#[derive(Debug)]
pub struct MetricAddArgs {
    pub std_key: Option<String>,
    pub label: Option<String>,
    pub unit_kind: String,
    pub skip_invalid: bool,
}

/// The options of `metric rm`.
#[derive(Debug)]
pub struct MetricRmArgs {
    pub std_key: String,
    pub cascade: bool,
}

#[derive(Debug)]
pub enum MetricCmd {
    Add(MetricAddArgs),
    Ls,
    Rm(MetricRmArgs),
}

/// What a batch came to: how many rows were written, and which were skipped and
/// why.
#[derive(Debug)]
pub struct BatchOutcome {
    pub written: u64,
    pub skipped: Vec<(u64, String)>,
}

/// The line about what was written.
pub open spec fn written_line(n: u64, what: Seq<char>) -> Seq<char> {
    "[info] wrote "@ + decimal(n as nat) + " "@ + what + "(s)"@
}

/// The line about a row that was skipped.
pub open spec fn skipped_line(s: (u64, String)) -> Seq<char> {
    "[warn] skipped row "@ + decimal(s.0 as nat) + ": "@ + s.1@
}

/// The lines after a batch.
pub open spec fn summary_lines(out: BatchOutcome, what: Seq<char>) -> Seq<Seq<char>> {
    seq![written_line(out.written, what)] + out.skipped@.map_values(
        |s: (u64, String)| skipped_line(s),
    )
}

/// The lines after a batch.
pub fn summarize(out: &BatchOutcome, what: &str) -> (lines: Vec<String>)
    ensures
        views(lines@) == summary_lines(*out, what@),
{
    let mut lines: Vec<String> = Vec::new();
    lines.push(
        concat5("[info] wrote ", decimal_string(out.written).as_str(), " ", what, "(s)"),
    );
    let mut i: usize = 0;
    while i < out.skipped.len()
        invariant
            i <= out.skipped@.len(),
            lines@.len() == i + 1,
            lines@[0]@ == written_line(out.written, what@),
            forall|k: int|
                0 <= k < i ==> (#[trigger] lines@[k + 1])@ == skipped_line(out.skipped@[k]),
        decreases out.skipped@.len() - i,
    {
        let ghost before = lines@;
        lines.push(
            concat4(
                "[warn] skipped row ",
                decimal_string(out.skipped[i].0).as_str(),
                ": ",
                out.skipped[i].1.as_str(),
            ),
        );
        proof {
            assert forall|k: int| 0 <= k < i + 1 implies (#[trigger] lines@[k + 1])@
                == skipped_line(out.skipped@[k]) by {
                if k < i {
                    assert(before[k + 1]@ == skipped_line(out.skipped@[k]));
                }
            }
        }
        i = i + 1;
    }
    proof {
        let s = summary_lines(*out, what@);
        assert forall|k: int| 0 <= k < lines@.len() implies views(lines@)[k] == s[k] by {
            if k > 0 {
                assert(lines@[k - 1 + 1]@ == skipped_line(out.skipped@[k - 1]));
            }
        }
        assert(views(lines@) =~= s);
    }
    lines
}

/// The line after something was deleted.
pub open spec fn deleted_line(n: u64, what: Seq<char>) -> Seq<char> {
    "[info] deleted "@ + decimal(n as nat) + " "@ + what + "(s)"@
}

/// The line after something was deleted.
pub fn deleted(n: u64, what: &str) -> (out: String)
    ensures
        out@ == deleted_line(n, what@),
{
    concat5("[info] deleted ", decimal_string(n).as_str(), " ", what, "(s)")
}

/// Whether a batch can be read: only from a pipe.
pub fn read_stdin_batch(stdin_is_tty: bool) -> (r: Result<(), SiftError>)
    ensures
        match r {
            Ok(()) => !stdin_is_tty,
            Err(e) => stdin_is_tty && e@ == ErrorView::Parse(
                "provide the value inline, or pipe a #header TSV batch on stdin"@,
            ),
        },
{
    if stdin_is_tty {
        Err(
            SiftError::Parse(
                "provide the value inline, or pipe a #header TSV batch on stdin".to_owned(),
            ),
        )
    } else {
        Ok(())
    }
}

/// What `metric add` does.
#[derive(Debug)]
pub enum MetricPlan<'a> {
    /// Registers one metric.
    One(&'a str),
    /// Reads a batch from the pipe; `atomic` if one bad row spoils all.
    Batch { atomic: bool },
}

/// What `metric add` does: one metric if a key is given, else a batch.
pub fn plan_add<'a>(args: &'a MetricAddArgs, stdin_is_tty: bool) -> (r: Result<
    MetricPlan<'a>,
    SiftError,
>)
    ensures
        match args.std_key {
            Some(key) => r matches Ok(MetricPlan::One(k)) && k@ == key@,
            None => if stdin_is_tty {
                r matches Err(e) && e@ == ErrorView::Parse(
                    "provide the value inline, or pipe a #header TSV batch on stdin"@,
                )
            } else {
                r matches Ok(MetricPlan::Batch { atomic }) && atomic == !args.skip_invalid
            },
        },
{
    if let Some(key) = &args.std_key {
        return Ok(MetricPlan::One(key.as_str()));
    }
    match read_stdin_batch(stdin_is_tty) {
        Ok(()) => Ok(MetricPlan::Batch { atomic: !args.skip_invalid }),
        Err(e) => Err(e),
    }
}

/// A batch is told with how many rows were written, and then each row that was
/// skipped with its number and the cause, in order.
pub proof fn law_every_skipped_row_is_told(out: BatchOutcome, what: Seq<char>, i: int)
    requires
        0 <= i < out.skipped@.len(),
    ensures
        summary_lines(out, what).len() == out.skipped@.len() + 1,
        occurs(summary_lines(out, what)[0], " "@ + decimal(out.written as nat) + " "@ + what),
        occurs(summary_lines(out, what)[i + 1], " "@ + decimal(out.skipped@[i].0 as nat) + ": "@),
        out.skipped@[i].1@.is_suffix_of(summary_lines(out, what)[i + 1]),
{
    reveal_strlit("[info] wrote");
    reveal_strlit("[info] wrote ");
    reveal_strlit("[warn] skipped row");
    reveal_strlit("[warn] skipped row ");
    reveal_strlit(" ");
    let lines = summary_lines(out, what);
    let said = " "@ + decimal(out.written as nat) + " "@ + what;
    assert("[info] wrote"@ + " "@ =~= "[info] wrote "@);
    lemma_occurs_between("[info] wrote"@, said, "(s)"@);
    assert("[info] wrote"@ + said + "(s)"@ =~= lines[0]);
    let row = out.skipped@[i];
    let number = " "@ + decimal(row.0 as nat) + ": "@;
    assert(lines[i + 1] == skipped_line(row));
    assert("[warn] skipped row"@ + " "@ =~= "[warn] skipped row "@);
    lemma_occurs_between("[warn] skipped row"@, number, row.1@);
    assert("[warn] skipped row"@ + number + row.1@ =~= lines[i + 1]);
    let line = lines[i + 1];
    assert(line.subrange(line.len() - row.1@.len(), line.len() as int) =~= row.1@);
}

} // verus!
