use vstd::prelude::*;
use crate::model::{Line, LineView, Message, MessageView, lines_view};

verus! {

/// One blame hunk with its commit already resolved: who, when, why, and
/// which lines of the final file (1-based start, count) it covers.
pub struct BlameHunk {
    pub commit_id: String,
    pub author_email: Option<String>,
    pub summary: Option<String>,
    /// Commit time in whole seconds since the Unix epoch, UTC.
    pub date: i64,
    pub final_start_line: usize,
    pub lines_in_hunk: usize,
}

/// Text of line `n` (1-based) of the snapshot, or `"<error>"` where the
/// snapshot has no such line.
pub open spec fn line_text(file: Seq<String>, n: int) -> Seq<char> {
    if 1 <= n <= file.len() {
        file[n - 1]@
    } else {
        "<error>"@
    }
}

/// The lines `start, start + 1, ..., start + count - 1` of the snapshot.
pub open spec fn range_lines(file: Seq<String>, start: int, count: int) -> Seq<LineView> {
    Seq::new(count as nat, |k: int| LineView { line_no: (start + k) as nat, text: line_text(file, start + k) })
}

pub open spec fn email_or_unknown(e: Option<String>) -> Seq<char> {
    match e {
        Some(s) => s@,
        None => "<UNKNOWN EMAIL>"@,
    }
}

pub open spec fn summary_or_none(s: Option<String>) -> Seq<char> {
    match s {
        Some(t) => t@,
        None => "<NO COMMIT MESSAGE>"@,
    }
}

/// A hunk's line range fits the machine's line numbers.
pub open spec fn hunk_fits(h: BlameHunk) -> bool {
    h.final_start_line + h.lines_in_hunk <= usize::MAX
}

/// The history record that one hunk stands for.
pub open spec fn hunk_message(file: Seq<String>, h: BlameHunk) -> MessageView {
    MessageView {
        author_email: email_or_unknown(h.author_email),
        date: h.date as int,
        commit_id: h.commit_id@,
        message: summary_or_none(h.summary),
        lines: range_lines(file, h.final_start_line as int, h.lines_in_hunk as int),
    }
}

fn copy_opt(o: &Option<String>) -> (r: Option<String>)
    ensures
        r == *o,
{
    match o {
        Some(s) => Some(s.clone()),
        None => None,
    }
}

/// The source lines that a hunk covers, numbered from 1. A number past the
/// end of the snapshot (or 0) gets the text `"<error>"`.
pub fn hunk_lines(file_lines: &Vec<String>, start: usize, count: usize) -> (r: Vec<Line>)
    requires
        start + count <= usize::MAX,
    ensures
        lines_view(r@) == range_lines(file_lines@, start as int, count as int),
{
    let mut out: Vec<Line> = Vec::new();
    let mut k: usize = 0;
    while k < count
        invariant
            start + count <= usize::MAX,
            k <= count,
            lines_view(out@) == range_lines(file_lines@, start as int, k as int),
        decreases count - k,
    {
        let n: usize = start + k;
        let text: String = if n >= 1 && n - 1 < file_lines.len() {
            file_lines[n - 1].clone()
        } else {
            String::from_str("<error>")
        };
        let ghost before = out@;
        out.push(Line { line_no: n, line: text });
        proof {
            assert(lines_view(out@) =~= lines_view(before).push(out@[k as int]@));
            assert(lines_view(out@) =~= range_lines(file_lines@, start as int, k + 1));
        }
        k += 1;
    }
    out
}

/// The record for one hunk: missing email and summary get their fallback
/// texts, and the covered lines are looked up in the snapshot.
pub fn message_from_hunk(file_lines: &Vec<String>, hunk: &BlameHunk) -> (r: Message)
    requires
        hunk_fits(*hunk),
    ensures
        r@ == hunk_message(file_lines@, *hunk),
{
    let author_email = match copy_opt(&hunk.author_email) {
        Some(e) => e,
        None => String::from_str("<UNKNOWN EMAIL>"),
    };
    let message = match copy_opt(&hunk.summary) {
        Some(s) => s,
        None => String::from_str("<NO COMMIT MESSAGE>"),
    };
    let lines = hunk_lines(file_lines, hunk.final_start_line, hunk.lines_in_hunk);
    Message { author_email, date: hunk.date, commit_id: hunk.commit_id.clone(), message, lines }
}

} // verus!
