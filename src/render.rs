use vstd::prelude::*;
use crate::model::{Line, LineView, Message, MessageView};

verus! {

/// Earliest commit time (seconds since the epoch) that has a calendar date:
/// January 1 of year -262143, 00:00:00 UTC.
pub const EARLIEST_DATED: i64 = -8334601228800;

/// Latest commit time (seconds since the epoch) that has a calendar date:
/// December 31 of year 262142, 23:59:59 UTC.
pub const LATEST_DATED: i64 = 8210266876799;

/// The `MM/DD/YYYY` text of a commit time (seconds since the epoch, UTC).
pub uninterp spec fn mdy_of(secs: int) -> Seq<char>;

/// Relies on chrono's `DateTime::<Utc>::from_timestamp`, which gives `None`
/// exactly outside the years -262143 to 262142, and on `DateTime::format`
/// with the pattern `%m/%d/%Y`, whose text depends on the time alone.
#[verifier::external_body]
fn chrono_mdy(secs: i64) -> (r: Option<String>)
    ensures
        r is Some <==> EARLIEST_DATED <= secs <= LATEST_DATED,
        r matches Some(s) ==> s@ == mdy_of(secs as int),
{
    match chrono::DateTime::from_timestamp(secs, 0) {
        Some(d) => Some(d.format("%m/%d/%Y").to_string()),
        None => None,
    }
}

/// Date column of a commit: `MM/DD/YYYY`, or `"<UNKNOWN DATE>"` for a time
/// that has no calendar date.
pub open spec fn date_text(secs: int) -> Seq<char> {
    if EARLIEST_DATED <= secs <= LATEST_DATED {
        mdy_of(secs)
    } else {
        "<UNKNOWN DATE>"@
    }
}

/// Renders a commit time as `MM/DD/YYYY` (UTC).
pub fn format_date(secs: i64) -> (r: String)
    ensures
        r@ == date_text(secs as int),
{
    match chrono_mdy(secs) {
        Some(s) => s,
        None => String::from_str("<UNKNOWN DATE>"),
    }
}

pub open spec fn digit_char(d: int) -> char {
    seq!['0', '1', '2', '3', '4', '5', '6', '7', '8', '9'][d]
}

/// Decimal digits of `n`, most significant first, without leading zeros.
pub open spec fn dec(n: nat) -> Seq<char>
    decreases n,
{
    if n < 10 {
        seq![digit_char(n as int)]
    } else {
        dec(n / 10).push(digit_char((n % 10) as int))
    }
}

fn digit_str(d: usize) -> (r: &'static str)
    requires
        d < 10,
    ensures
        r@ == seq![digit_char(d as int)],
{
    proof {
        reveal_strlit("0");
        reveal_strlit("1");
        reveal_strlit("2");
        reveal_strlit("3");
        reveal_strlit("4");
        reveal_strlit("5");
        reveal_strlit("6");
        reveal_strlit("7");
        reveal_strlit("8");
        reveal_strlit("9");
    }
    let r = if d == 0 {
        "0"
    } else if d == 1 {
        "1"
    } else if d == 2 {
        "2"
    } else if d == 3 {
        "3"
    } else if d == 4 {
        "4"
    } else if d == 5 {
        "5"
    } else if d == 6 {
        "6"
    } else if d == 7 {
        "7"
    } else if d == 8 {
        "8"
    } else {
        "9"
    };
    assert(r@ =~= seq![digit_char(d as int)]);
    r
}

/// Decimal text of a number.
pub fn decimal(n: usize) -> (r: String)
    ensures
        r@ == dec(n as nat),
    decreases n,
{
    if n < 10 {
        String::from_str(digit_str(n))
    } else {
        let head = decimal(n / 10);
        let r = head.concat(digit_str(n % 10));
        assert(r@ =~= dec(n as nat));
        r
    }
}

/// Row of a history entry that names its commit.
pub open spec fn meta_row(date: Seq<char>, m: MessageView) -> Seq<char> {
    date + " - "@ + m.author_email + " ("@ + m.commit_id + ") -- "@ + m.message
}

/// Indented row of one source line: `line_no: text`.
pub open spec fn line_row(l: LineView) -> Seq<char> {
    "        "@ + dec(l.line_no) + ": "@ + l.text
}

/// Rows of one entry: its commit row, then one row per line.
pub open spec fn entry_rows(date: Seq<char>, m: MessageView) -> Seq<Seq<char>> {
    seq![meta_row(date, m)] + m.lines.map_values(|l: LineView| line_row(l))
}

/// Rows written one after another, each ended by a newline.
pub open spec fn joined(rows: Seq<Seq<char>>) -> Seq<char>
    decreases rows.len(),
{
    if rows.len() == 0 {
        Seq::empty()
    } else {
        joined(rows.drop_last()) + rows.last() + "\n"@
    }
}

pub proof fn lemma_joined_concat(a: Seq<Seq<char>>, b: Seq<Seq<char>>)
    ensures
        joined(a + b) == joined(a) + joined(b),
    decreases b.len(),
{
    if b.len() == 0 {
        assert(a + b =~= a);
        assert(joined(b) =~= Seq::<char>::empty());
        assert(joined(a) + joined(b) =~= joined(a));
    } else {
        lemma_joined_concat(a, b.drop_last());
        assert((a + b).drop_last() =~= a + b.drop_last());
        assert((a + b).last() == b.last());
        assert(joined(a + b) =~= joined(a) + joined(b));
    }
}

fn push_row(out: &mut String, row: &String)
    ensures
        final(out)@ == old(out)@ + row@ + "\n"@,
{
    out.append(row.as_str());
    out.append("\n");
}

fn line_row_text(l: &Line) -> (r: String)
    ensures
        r@ == line_row(l@),
{
    let mut r = String::from_str("        ");
    let d = decimal(l.line_no);
    r.append(d.as_str());
    r.append(": ");
    r.append(l.line.as_str());
    assert(r@ =~= line_row(l@));
    r
}

/// The text of one history entry: the commit row (with `date` as its date
/// column), then one indented row per line, each row ended by a newline.
pub fn render_entry(date: &String, m: &Message) -> (r: String)
    ensures
        r@ == joined(entry_rows(date@, m@)),
{
    let mut meta = date.clone();
    meta.append(" - ");
    meta.append(m.author_email.as_str());
    meta.append(" (");
    meta.append(m.commit_id.as_str());
    meta.append(") -- ");
    meta.append(m.message.as_str());
    assert(meta@ =~= meta_row(date@, m@));
    let mut out = String::new();
    push_row(&mut out, &meta);
    let ghost rows = entry_rows(date@, m@);
    proof {
        assert(rows.subrange(0, 1) =~= seq![meta_row(date@, m@)]);
        let first = rows.subrange(0, 1);
        assert(first.drop_last() =~= Seq::<Seq<char>>::empty());
        assert(joined(first.drop_last()) =~= Seq::<char>::empty());
        assert(first.last() == meta@);
        assert(out@ =~= joined(first));
    }
    let mut k: usize = 0;
    while k < m.lines.len()
        invariant
            rows == entry_rows(date@, m@),
            k <= m.lines@.len(),
            rows.len() == m.lines@.len() + 1,
            out@ == joined(rows.subrange(0, k + 1)),
        decreases m.lines@.len() - k,
    {
        let row = line_row_text(&m.lines[k]);
        push_row(&mut out, &row);
        proof {
            assert(rows.subrange(0, k + 2).drop_last() =~= rows.subrange(0, k + 1));
            assert(rows[k + 1] == line_row(m.lines@[k as int]@));
        }
        k += 1;
    }
    proof {
        assert(rows.subrange(0, k + 1) =~= rows);
    }
    out
}

} // verus!
