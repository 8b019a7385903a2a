//! Properties of the history that hold for every input.

use vstd::prelude::*;
use crate::model::{
    LineView, MessageView, absorb, has_line_no, lemma_absorb_covers, lemma_absorb_fresh, lemma_absorb_present,
    unique_line_nos,
};
use crate::normalize::{BlameHunk, hunk_message, range_lines};
use crate::history_log::{
    blame_log, date_order, history_rows, insert_by_date, lemma_position_of_bounds, merged,
    order_prefix, position_of, rows_in_order, with_lines,
};
use crate::render::{date_text, entry_rows, joined, lemma_joined_concat, line_row, meta_row};
use crate::normalize::{email_or_unknown, summary_or_none};

verus! {

/// Feeding the same record twice leaves the history as feeding it once,
/// whatever the history held before.
pub proof fn lemma_add_entry_idempotent(s: Seq<MessageView>, m: MessageView)
    ensures
        merged(merged(s, m), m) == merged(s, m),
{
    lemma_position_of_bounds(s, m.commit_id);
    let i = position_of(s, m.commit_id);
    let once = merged(s, m);
    if i < 0 {
        assert(once.drop_last() =~= s);
        assert(position_of(once, m.commit_id) == s.len());
        let ls = absorb(Seq::empty(), m.lines);
        lemma_absorb_covers(Seq::empty(), m.lines);
        lemma_absorb_present(ls, m.lines);
        assert(merged(once, m) =~= once);
    } else {
        assert forall|k: int| 0 <= k < s.len() implies #[trigger] once[k].commit_id == s[k].commit_id by {}
        lemma_same_ids_same_position(s, once, m.commit_id);
        let ls = absorb(s[i].lines, m.lines);
        lemma_absorb_covers(s[i].lines, m.lines);
        lemma_absorb_present(ls, m.lines);
        assert(merged(once, m) =~= once);
    }
}

proof fn lemma_same_ids_same_position(a: Seq<MessageView>, b: Seq<MessageView>, id: Seq<char>)
    requires
        a.len() == b.len(),
        forall|k: int| 0 <= k < a.len() ==> #[trigger] b[k].commit_id == a[k].commit_id,
    ensures
        position_of(a, id) == position_of(b, id),
    decreases a.len(),
{
    if a.len() > 0 {
        assert forall|k: int| 0 <= k < a.len() - 1 implies #[trigger] b.drop_last()[k].commit_id
            == a.drop_last()[k].commit_id by {
            assert(b.drop_last()[k] == b[k]);
            assert(a.drop_last()[k] == a[k]);
        }
        lemma_same_ids_same_position(a.drop_last(), b.drop_last(), id);
    }
}

/// The lines of a hunk's range have distinct numbers.
pub proof fn lemma_range_lines_unique(file: Seq<String>, start: int, count: int)
    requires
        start >= 0,
    ensures
        unique_line_nos(range_lines(file, start, count)),
{
}

/// Two hunks of one commit over disjoint line ranges give a single entry,
/// whose lines are the first hunk's range followed by the second's.
pub proof fn lemma_same_commit_disjoint_hunks(file: Seq<String>, h1: BlameHunk, h2: BlameHunk)
    requires
        h1.commit_id@ == h2.commit_id@,
        h1.final_start_line + h1.lines_in_hunk <= h2.final_start_line
            || h2.final_start_line + h2.lines_in_hunk <= h1.final_start_line,
    ensures
        ({
            let r = blame_log(file, seq![h1, h2]);
            &&& r.len() == 1
            &&& r[0] == with_lines(
                hunk_message(file, h1),
                range_lines(file, h1.final_start_line as int, h1.lines_in_hunk as int) + range_lines(
                    file,
                    h2.final_start_line as int,
                    h2.lines_in_hunk as int,
                ),
            )
        }),
{
    let m1 = hunk_message(file, h1);
    let m2 = hunk_message(file, h2);
    let l1 = m1.lines;
    let l2 = m2.lines;
    let hs = seq![h1, h2];
    lemma_range_lines_unique(file, h1.final_start_line as int, h1.lines_in_hunk as int);
    lemma_range_lines_unique(file, h2.final_start_line as int, h2.lines_in_hunk as int);
    lemma_absorb_fresh(Seq::empty(), l1);
    assert(Seq::<LineView>::empty() + l1 =~= l1);
    assert forall|j: int| 0 <= j < l2.len() implies !has_line_no(l1, #[trigger] l2[j].line_no) by {
        if has_line_no(l1, l2[j].line_no) {
            let k = choose|k: int| 0 <= k < l1.len() && l1[k].line_no == l2[j].line_no;
            assert(l1[k].line_no == h1.final_start_line + k);
            assert(l2[j].line_no == h2.final_start_line + j);
        }
    }
    lemma_absorb_fresh(l1, l2);
    assert(hs.drop_last() =~= seq![h1]);
    assert(seq![h1].drop_last() =~= Seq::<BlameHunk>::empty());
    let s1 = blame_log(file, seq![h1]);
    assert(seq![h1].last() == h1);
    assert(blame_log(file, Seq::<BlameHunk>::empty()) == Seq::<MessageView>::empty());
    assert(position_of(Seq::<MessageView>::empty(), m1.commit_id) == -1);
    assert(s1 =~= seq![with_lines(m1, l1)]);
    assert(s1.drop_last() =~= Seq::<MessageView>::empty());
    assert(position_of(s1, m2.commit_id) == 0);
    assert(blame_log(file, hs) =~= seq![with_lines(m1, l1 + l2)]);
}

/// Entries at positions `o` are by ascending date; of two with equal dates,
/// the earlier-seen comes first.
pub open spec fn in_date_order(s: Seq<MessageView>, o: Seq<int>) -> bool {
    forall|k: int|
        0 <= k < o.len() - 1 ==> s[o[k]].date < s[#[trigger] o[k + 1]].date || (s[o[k]].date == s[o[k
            + 1]].date && o[k] < o[k + 1])
}

proof fn lemma_insert_shape(s: Seq<MessageView>, o: Seq<int>, i: int) -> (p: int)
    ensures
        0 <= p <= o.len(),
        insert_by_date(s, o, i) == o.insert(p, i),
        p > 0 ==> s[o[p - 1]].date <= s[i].date,
        p < o.len() ==> s[i].date < s[o[p]].date,
    decreases o.len(),
{
    if o.len() == 0 {
        assert(seq![i] =~= o.insert(0, i));
        0
    } else if s[i].date < s[o.last()].date {
        let q = lemma_insert_shape(s, o.drop_last(), i);
        assert(o.drop_last().insert(q, i).push(o.last()) =~= o.insert(q, i));
        q
    } else {
        assert(o.push(i) =~= o.insert(o.len() as int, i));
        o.len() as int
    }
}

proof fn lemma_order_prefix(s: Seq<MessageView>, n: nat)
    requires
        n <= s.len(),
    ensures
        order_prefix(s, n).len() == n,
        order_prefix(s, n).no_duplicates(),
        forall|k: int| 0 <= k < n ==> 0 <= #[trigger] order_prefix(s, n)[k] < n,
        in_date_order(s, order_prefix(s, n)),
    decreases n,
{
    if n > 0 {
        let m = (n - 1) as nat;
        lemma_order_prefix(s, m);
        let o = order_prefix(s, m);
        let i = m as int;
        let p = lemma_insert_shape(s, o, i);
        let r = o.insert(p, i);
        assert(r.len() == n);
        assert forall|k: int| 0 <= k < n implies 0 <= #[trigger] r[k] < n by {
            if k > p {
                assert(r[k] == o[k - 1]);
            }
        }
        assert forall|a: int, b: int| 0 <= a < r.len() && 0 <= b < r.len() && a != b implies r[a] != r[b] by {
            if a < p && b > p {
                assert(r[b] == o[b - 1]);
            } else if a > p && b < p {
                assert(r[a] == o[a - 1]);
            } else if a > p && b > p {
                assert(r[a] == o[a - 1]);
                assert(r[b] == o[b - 1]);
            }
        }
        assert forall|k: int| 0 <= k < r.len() - 1 implies s[r[k]].date < s[#[trigger] r[k + 1]].date || (
        s[r[k]].date == s[r[k + 1]].date && r[k] < r[k + 1]) by {
            if k + 1 < p {
                assert(r[k] == o[k] && r[k + 1] == o[k + 1]);
            } else if k + 1 == p {
                assert(r[k] == o[p - 1]);
            } else if k == p {
                assert(r[k + 1] == o[p]);
            } else {
                assert(r[k] == o[k - 1] && r[k + 1] == o[k]);
                assert(o[k] == o[(k - 1) + 1]);
            }
        }
    }
}

/// Number of rows that the entries at positions `o` take: one commit row
/// and one row per line each.
pub open spec fn row_count(s: Seq<MessageView>, o: Seq<int>) -> int
    decreases o.len(),
{
    if o.len() == 0 {
        0
    } else {
        row_count(s, o.drop_last()) + 1 + s[o.last()].lines.len()
    }
}

/// An entry renders as exactly one commit row followed by exactly one row
/// per line, in the entry's line order.
pub proof fn lemma_entry_rows_shape(date: Seq<char>, m: MessageView)
    ensures
        entry_rows(date, m).len() == 1 + m.lines.len(),
        entry_rows(date, m)[0] == meta_row(date, m),
        forall|j: int| 0 <= j < m.lines.len() ==> #[trigger] entry_rows(date, m)[1 + j] == line_row(m.lines[j]),
{
}

proof fn lemma_rows_in_order_len(s: Seq<MessageView>, o: Seq<int>)
    ensures
        rows_in_order(s, o).len() == row_count(s, o),
    decreases o.len(),
{
    if o.len() > 0 {
        lemma_rows_in_order_len(s, o.drop_last());
        let e = s[o.last()];
        lemma_entry_rows_shape(date_text(e.date), e);
    }
}

/// The rendered history opens with the row `HISTORY`; after it, every entry
/// appears exactly once, by ascending date (equal dates in order of first
/// appearance), and the rows number one for the header plus, per entry, one
/// commit row and one row per line.
pub proof fn lemma_history_layout(s: Seq<MessageView>)
    ensures
        history_rows(s)[0] == "HISTORY"@,
        history_rows(s).len() == 1 + row_count(s, date_order(s)),
        joined(history_rows(s)).subrange(0, 8) == "HISTORY\n"@,
        date_order(s).len() == s.len(),
        date_order(s).no_duplicates(),
        forall|k: int| 0 <= k < s.len() ==> 0 <= #[trigger] date_order(s)[k] < s.len(),
        in_date_order(s, date_order(s)),
{
    lemma_order_prefix(s, s.len());
    lemma_rows_in_order_len(s, date_order(s));
    let rows = history_rows(s);
    let head = seq!["HISTORY"@];
    assert(rows == head + rows.subrange(1, rows.len() as int));
    assert(rows.subrange(1, rows.len() as int) =~= crate::history_log::rows_in_order(s, date_order(s)));
    lemma_joined_concat(head, rows.subrange(1, rows.len() as int));
    assert(head.drop_last() =~= Seq::<Seq<char>>::empty());
    assert(joined(head.drop_last()) =~= Seq::<char>::empty());
    reveal_strlit("HISTORY");
    reveal_strlit("HISTORY\n");
    reveal_strlit("\n");
    assert(joined(head) =~= "HISTORY\n"@);
    assert(joined(rows).subrange(0, 8) =~= "HISTORY\n"@);
}

/// Line numbers strictly increase along the list.
pub open spec fn increasing_lines(ls: Seq<LineView>) -> bool {
    forall|a: int, b: int| 0 <= a < b < ls.len() ==> ls[a].line_no < ls[b].line_no
}

/// Each hunk ends before the next one starts, as blame reports them.
pub open spec fn hunks_in_file_order(hs: Seq<BlameHunk>) -> bool {
    forall|k: int|
        0 <= k < hs.len() - 1 ==> hs[k].final_start_line + hs[k].lines_in_hunk <= #[trigger] hs[k
            + 1].final_start_line
}

spec fn lines_below(s: Seq<MessageView>, bound: int) -> bool {
    forall|e: int, j: int|
        0 <= e < s.len() && 0 <= j < s[e].lines.len() ==> #[trigger] s[e].lines[j].line_no < bound
}

spec fn all_increasing(s: Seq<MessageView>) -> bool {
    forall|e: int| 0 <= e < s.len() ==> increasing_lines(#[trigger] s[e].lines)
}

proof fn lemma_merged_increasing(s: Seq<MessageView>, m: MessageView, lo: int, hi: int)
    requires
        lo <= hi,
        all_increasing(s),
        lines_below(s, lo),
        increasing_lines(m.lines),
        forall|j: int| 0 <= j < m.lines.len() ==> lo <= #[trigger] m.lines[j].line_no < hi,
    ensures
        all_increasing(merged(s, m)),
        lines_below(merged(s, m), hi),
{
    lemma_position_of_bounds(s, m.commit_id);
    let i = position_of(s, m.commit_id);
    let r = merged(s, m);
    let stored = if i < 0 { Seq::<LineView>::empty() } else { s[i].lines };
    assert(increasing_lines(stored));
    assert forall|j: int| 0 <= j < m.lines.len() implies !has_line_no(stored, #[trigger] m.lines[j].line_no) by {
        if has_line_no(stored, m.lines[j].line_no) {
            let k = choose|k: int| 0 <= k < stored.len() && stored[k].line_no == m.lines[j].line_no;
            assert(stored[k].line_no < lo);
        }
    }
    lemma_absorb_fresh(stored, m.lines);
    let ls = stored + m.lines;
    let at = if i < 0 { s.len() as int } else { i };
    assert(r[at].lines == ls);
    assert forall|a: int, b: int| 0 <= a < b < ls.len() implies ls[a].line_no < ls[b].line_no by {
        if b >= stored.len() && a < stored.len() {
            assert(stored[a].line_no < lo);
            assert(m.lines[b - stored.len()].line_no >= lo);
        }
    }
    assert forall|e: int| 0 <= e < r.len() implies increasing_lines(#[trigger] r[e].lines) by {
        if e != at {
            assert(r[e] == s[e]);
        }
    }
    assert forall|e: int, j: int| 0 <= e < r.len() && 0 <= j < r[e].lines.len() implies #[trigger] r[e].lines[j].line_no
        < hi by {
        if e != at {
            assert(r[e] == s[e]);
            assert(s[e].lines[j].line_no < lo);
        } else if j >= stored.len() {
            assert(m.lines[j - stored.len()].line_no < hi);
        } else {
            assert(stored[j].line_no < lo);
        }
    }
}

/// Folding hunks that come in file order keeps every entry's line numbers
/// strictly increasing, even where one commit's hunks are split by others.
pub proof fn lemma_blame_lines_increasing(file: Seq<String>, hunks: Seq<BlameHunk>)
    requires
        hunks_in_file_order(hunks),
    ensures
        forall|e: int| 0 <= e < blame_log(file, hunks).len() ==> increasing_lines(#[trigger] blame_log(file, hunks)[e].lines),
{
    lemma_blame_lines_bounded(file, hunks);
}

proof fn lemma_blame_lines_bounded(file: Seq<String>, hunks: Seq<BlameHunk>)
    requires
        hunks_in_file_order(hunks),
    ensures
        all_increasing(blame_log(file, hunks)),
        hunks.len() > 0 ==> lines_below(
            blame_log(file, hunks),
            hunks.last().final_start_line + hunks.last().lines_in_hunk,
        ),
        hunks.len() == 0 ==> blame_log(file, hunks).len() == 0,
    decreases hunks.len(),
{
    if hunks.len() > 0 {
        let pre = hunks.drop_last();
        assert(hunks_in_file_order(pre)) by {
            assert forall|k: int| 0 <= k < pre.len() - 1 implies pre[k].final_start_line + pre[k].lines_in_hunk
                <= #[trigger] pre[k + 1].final_start_line by {
                assert(hunks[k + 1].final_start_line >= hunks[k].final_start_line + hunks[k].lines_in_hunk);
            }
        }
        lemma_blame_lines_bounded(file, pre);
        let h = hunks.last();
        let lo = h.final_start_line as int;
        let hi = h.final_start_line + h.lines_in_hunk;
        let m = hunk_message(file, h);
        if pre.len() > 0 {
            let k = pre.len() - 1;
            assert(hunks[k] == pre.last());
            assert(hunks[k + 1] == h);
            assert(pre.last().final_start_line + pre.last().lines_in_hunk <= lo);
        }
        assert(lines_below(blame_log(file, pre), lo));
        assert forall|j: int| 0 <= j < m.lines.len() implies lo <= #[trigger] m.lines[j].line_no < hi by {}
        lemma_merged_increasing(blame_log(file, pre), m, lo, hi);
    }
}

/// Number of newline characters in `t`.
pub open spec fn newlines(t: Seq<char>) -> nat
    decreases t.len(),
{
    if t.len() == 0 {
        0
    } else {
        newlines(t.drop_last()) + if t.last() == '\n' {
            1nat
        } else {
            0nat
        }
    }
}

proof fn lemma_newlines_concat(a: Seq<char>, b: Seq<char>)
    ensures
        newlines(a + b) == newlines(a) + newlines(b),
    decreases b.len(),
{
    if b.len() == 0 {
        assert(a + b =~= a);
    } else {
        lemma_newlines_concat(a, b.drop_last());
        assert((a + b).drop_last() =~= a + b.drop_last());
    }
}

proof fn lemma_newlines_none(t: Seq<char>)
    requires
        forall|k: int| 0 <= k < t.len() ==> t[k] != '\n',
    ensures
        newlines(t) == 0,
    decreases t.len(),
{
    if t.len() > 0 {
        lemma_newlines_none(t.drop_last());
    }
}

/// Rows that hold no newline are exactly the lines of their joined text:
/// the text has one newline per row.
pub proof fn lemma_joined_lines(rows: Seq<Seq<char>>)
    requires
        forall|r: int, k: int| 0 <= r < rows.len() && 0 <= k < rows[r].len() ==> #[trigger] rows[r][k] != '\n',
    ensures
        newlines(joined(rows)) == rows.len(),
    decreases rows.len(),
{
    if rows.len() > 0 {
        let pre = rows.drop_last();
        assert forall|r: int, k: int| 0 <= r < pre.len() && 0 <= k < pre[r].len() implies #[trigger] pre[r][k] != '\n' by {
            assert(pre[r] == rows[r]);
        }
        lemma_joined_lines(pre);
        let last = rows.last();
        assert forall|k: int| 0 <= k < last.len() implies last[k] != '\n' by {
            assert(rows[rows.len() - 1][k] != '\n');
        }
        lemma_newlines_none(last);
        reveal_strlit("\n");
        lemma_newlines_concat(joined(pre), last);
        lemma_newlines_concat(joined(pre) + last, "\n"@);
        assert("\n"@.drop_last() =~= Seq::<char>::empty());
        assert(newlines(Seq::<char>::empty()) == 0);
        assert("\n"@.last() == '\n');
        assert(newlines("\n"@) == 1);
        assert(joined(rows) == joined(pre) + last + "\n"@);
    }
}

proof fn lemma_rows_in_order_concat(s: Seq<MessageView>, a: Seq<int>, b: Seq<int>)
    ensures
        rows_in_order(s, a + b) == rows_in_order(s, a) + rows_in_order(s, b),
    decreases b.len(),
{
    if b.len() == 0 {
        assert(a + b =~= a);
        assert(rows_in_order(s, a) + rows_in_order(s, b) =~= rows_in_order(s, a));
    } else {
        lemma_rows_in_order_concat(s, a, b.drop_last());
        assert((a + b).drop_last() =~= a + b.drop_last());
        assert((a + b).last() == b.last());
        assert(rows_in_order(s, a + b) =~= rows_in_order(s, a) + rows_in_order(s, b));
    }
}

/// Every entry's commit row stands in the rendered history as a whole line.
pub proof fn lemma_commit_row_in_text(s: Seq<MessageView>, e: int)
    requires
        0 <= e < s.len(),
    ensures
        exists|pre: Seq<char>, post: Seq<char>|
            joined(history_rows(s)) == pre + meta_row(date_text(s[e].date), s[e]) + "\n"@ + post
                && (pre.len() == 0 || pre.last() == '\n'),
{
    lemma_order_prefix(s, s.len());
    let o = date_order(s);
    assert(exists|k: int| 0 <= k < o.len() && o[k] == e) by {
        assert(o.to_set().len() == o.len()) by {
            o.unique_seq_to_set();
        }
        let full = Set::<int>::new(|x: int| 0 <= x < s.len());
        assert(o.to_set().subset_of(full));
        assert(full =~= vstd::set_lib::set_int_range(0, s.len() as int));
        vstd::set_lib::lemma_int_range(0, s.len() as int);
        vstd::set_lib::lemma_subset_equality(o.to_set(), full);
        assert(full.contains(e));
    }
    let k = choose|k: int| 0 <= k < o.len() && o[k] == e;
    let before = o.subrange(0, k);
    let after = o.subrange(k + 1, o.len() as int);
    assert(o =~= before + seq![e] + after);
    lemma_rows_in_order_concat(s, before + seq![e], after);
    lemma_rows_in_order_concat(s, before, seq![e]);
    assert(seq![e].drop_last() =~= Seq::<int>::empty());
    assert(seq![e].last() == e);
    assert(rows_in_order(s, Seq::<int>::empty()) == Seq::<Seq<char>>::empty());
    let block = entry_rows(date_text(s[e].date), s[e]);
    assert(rows_in_order(s, seq![e]) =~= block);
    let head = seq!["HISTORY"@] + rows_in_order(s, before);
    let tail = block.subrange(1, block.len() as int) + rows_in_order(s, after);
    let row = meta_row(date_text(s[e].date), s[e]);
    assert(history_rows(s) =~= head + seq![row] + tail);
    lemma_joined_concat(head + seq![row], tail);
    lemma_joined_concat(head, seq![row]);
    assert(seq![row].drop_last() =~= Seq::<Seq<char>>::empty());
    assert(joined(Seq::<Seq<char>>::empty()) == Seq::<char>::empty());
    assert(seq![row].last() == row);
    assert(joined(seq![row]) =~= row + "\n"@);
    let pre = joined(head);
    assert(head.len() > 0);
    reveal_strlit("\n");
    assert(pre == joined(head.drop_last()) + head.last() + "\n"@);
    assert(pre.last() == '\n');
    assert(joined(history_rows(s)) =~= pre + row + "\n"@ + joined(tail));
}

/// A commit seen first in a hunk without author email or summary is listed
/// in the rendered history under the fallback texts `<UNKNOWN EMAIL>` and
/// `<NO COMMIT MESSAGE>`, on a line of its own.
pub proof fn lemma_fallbacks_rendered(file: Seq<String>, hunks: Seq<BlameHunk>)
    requires
        hunks.len() > 0,
        position_of(blame_log(file, hunks.drop_last()), hunks.last().commit_id@) < 0,
        hunks.last().author_email is None,
        hunks.last().summary is None,
    ensures
        ({
            let h = hunks.last();
            let row = date_text(h.date as int) + " - "@ + "<UNKNOWN EMAIL>"@ + " ("@ + h.commit_id@ + ") -- "@
                + "<NO COMMIT MESSAGE>"@;
            exists|pre: Seq<char>, post: Seq<char>|
                joined(history_rows(blame_log(file, hunks))) == pre + row + "\n"@ + post
                    && (pre.len() == 0 || pre.last() == '\n')
        }),
{
    let s0 = blame_log(file, hunks.drop_last());
    let s = blame_log(file, hunks);
    let e = s0.len() as int;
    assert(s[e].author_email == email_or_unknown(hunks.last().author_email));
    assert(s[e].message == summary_or_none(hunks.last().summary));
    lemma_commit_row_in_text(s, e);
}

} // verus!
