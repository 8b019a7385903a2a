use vstd::prelude::*;
use crate::model::{Line, Message, MessageView, LineView, absorb, absorb_lines, lemma_absorb_unique, unique_line_nos};
use crate::normalize::{BlameHunk, hunk_fits, hunk_message, message_from_hunk};
use crate::render::{date_text, entry_rows, format_date, joined, lemma_joined_concat, render_entry};

verus! {

/// Index of the last entry of `s` with commit id `id`, or -1 if none has it.
pub open spec fn position_of(s: Seq<MessageView>, id: Seq<char>) -> int
    decreases s.len(),
{
    if s.len() == 0 {
        -1
    } else if s.last().commit_id == id {
        s.len() - 1
    } else {
        position_of(s.drop_last(), id)
    }
}

/// No two entries share a commit id.
pub open spec fn unique_ids(s: Seq<MessageView>) -> bool {
    forall|i: int, j: int| 0 <= i < s.len() && 0 <= j < s.len() && i != j ==> s[i].commit_id != s[j].commit_id
}

pub open spec fn with_lines(e: MessageView, ls: Seq<LineView>) -> MessageView {
    MessageView {
        author_email: e.author_email,
        date: e.date,
        commit_id: e.commit_id,
        message: e.message,
        lines: ls,
    }
}

/// The merge rule keyed by commit id: an unseen commit is added at the end;
/// for a known one, the incoming lines are absorbed into the stored entry,
/// so that a line number already stored is never added again (see
/// [`absorb`]). The stored metadata is that of the commit's first record.
pub open spec fn merged(s: Seq<MessageView>, m: MessageView) -> Seq<MessageView> {
    let i = position_of(s, m.commit_id);
    if i < 0 {
        s.push(with_lines(m, absorb(Seq::empty(), m.lines)))
    } else {
        s.update(i, with_lines(s[i], absorb(s[i].lines, m.lines)))
    }
}

/// Within every entry, no two lines share a number.
pub open spec fn unique_lines_everywhere(s: Seq<MessageView>) -> bool {
    forall|e: int| 0 <= e < s.len() ==> unique_line_nos(#[trigger] s[e].lines)
}

/// The history that folding the hunks' records in order yields.
pub open spec fn blame_log(file: Seq<String>, hunks: Seq<BlameHunk>) -> Seq<MessageView>
    decreases hunks.len(),
{
    if hunks.len() == 0 {
        Seq::empty()
    } else {
        merged(blame_log(file, hunks.drop_last()), hunk_message(file, hunks.last()))
    }
}

/// Places entry `i` into the date order `o`: after every entry whose date is
/// not later, before the later ones.
pub open spec fn insert_by_date(s: Seq<MessageView>, o: Seq<int>, i: int) -> Seq<int>
    decreases o.len(),
{
    if o.len() == 0 {
        seq![i]
    } else if s[i].date < s[o.last()].date {
        insert_by_date(s, o.drop_last(), i).push(o.last())
    } else {
        o.push(i)
    }
}

/// Date order of the first `n` entries.
pub open spec fn order_prefix(s: Seq<MessageView>, n: nat) -> Seq<int>
    decreases n,
{
    if n == 0 {
        Seq::empty()
    } else {
        insert_by_date(s, order_prefix(s, (n - 1) as nat), n - 1)
    }
}

/// Positions of the entries by ascending date; entries of equal date keep
/// the order in which their commits were first seen.
pub open spec fn date_order(s: Seq<MessageView>) -> Seq<int> {
    order_prefix(s, s.len())
}

/// Rows of the entries at the positions `o`, one block after another.
pub open spec fn rows_in_order(s: Seq<MessageView>, o: Seq<int>) -> Seq<Seq<char>>
    decreases o.len(),
{
    if o.len() == 0 {
        Seq::empty()
    } else {
        rows_in_order(s, o.drop_last()) + entry_rows(date_text(s[o.last()].date), s[o.last()])
    }
}

/// All rows of the rendered history: the header, then each entry by date.
pub open spec fn history_rows(s: Seq<MessageView>) -> Seq<Seq<char>> {
    seq!["HISTORY"@] + rows_in_order(s, date_order(s))
}

pub open spec fn prompt_text(history: Seq<char>) -> Seq<char> {
    "Generate a changelog summary based on the following git and source file changes. "@
        + history
        + "\nThe changelog should be formatted as a timeline, be concise yet detailed enough to capture all significant modifications, and adhere to typical documentation style. Each entry should include the date, file name, type of change (e.g., feature, fix, refactor), and a brief description of the change."@
}

pub open spec fn as_ints(o: Seq<usize>) -> Seq<int> {
    o.map_values(|x: usize| x as int)
}

pub proof fn lemma_position_of_bounds(s: Seq<MessageView>, id: Seq<char>)
    ensures
        -1 <= position_of(s, id) < s.len(),
        position_of(s, id) >= 0 ==> s[position_of(s, id)].commit_id == id,
        position_of(s, id) < 0 ==> forall|k: int| 0 <= k < s.len() ==> s[k].commit_id != id,
    decreases s.len(),
{
    if s.len() > 0 {
        lemma_position_of_bounds(s.drop_last(), id);
        if s.last().commit_id != id {
            assert forall|k: int| 0 <= k < s.len() - 1 implies s[k] == s.drop_last()[k] by {}
        }
    }
}

pub proof fn lemma_merged_unique_lines(s: Seq<MessageView>, m: MessageView)
    requires
        unique_lines_everywhere(s),
    ensures
        unique_lines_everywhere(merged(s, m)),
{
    lemma_position_of_bounds(s, m.commit_id);
    let i = position_of(s, m.commit_id);
    let r = merged(s, m);
    if i < 0 {
        lemma_absorb_unique(Seq::empty(), m.lines);
    } else {
        lemma_absorb_unique(s[i].lines, m.lines);
    }
    assert forall|e: int| 0 <= e < r.len() implies unique_line_nos(#[trigger] r[e].lines) by {
        if (i < 0 && e < s.len()) || (i >= 0 && e != i) {
            assert(r[e] == s[e]);
        }
    }
}

proof fn lemma_merged_keeps_unique(s: Seq<MessageView>, m: MessageView)
    requires
        unique_ids(s),
    ensures
        unique_ids(merged(s, m)),
{
    lemma_position_of_bounds(s, m.commit_id);
    let r = merged(s, m);
    assert forall|i: int, j: int| 0 <= i < r.len() && 0 <= j < r.len() && i != j implies r[i].commit_id
        != r[j].commit_id by {
        if position_of(s, m.commit_id) >= 0 {
            assert(r[i].commit_id == s[i].commit_id);
            assert(r[j].commit_id == s[j].commit_id);
        }
    }
}

/// The history of one file: one entry per commit id, kept in the order in
/// which commits were first seen.
pub struct HistoryLog {
    entries: Vec<Message>,
}

impl View for HistoryLog {
    type V = Seq<MessageView>;

    closed spec fn view(&self) -> Seq<MessageView> {
        self.entries@.map_values(|m: Message| m@)
    }
}

impl HistoryLog {
    pub fn new() -> (r: HistoryLog)
        ensures
            r@ == Seq::<MessageView>::empty(),
            unique_ids(r@),
            unique_lines_everywhere(r@),
    {
        let r = HistoryLog { entries: Vec::new() };
        proof {
            assert(r@ =~= Seq::<MessageView>::empty());
        }
        r
    }

    /// Number of entries, one per commit id.
    pub fn len(&self) -> (r: usize)
        ensures
            r == self@.len(),
    {
        self.entries.len()
    }

    /// The entry at position `i`, in order of first appearance.
    pub fn entry(&self, i: usize) -> (r: &Message)
        requires
            i < self@.len(),
        ensures
            r@ == self@[i as int],
    {
        &self.entries[i]
    }

    fn find_commit(&self, id: &String) -> (r: Option<usize>)
        ensures
            match r {
                None => position_of(self@, id@) < 0,
                Some(i) => position_of(self@, id@) == i as int,
            },
    {
        let ghost s = self@;
        let mut i: usize = self.entries.len();
        proof {
            assert(s.subrange(0, i as int) =~= s);
        }
        while i > 0
            invariant
                s == self@,
                i <= s.len(),
                position_of(s, id@) == position_of(s.subrange(0, i as int), id@),
            decreases i,
        {
            proof {
                assert(s.subrange(0, i as int).drop_last() =~= s.subrange(0, i - 1));
            }
            if self.entries[i - 1].commit_id == *id {
                return Some(i - 1);
            }
            i -= 1;
        }
        None
    }

    /// Folds one record into the history by its commit id (see [`merged`]).
    pub fn add_entry(&mut self, message: Message)
        ensures
            final(self)@ == merged(old(self)@, message@),
            unique_ids(old(self)@) ==> unique_ids(final(self)@),
            unique_lines_everywhere(old(self)@) ==> unique_lines_everywhere(final(self)@),
    {
        proof {
            if unique_lines_everywhere(old(self)@) {
                lemma_merged_unique_lines(old(self)@, message@);
            }
            if unique_ids(old(self)@) {
                lemma_merged_keeps_unique(old(self)@, message@);
            }
            lemma_position_of_bounds(old(self)@, message@.commit_id);
        }
        match self.find_commit(&message.commit_id) {
            None => {
                let ghost mv = message@;
                let mut lines: Vec<Line> = Vec::new();
                proof {
                    assert(crate::model::lines_view(lines@) =~= Seq::<LineView>::empty());
                }
                absorb_lines(&mut lines, &message.lines);
                let Message { author_email, date, commit_id, message: summary, lines: _ } = message;
                self.entries.push(Message { author_email, date, commit_id, message: summary, lines });
                proof {
                    assert(self@ =~= merged(old(self)@, mv));
                }
            },
            Some(i) => {
                let mut e = self.entries.remove(i);
                absorb_lines(&mut e.lines, &message.lines);
                self.entries.insert(i, e);
                proof {
                    assert(self@ =~= merged(old(self)@, message@));
                }
            },
        }
    }

    /// Positions of the entries by ascending date (see [`date_order`]).
    fn sorted_positions(&self) -> (r: Vec<usize>)
        ensures
            as_ints(r@) == date_order(self@),
            forall|k: int| 0 <= k < r@.len() ==> r@[k] < self@.len(),
    {
        let ghost s = self@;
        let n = self.entries.len();
        let mut o: Vec<usize> = Vec::new();
        let mut i: usize = 0;
        proof {
            assert(as_ints(o@) =~= order_prefix(s, 0));
        }
        while i < n
            invariant
                s == self@,
                n == s.len(),
                i <= n,
                as_ints(o@) == order_prefix(s, i as nat),
                forall|k: int| 0 <= k < o@.len() ==> o@[k] < i,
            decreases n - i,
        {
            let ghost oi = as_ints(o@);
            let mut p: usize = o.len();
            proof {
                assert(oi.subrange(0, p as int) =~= oi);
                assert(oi.subrange(p as int, oi.len() as int) =~= Seq::<int>::empty());
                assert(insert_by_date(s, oi, i as int) =~= insert_by_date(s, oi.subrange(0, p as int), i as int)
                    + oi.subrange(p as int, oi.len() as int));
            }
            while p > 0 && self.entries[o[p - 1]].date > self.entries[i].date
                invariant
                    s == self@,
                    n == s.len(),
                    i < n,
                    oi == as_ints(o@),
                    p <= o@.len(),
                    forall|k: int| 0 <= k < o@.len() ==> o@[k] < i,
                    insert_by_date(s, oi, i as int) == insert_by_date(s, oi.subrange(0, p as int), i as int)
                        + oi.subrange(p as int, oi.len() as int),
                decreases p,
            {
                proof {
                    let pre = oi.subrange(0, p as int);
                    assert(pre.drop_last() =~= oi.subrange(0, p - 1));
                    assert(pre.last() == oi[p - 1]);
                    assert(insert_by_date(s, pre, i as int) == insert_by_date(s, oi.subrange(0, p - 1), i as int).push(
                        oi[p - 1]));
                    assert(insert_by_date(s, oi.subrange(0, p - 1), i as int).push(oi[p - 1]) + oi.subrange(
                        p as int,
                        oi.len() as int,
                    ) =~= insert_by_date(s, oi.subrange(0, p - 1), i as int) + oi.subrange(p - 1, oi.len() as int));
                }
                p -= 1;
            }
            proof {
                let pre = oi.subrange(0, p as int);
                if p > 0 {
                    assert(pre.last() == oi[p - 1]);
                }
                assert(insert_by_date(s, pre, i as int) =~= pre.push(i as int));
            }
            o.insert(p, i);
            proof {
                assert(as_ints(o@) =~= oi.subrange(0, p as int).push(i as int) + oi.subrange(p as int, oi.len() as int));
                assert(as_ints(o@) == order_prefix(s, (i + 1) as nat));
            }
            i += 1;
        }
        o
    }

    /// The history as text: a `HISTORY` header row, then for each entry by
    /// ascending date (equal dates in order of first appearance) a row
    /// `MM/DD/YYYY - email (commit id) -- summary` followed by one indented
    /// `line_no: text` row per line.
    pub fn format_history(&self) -> (r: String)
        ensures
            r@ == joined(history_rows(self@)),
    {
        let ghost s = self@;
        let order = self.sorted_positions();
        let ghost o = as_ints(order@);
        let mut out = String::from_str("HISTORY\n");
        proof {
            reveal_strlit("HISTORY\n");
            reveal_strlit("HISTORY");
            reveal_strlit("\n");
            let first = seq!["HISTORY"@];
            assert(first.drop_last() =~= Seq::<Seq<char>>::empty());
            assert(joined(first.drop_last()) =~= Seq::<char>::empty());
            assert("HISTORY\n"@ =~= "HISTORY"@ + "\n"@);
            assert(out@ =~= joined(first));
            assert(o.subrange(0, 0) =~= Seq::<int>::empty());
            assert(seq!["HISTORY"@] + rows_in_order(s, o.subrange(0, 0)) =~= seq!["HISTORY"@]);
        }
        let mut k: usize = 0;
        while k < order.len()
            invariant
                s == self@,
                o == as_ints(order@),
                o == date_order(s),
                k <= order@.len(),
                forall|j: int| 0 <= j < order@.len() ==> order@[j] < s.len(),
                out@ == joined(seq!["HISTORY"@] + rows_in_order(s, o.subrange(0, k as int))),
            decreases order@.len() - k,
        {
            let m = &self.entries[order[k]];
            let date = format_date(m.date);
            let block = render_entry(&date, m);
            out.append(block.as_str());
            proof {
                let head = seq!["HISTORY"@] + rows_in_order(s, o.subrange(0, k as int));
                let e = s[o[k as int]];
                assert(o.subrange(0, k + 1).drop_last() =~= o.subrange(0, k as int));
                assert(e == m@);
                lemma_joined_concat(head, entry_rows(date_text(e.date), e));
                assert(seq!["HISTORY"@] + rows_in_order(s, o.subrange(0, k + 1)) =~= head + entry_rows(
                    date_text(e.date),
                    e,
                ));
            }
            k += 1;
        }
        proof {
            assert(o.subrange(0, k as int) =~= o);
        }
        out
    }

    /// The history embedded in an instruction for a text-generation step,
    /// asking for a dated, attributed changelog timeline.
    pub fn prompt(&self) -> (r: String)
        ensures
            r@ == prompt_text(joined(history_rows(self@))),
    {
        let history = self.format_history();
        let mut r = String::from_str("Generate a changelog summary based on the following git and source file changes. ");
        r.append(history.as_str());
        r.append("\nThe changelog should be formatted as a timeline, be concise yet detailed enough to capture all significant modifications, and adhere to typical documentation style. Each entry should include the date, file name, type of change (e.g., feature, fix, refactor), and a brief description of the change.");
        r
    }

    /// Builds the history of a file from its snapshot (one string per line)
    /// and its blame hunks, taken in blame order.
    pub fn from_git_blame(file_lines: &Vec<String>, hunks: &Vec<BlameHunk>) -> (r: HistoryLog)
        requires
            forall|k: int| 0 <= k < hunks@.len() ==> hunk_fits(#[trigger] hunks@[k]),
        ensures
            r@ == blame_log(file_lines@, hunks@),
            unique_ids(r@),
            unique_lines_everywhere(r@),
    {
        let mut log = HistoryLog::new();
        let mut k: usize = 0;
        while k < hunks.len()
            invariant
                k <= hunks@.len(),
                forall|j: int| 0 <= j < hunks@.len() ==> hunk_fits(#[trigger] hunks@[j]),
                log@ == blame_log(file_lines@, hunks@.subrange(0, k as int)),
                unique_ids(log@),
                unique_lines_everywhere(log@),
            decreases hunks@.len() - k,
        {
            let m = message_from_hunk(file_lines, &hunks[k]);
            log.add_entry(m);
            proof {
                assert(hunks@.subrange(0, k + 1).drop_last() =~= hunks@.subrange(0, k as int));
            }
            k += 1;
        }
        proof {
            assert(hunks@.subrange(0, k as int) =~= hunks@);
        }
        log
    }
}

} // verus!
