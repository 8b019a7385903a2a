use vstd::prelude::*;

verus! {

/// One line of the file snapshot: its 1-based number and its text.
pub struct Line {
    pub line_no: usize,
    pub line: String,
}

/// Mathematical value of a [`Line`].
pub struct LineView {
    pub line_no: nat,
    pub text: Seq<char>,
}

impl View for Line {
    type V = LineView;

    open spec fn view(&self) -> LineView {
        LineView { line_no: self.line_no as nat, text: self.line@ }
    }
}

/// Views of a sequence of lines.
pub open spec fn lines_view(ls: Seq<Line>) -> Seq<LineView> {
    ls.map_values(|l: Line| l@)
}

/// Some line of `ls` has number `n`.
pub open spec fn has_line_no(ls: Seq<LineView>, n: nat) -> bool {
    exists|k: int| 0 <= k < ls.len() && ls[k].line_no == n
}

/// No two lines of `ls` share a number.
pub open spec fn unique_line_nos(ls: Seq<LineView>) -> bool {
    forall|a: int, b: int| 0 <= a < ls.len() && 0 <= b < ls.len() && a != b ==> ls[a].line_no != ls[b].line_no
}

/// `stored` followed by each incoming line, in order, whose number is not
/// yet among the lines so far; lines with a number already present are
/// dropped.
pub open spec fn absorb(stored: Seq<LineView>, incoming: Seq<LineView>) -> Seq<LineView>
    decreases incoming.len(),
{
    if incoming.len() == 0 {
        stored
    } else {
        let a = absorb(stored, incoming.drop_last());
        if has_line_no(a, incoming.last().line_no) {
            a
        } else {
            a.push(incoming.last())
        }
    }
}

/// After absorbing, every incoming number is present.
pub proof fn lemma_absorb_covers(stored: Seq<LineView>, incoming: Seq<LineView>)
    ensures
        forall|j: int| 0 <= j < incoming.len() ==> has_line_no(absorb(stored, incoming), #[trigger] incoming[j].line_no),
    decreases incoming.len(),
{
    if incoming.len() > 0 {
        let pre = incoming.drop_last();
        lemma_absorb_covers(stored, pre);
        let a = absorb(stored, pre);
        let l = incoming.last();
        assert forall|j: int| 0 <= j < incoming.len() implies has_line_no(absorb(stored, incoming), #[trigger] incoming[j].line_no) by {
            if j < pre.len() {
                assert(incoming[j] == pre[j]);
                assert(has_line_no(a, pre[j].line_no));
                if !has_line_no(a, l.line_no) {
                    let k = choose|k: int| 0 <= k < a.len() && a[k].line_no == pre[j].line_no;
                    assert(a.push(l)[k].line_no == incoming[j].line_no);
                }
            } else {
                assert(incoming[j] == l);
                if !has_line_no(a, l.line_no) {
                    assert(a.push(l)[a.len() as int].line_no == l.line_no);
                }
            }
        }
    }
}

/// Absorbing lines whose numbers are all present changes nothing.
pub proof fn lemma_absorb_present(stored: Seq<LineView>, incoming: Seq<LineView>)
    requires
        forall|j: int| 0 <= j < incoming.len() ==> has_line_no(stored, #[trigger] incoming[j].line_no),
    ensures
        absorb(stored, incoming) == stored,
    decreases incoming.len(),
{
    if incoming.len() > 0 {
        let pre = incoming.drop_last();
        assert forall|j: int| 0 <= j < pre.len() implies has_line_no(stored, #[trigger] pre[j].line_no) by {
            assert(pre[j] == incoming[j]);
        }
        lemma_absorb_present(stored, pre);
        assert(has_line_no(stored, incoming[incoming.len() - 1].line_no));
    }
}

/// Absorbing lines of distinct, new numbers appends them all.
pub proof fn lemma_absorb_fresh(stored: Seq<LineView>, incoming: Seq<LineView>)
    requires
        unique_line_nos(incoming),
        forall|j: int| 0 <= j < incoming.len() ==> !has_line_no(stored, #[trigger] incoming[j].line_no),
    ensures
        absorb(stored, incoming) == stored + incoming,
    decreases incoming.len(),
{
    if incoming.len() > 0 {
        let pre = incoming.drop_last();
        let l = incoming.last();
        assert forall|j: int| 0 <= j < pre.len() implies !has_line_no(stored, #[trigger] pre[j].line_no) by {
            assert(pre[j] == incoming[j]);
        }
        assert(unique_line_nos(pre)) by {
            assert forall|a: int, b: int| 0 <= a < pre.len() && 0 <= b < pre.len() && a != b implies pre[a].line_no
                != pre[b].line_no by {
                assert(pre[a] == incoming[a] && pre[b] == incoming[b]);
            }
        }
        lemma_absorb_fresh(stored, pre);
        let a = stored + pre;
        assert(!has_line_no(stored, incoming[incoming.len() - 1].line_no));
        if has_line_no(a, l.line_no) {
            let k = choose|k: int| 0 <= k < a.len() && a[k].line_no == l.line_no;
            if k >= stored.len() {
                assert(a[k] == incoming[k - stored.len()]);
                assert(incoming[incoming.len() - 1] == l);
            } else {
                assert(a[k] == stored[k]);
            }
        }
        assert(a.push(l) =~= stored + incoming);
    }
}

/// Absorbing keeps line numbers distinct.
pub proof fn lemma_absorb_unique(stored: Seq<LineView>, incoming: Seq<LineView>)
    requires
        unique_line_nos(stored),
    ensures
        unique_line_nos(absorb(stored, incoming)),
    decreases incoming.len(),
{
    if incoming.len() > 0 {
        lemma_absorb_unique(stored, incoming.drop_last());
        let a = absorb(stored, incoming.drop_last());
        let l = incoming.last();
        if !has_line_no(a, l.line_no) {
            let r = a.push(l);
            assert forall|x: int, y: int| 0 <= x < r.len() && 0 <= y < r.len() && x != y implies r[x].line_no
                != r[y].line_no by {
                if x == a.len() {
                    assert(r[y] == a[y]);
                } else if y == a.len() {
                    assert(r[x] == a[x]);
                } else {
                    assert(r[x] == a[x] && r[y] == a[y]);
                }
            }
        }
    }
}

fn has_line_no_exec(ls: &Vec<Line>, n: usize) -> (r: bool)
    ensures
        r == has_line_no(lines_view(ls@), n as nat),
{
    let mut k: usize = 0;
    while k < ls.len()
        invariant
            k <= ls@.len(),
            forall|j: int| 0 <= j < k ==> ls@[j].line_no != n,
        decreases ls@.len() - k,
    {
        if ls[k].line_no == n {
            proof {
                assert(lines_view(ls@)[k as int].line_no == n as nat);
            }
            return true;
        }
        k += 1;
    }
    proof {
        if has_line_no(lines_view(ls@), n as nat) {
            let j = choose|j: int| 0 <= j < lines_view(ls@).len() && lines_view(ls@)[j].line_no == n as nat;
            assert(ls@[j].line_no == n);
        }
    }
    false
}

/// Adds to `stored` the incoming lines whose numbers it does not hold yet
/// (see [`absorb`]).
pub fn absorb_lines(stored: &mut Vec<Line>, incoming: &Vec<Line>)
    ensures
        lines_view(final(stored)@) == absorb(lines_view(old(stored)@), lines_view(incoming@)),
{
    let ghost st = lines_view(stored@);
    let ghost inc = lines_view(incoming@);
    let mut k: usize = 0;
    proof {
        assert(inc.subrange(0, 0) =~= Seq::<LineView>::empty());
    }
    while k < incoming.len()
        invariant
            inc == lines_view(incoming@),
            k <= incoming@.len(),
            lines_view(stored@) == absorb(st, inc.subrange(0, k as int)),
        decreases incoming@.len() - k,
    {
        proof {
            assert(inc.subrange(0, k + 1).drop_last() =~= inc.subrange(0, k as int));
            assert(inc.subrange(0, k + 1).last() == incoming@[k as int]@);
        }
        if !has_line_no_exec(stored, incoming[k].line_no) {
            let ghost before = lines_view(stored@);
            stored.push(Line { line_no: incoming[k].line_no, line: incoming[k].line.clone() });
            proof {
                assert(lines_view(stored@) =~= before.push(incoming@[k as int]@));
            }
        }
        k += 1;
    }
    proof {
        assert(inc.subrange(0, k as int) =~= inc);
    }
}

/// What one commit did to the file: its metadata and the lines it touched.
///
/// `date` is the commit time in whole seconds since the Unix epoch, UTC.
pub struct Message {
    pub author_email: String,
    pub date: i64,
    pub commit_id: String,
    pub message: String,
    pub lines: Vec<Line>,
}

/// Mathematical value of a [`Message`].
pub struct MessageView {
    pub author_email: Seq<char>,
    pub date: int,
    pub commit_id: Seq<char>,
    pub message: Seq<char>,
    pub lines: Seq<LineView>,
}

impl View for Message {
    type V = MessageView;

    open spec fn view(&self) -> MessageView {
        MessageView {
            author_email: self.author_email@,
            date: self.date as int,
            commit_id: self.commit_id@,
            message: self.message@,
            lines: lines_view(self.lines@),
        }
    }
}

} // verus!
