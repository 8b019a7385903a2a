use blame_history::{decimal, format_date, hunk_lines, message_from_hunk, render_entry};
use blame_history::{BlameHunk, HistoryLog, Line, Message};

fn file(n: usize) -> Vec<String> {
    (1..=n).map(|i| format!("text {}", i)).collect()
}

fn hunk(id: &str, email: Option<&str>, summary: Option<&str>, date: i64, start: usize, count: usize) -> BlameHunk {
    BlameHunk {
        commit_id: id.to_string(),
        author_email: email.map(|s| s.to_string()),
        summary: summary.map(|s| s.to_string()),
        date,
        final_start_line: start,
        lines_in_hunk: count,
    }
}

fn line(n: usize, t: &str) -> Line {
    Line { line_no: n, line: t.to_string() }
}

fn message(id: &str, date: i64, lines: Vec<Line>) -> Message {
    Message {
        author_email: "dev@example.com".to_string(),
        date,
        commit_id: id.to_string(),
        message: "change".to_string(),
        lines,
    }
}

fn numbers_and_texts(ls: &[Line]) -> Vec<(usize, String)> {
    ls.iter().map(|l| (l.line_no, l.line.clone())).collect()
}

const DAY_2020_01_01: i64 = 1577836800;
const DAY_2020_01_02: i64 = 1577923200;

#[test]
fn hunk_from_line_five_covers_five_six_seven() {
    let f = file(10);
    let ls = hunk_lines(&f, 5, 3);
    assert_eq!(
        numbers_and_texts(&ls),
        vec![(5, "text 5".to_string()), (6, "text 6".to_string()), (7, "text 7".to_string())]
    );
}

#[test]
fn lines_past_the_end_read_error() {
    let f = file(3);
    let ls = hunk_lines(&f, 3, 3);
    assert_eq!(
        numbers_and_texts(&ls),
        vec![(3, "text 3".to_string()), (4, "<error>".to_string()), (5, "<error>".to_string())]
    );
    let m = message_from_hunk(&f, &hunk("c1", Some("a@x.com"), Some("s"), 0, 9, 2));
    assert_eq!(numbers_and_texts(&m.lines), vec![(9, "<error>".to_string()), (10, "<error>".to_string())]);
}

#[test]
fn line_zero_reads_error() {
    let f = file(2);
    let ls = hunk_lines(&f, 0, 2);
    assert_eq!(numbers_and_texts(&ls), vec![(0, "<error>".to_string()), (1, "text 1".to_string())]);
}

#[test]
fn empty_hunk_and_empty_file() {
    assert!(hunk_lines(&file(4), 2, 0).is_empty());
    let ls = hunk_lines(&Vec::new(), 1, 1);
    assert_eq!(numbers_and_texts(&ls), vec![(1, "<error>".to_string())]);
}

#[test]
fn missing_email_and_summary_use_fallbacks() {
    let f = file(1);
    let m = message_from_hunk(&f, &hunk("c1", None, None, DAY_2020_01_01, 1, 1));
    assert_eq!(m.author_email, "<UNKNOWN EMAIL>");
    assert_eq!(m.message, "<NO COMMIT MESSAGE>");
    assert_eq!(m.commit_id, "c1");
    assert_eq!(m.date, DAY_2020_01_01);
    let log = HistoryLog::from_git_blame(&f, &vec![hunk("c1", None, None, DAY_2020_01_01, 1, 1)]);
    let text = log.format_history();
    assert!(text.contains("<UNKNOWN EMAIL>"));
    assert!(text.contains("<NO COMMIT MESSAGE>"));
}

#[test]
fn same_entry_twice_is_kept_once() {
    let mut once = HistoryLog::new();
    once.add_entry(message("c1", 10, vec![line(1, "a"), line(2, "b")]));
    let mut twice = HistoryLog::new();
    twice.add_entry(message("c1", 10, vec![line(1, "a"), line(2, "b")]));
    twice.add_entry(message("c1", 10, vec![line(1, "a"), line(2, "b")]));
    assert_eq!(twice.len(), 1);
    assert_eq!(numbers_and_texts(&twice.entry(0).lines), numbers_and_texts(&once.entry(0).lines));
    assert_eq!(twice.format_history(), once.format_history());
}

#[test]
fn repeated_hunk_from_blame_is_dropped() {
    let f = file(4);
    let h = hunk("c1", Some("a@x.com"), Some("s"), 5, 2, 2);
    let log = HistoryLog::from_git_blame(&f, &vec![h.clone_hunk(), h]);
    assert_eq!(log.len(), 1);
    assert_eq!(numbers_and_texts(&log.entry(0).lines), vec![(2, "text 2".to_string()), (3, "text 3".to_string())]);
}

trait CloneHunk {
    fn clone_hunk(&self) -> BlameHunk;
}

impl CloneHunk for BlameHunk {
    fn clone_hunk(&self) -> BlameHunk {
        BlameHunk {
            commit_id: self.commit_id.clone(),
            author_email: self.author_email.clone(),
            summary: self.summary.clone(),
            date: self.date,
            final_start_line: self.final_start_line,
            lines_in_hunk: self.lines_in_hunk,
        }
    }
}

#[test]
fn disjoint_hunks_of_one_commit_merge() {
    let f = file(6);
    let hunks = vec![
        hunk("c1", Some("a@x.com"), Some("s"), 5, 1, 2),
        hunk("c2", Some("b@x.com"), Some("t"), 6, 3, 1),
        hunk("c1", Some("a@x.com"), Some("s"), 5, 4, 2),
    ];
    let log = HistoryLog::from_git_blame(&f, &hunks);
    assert_eq!(log.len(), 2);
    assert_eq!(log.entry(0).commit_id, "c1");
    assert_eq!(
        numbers_and_texts(&log.entry(0).lines),
        vec![
            (1, "text 1".to_string()),
            (2, "text 2".to_string()),
            (4, "text 4".to_string()),
            (5, "text 5".to_string())
        ]
    );
    assert_eq!(log.entry(1).commit_id, "c2");
    assert_eq!(numbers_and_texts(&log.entry(1).lines), vec![(3, "text 3".to_string())]);
}

#[test]
fn readding_after_extension_adds_nothing() {
    let mut log = HistoryLog::new();
    log.add_entry(message("c1", 1, vec![line(1, "a")]));
    log.add_entry(message("c1", 1, vec![line(3, "c")]));
    log.add_entry(message("c1", 1, vec![line(3, "c")]));
    assert_eq!(numbers_and_texts(&log.entry(0).lines), vec![(1, "a".to_string()), (3, "c".to_string())]);
}

#[test]
fn earlier_record_fed_again_adds_nothing() {
    let mut log = HistoryLog::new();
    log.add_entry(message("abc123", 1, vec![line(1, "l1"), line(2, "l2")]));
    log.add_entry(message("abc123", 1, vec![line(4, "l4")]));
    log.add_entry(message("abc123", 1, vec![line(1, "l1"), line(2, "l2")]));
    assert_eq!(log.len(), 1);
    assert_eq!(
        numbers_and_texts(&log.entry(0).lines),
        vec![(1, "l1".to_string()), (2, "l2".to_string()), (4, "l4".to_string())]
    );
}

#[test]
fn overlapping_record_adds_only_new_numbers() {
    let mut log = HistoryLog::new();
    log.add_entry(message("c1", 1, vec![line(1, "a"), line(2, "b")]));
    log.add_entry(message("c1", 1, vec![line(2, "b"), line(3, "c"), line(3, "c")]));
    assert_eq!(
        numbers_and_texts(&log.entry(0).lines),
        vec![(1, "a".to_string()), (2, "b".to_string()), (3, "c".to_string())]
    );
}

#[test]
fn first_record_with_repeated_numbers_keeps_one() {
    let mut log = HistoryLog::new();
    log.add_entry(message("c1", 1, vec![line(5, "x"), line(5, "y")]));
    assert_eq!(numbers_and_texts(&log.entry(0).lines), vec![(5, "x".to_string())]);
}

#[test]
fn stored_metadata_is_that_of_first_record() {
    let mut log = HistoryLog::new();
    log.add_entry(message("c1", 1, vec![line(1, "a")]));
    let mut other = message("c1", 99, vec![line(2, "b")]);
    other.message = "other".to_string();
    log.add_entry(other);
    assert_eq!(log.len(), 1);
    assert_eq!(log.entry(0).date, 1);
    assert_eq!(log.entry(0).message, "change");
}

#[test]
fn history_header_and_row_count() {
    let mut log = HistoryLog::new();
    assert_eq!(log.format_history(), "HISTORY\n");
    log.add_entry(message("c1", 3, vec![line(1, "a"), line(2, "b")]));
    log.add_entry(message("c2", 2, vec![line(3, "c")]));
    log.add_entry(message("c3", 1, vec![]));
    let text = log.format_history();
    assert!(text.starts_with("HISTORY\n"));
    assert_eq!(text.lines().count(), 1 + 3 + 3);
    assert_eq!(text.lines().filter(|r| r.starts_with("        ")).count(), 3);
}

#[test]
fn end_to_end_two_commits() {
    let f = vec!["fn main() {".to_string(), "}".to_string(), "// done".to_string()];
    let hunks = vec![
        hunk("def456", Some("b@x.com"), Some("add line"), DAY_2020_01_02, 3, 1),
        hunk("abc123", Some("a@x.com"), Some("init"), DAY_2020_01_01, 1, 2),
    ];
    let log = HistoryLog::from_git_blame(&f, &hunks);
    assert_eq!(
        log.format_history(),
        "HISTORY\n\
         01/01/2020 - a@x.com (abc123) -- init\n        1: fn main() {\n        2: }\n\
         01/02/2020 - b@x.com (def456) -- add line\n        3: // done\n"
    );
}

#[test]
fn equal_dates_keep_first_seen_order() {
    let mut log = HistoryLog::new();
    log.add_entry(message("late", 200, vec![line(1, "x")]));
    log.add_entry(message("b", 100, vec![line(2, "y")]));
    log.add_entry(message("a", 100, vec![line(3, "z")]));
    let text = log.format_history();
    let ids: Vec<&str> = text
        .lines()
        .filter(|r| r.contains(" -- "))
        .map(|r| r.split('(').nth(1).unwrap().split(')').next().unwrap())
        .collect();
    assert_eq!(ids, vec!["b", "a", "late"]);
}

#[test]
fn dates_render_as_month_day_year() {
    assert_eq!(format_date(0), "01/01/1970");
    assert_eq!(format_date(DAY_2020_01_01), "01/01/2020");
    assert_eq!(format_date(DAY_2020_01_02 + 86399), "01/02/2020");
    assert_eq!(format_date(-1), "12/31/1969");
}

#[test]
fn dates_without_calendar_day_use_fallback() {
    assert_eq!(format_date(i64::MAX), "<UNKNOWN DATE>");
    assert_eq!(format_date(i64::MIN), "<UNKNOWN DATE>");
    assert_eq!(format_date(8210266876800), "<UNKNOWN DATE>");
    assert_eq!(format_date(-8334601228801), "<UNKNOWN DATE>");
    assert_ne!(format_date(8210266876799), "<UNKNOWN DATE>");
    assert_ne!(format_date(-8334601228800), "<UNKNOWN DATE>");
}

#[test]
fn decimal_text_of_numbers() {
    assert_eq!(decimal(0), "0");
    assert_eq!(decimal(7), "7");
    assert_eq!(decimal(10), "10");
    assert_eq!(decimal(12345), "12345");
    assert_eq!(decimal(usize::MAX), usize::MAX.to_string());
}

#[test]
fn one_entry_renders_exactly() {
    let m = message("c9", 0, vec![line(12, "let x = 1;"), line(13, "")]);
    assert_eq!(
        render_entry(&"03/04/2021".to_string(), &m),
        "03/04/2021 - dev@example.com (c9) -- change\n        12: let x = 1;\n        13: \n"
    );
}

#[test]
fn prompt_embeds_history() {
    let mut log = HistoryLog::new();
    log.add_entry(message("c1", DAY_2020_01_01, vec![line(1, "a")]));
    let p = log.prompt();
    assert!(p.starts_with("Generate a changelog summary"));
    assert!(p.contains(&log.format_history()));
    assert!(p.contains("timeline"));
}

#[test]
fn fallback_row_stands_on_its_own_line() {
    let f = file(2);
    let log = HistoryLog::from_git_blame(&f, &vec![hunk("c1", None, None, DAY_2020_01_01, 1, 2)]);
    let text = log.format_history();
    let rows: Vec<&str> = text.lines().collect();
    assert_eq!(
        rows,
        vec![
            "HISTORY",
            "01/01/2020 - <UNKNOWN EMAIL> (c1) -- <NO COMMIT MESSAGE>",
            "        1: text 1",
            "        2: text 2"
        ]
    );
}
