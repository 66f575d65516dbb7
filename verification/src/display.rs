//! The lines in which tasks, subtasks and records are shown: columns padded
//! with spaces to a fixed width, numbers in decimal.

use vstd::prelude::*;
use vstd::string::StringExecFns;
use vstd::string::StrSliceExecFns;
use crate::clock::local_date;
use crate::models::{History, HistoryView, SubTask, SubTaskView, Task, TaskView, views};
use crate::order::{place_row, sorted_by};
use crate::state::by_priority;
use crate::table::{lemma_views_all, lemma_views_take};

verus! {

/// `n` spaces.
pub open spec fn spaces(n: nat) -> Seq<char> {
    Seq::new(n, |i: int| ' ')
}

/// `text`, followed by as many spaces as it takes to make `width`
/// characters; a text that is as long or longer stays as it is.
pub open spec fn padded(text: Seq<char>, width: nat) -> Seq<char> {
    if text.len() < width {
        text + spaces((width - text.len()) as nat)
    } else {
        text
    }
}

/// The character that stands for the digit `d`.
pub open spec fn digit(d: int) -> char
    recommends
        0 <= d <= 9,
{
    seq!['0', '1', '2', '3', '4', '5', '6', '7', '8', '9'][d]
}

/// The decimal digits of `n`, without leading zeros.
pub open spec fn digits(n: nat) -> Seq<char>
    decreases n,
{
    if n < 10 {
        seq![digit(n as int)]
    } else {
        digits(n / 10).push(digit((n % 10) as int))
    }
}

/// `n` in decimal, with a `-` in front where it is negative.
pub open spec fn decimal(n: int) -> Seq<char> {
    if n < 0 {
        seq!['-'] + digits((-n) as nat)
    } else {
        digits(n as nat)
    }
}

/// The text of an optional link: nothing where there is none.
pub open spec fn link_text(link: Option<Seq<char>>) -> Seq<char> {
    match link {
        Some(l) => l,
        None => Seq::empty(),
    }
}

/// Three columns with a space between them, the first two padded to
/// `first` and `second` characters, the last to 10.
pub open spec fn columns(
    a: Seq<char>,
    first: nat,
    b: Seq<char>,
    second: nat,
    c: Seq<char>,
) -> Seq<char> {
    padded(a, first) + seq![' '] + padded(b, second) + seq![' '] + padded(c, 10)
}

/// The line that shows a task: id, description and link.
pub open spec fn task_line(task: TaskView) -> Seq<char> {
    columns(decimal(task.id), 10, task.what, 50, link_text(task.link))
}

/// The line that shows a subtask in the list of its task: rank,
/// description and link.
pub open spec fn subtask_line(subtask: SubTaskView) -> Seq<char> {
    columns(decimal(subtask.subtask_rank), 10, subtask.what, 50, link_text(subtask.link))
}

/// The line that shows a subtask below its task: `indent_level` times two
/// spaces, then id, description and link.
pub open spec fn indented_subtask_line(subtask: SubTaskView, indent_level: nat) -> Seq<char> {
    spaces(2 * indent_level) + columns(
        decimal(subtask.id),
        10,
        subtask.what,
        30,
        link_text(subtask.link),
    )
}

/// The line that shows a record, finished on the day `date`: day,
/// description and link.
pub open spec fn history_line(date: Seq<char>, record: HistoryView) -> Seq<char> {
    padded(date, 15) + seq![' '] + padded(record.what, 50) + seq![' '] + link_text(record.link)
}

/// The line `line` with the number `number` in a column of 10 in front.
pub open spec fn numbered_line(number: nat, line: Seq<char>) -> Seq<char> {
    padded(digits(number), 10) + seq![' '] + line
}

/// The heading above a list of tasks.
pub open spec fn task_heading() -> Seq<char> {
    columns("task_id"@, 10, "description"@, 50, "link(optional)"@)
}

/// The heading above a list of subtasks.
pub open spec fn subtask_heading() -> Seq<char> {
    columns("subtask_id"@, 10, "description"@, 50, "link(optional)"@)
}

/// The line above the heading of a list of subtasks, which names the task.
pub open spec fn subtask_title(task_id: int) -> Seq<char> {
    "subtask of "@ + decimal(task_id)
}

/// The heading above a numbered list of records.
pub open spec fn finished_heading() -> Seq<char> {
    padded("task_id"@, 10) + seq![' '] + padded("date"@, 15) + seq![' '] + padded(
        "description"@,
        50,
    ) + seq![' '] + "link(optional)"@
}

/// The sign that stands for a priority in the list of tasks: one for each
/// of the ranges 0 to 3, 4 to 6, 7 and 8, and 9 and above. A negative
/// priority counts as above 9.
pub open spec fn priority_sign(priority: int) -> Seq<char> {
    if 0 <= priority <= 3 {
        "\u{1F976}"@
    } else if 4 <= priority <= 6 {
        "\u{1F921}"@
    } else if 7 <= priority <= 8 {
        "\u{1F605}"@
    } else {
        "\u{1F975}"@
    }
}

/// The text of one digit.
fn digit_text(d: u64) -> (text: &'static str)
    requires
        d <= 9,
    ensures
        text@ == seq![digit(d as int)],
{
    proof {
        reveal_strlit("0");
        reveal_strlit("1");
        reveal_strlit("2");
        reveal_strlit("3");
        reveal_strlit("4");
        reveal_strlit("5");
        reveal_strlit("6");
        reveal_strlit("7");
        reveal_strlit("8");
        reveal_strlit("9");
    }
    let text = if d == 0 {
        "0"
    } else if d == 1 {
        "1"
    } else if d == 2 {
        "2"
    } else if d == 3 {
        "3"
    } else if d == 4 {
        "4"
    } else if d == 5 {
        "5"
    } else if d == 6 {
        "6"
    } else if d == 7 {
        "7"
    } else if d == 8 {
        "8"
    } else {
        "9"
    };
    assert(text@ =~= seq![digit(d as int)]);
    text
}

/// Appends the decimal digits of `n` to `out`.
fn push_digits(out: &mut String, n: u64)
    ensures
        final(out)@ == old(out)@ + digits(n as nat),
{
    // The digits of `n`, the last one first.
    let mut low: Vec<u64> = Vec::new();
    let mut rest: u64 = n;
    while rest >= 10
        invariant
            forall|j: int| 0 <= j < low@.len() ==> #[trigger] low@[j] <= 9,
            digits(n as nat) == digits(rest as nat) + Seq::new(
                low@.len(),
                |j: int| digit(low@[low@.len() - 1 - j] as int),
            ),
        decreases rest,
    {
        proof {
            let before = Seq::new(low@.len(), |j: int| digit(low@[low@.len() - 1 - j] as int));
            let grown = low@.push(rest % 10);
            let after = Seq::new(grown.len(), |j: int| digit(grown[grown.len() - 1 - j] as int));
            assert(digits((rest / 10) as nat).push(digit((rest % 10) as int)) + before =~= digits(
                (rest / 10) as nat,
            ) + after);
        }
        low.push(rest % 10);
        rest = rest / 10;
    }
    out.append(digit_text(rest));
    let mut k: usize = low.len();
    while k > 0
        invariant
            k <= low@.len(),
            forall|j: int| 0 <= j < low@.len() ==> #[trigger] low@[j] <= 9,
            out@ == old(out)@ + seq![digit(rest as int)] + Seq::new(
                (low@.len() - k) as nat,
                |j: int| digit(low@[low@.len() - 1 - j] as int),
            ),
        decreases k,
    {
        k -= 1;
        out.append(digit_text(low[k]));
        assert(out@ =~= old(out)@ + seq![digit(rest as int)] + Seq::new(
            (low@.len() - k) as nat,
            |j: int| digit(low@[low@.len() - 1 - j] as int),
        ));
    }
    assert(out@ =~= old(out)@ + digits(n as nat));
}

/// Appends `n` in decimal to `out`.
fn push_decimal(out: &mut String, n: i64)
    ensures
        final(out)@ == old(out)@ + decimal(n as int),
{
    if n < 0 {
        proof {
            reveal_strlit("-");
        }
        out.append("-");
        let size: u64 = (-(n + 1)) as u64 + 1;
        push_digits(out, size);
        assert(out@ =~= old(out)@ + decimal(n as int));
    } else {
        push_digits(out, n as u64);
    }
}

/// Appends `n` spaces to `out`.
fn push_spaces(out: &mut String, n: usize)
    ensures
        final(out)@ == old(out)@ + spaces(n as nat),
{
    let mut i: usize = 0;
    assert(out@ =~= old(out)@ + spaces(0));
    while i < n
        invariant
            i <= n,
            out@ == old(out)@ + spaces(i as nat),
        decreases n - i,
    {
        proof {
            reveal_strlit(" ");
        }
        out.append(" ");
        i += 1;
        assert(out@ =~= old(out)@ + spaces(i as nat));
    }
}

/// Appends `text` to `out`, padded with spaces to `width` characters.
fn push_padded(out: &mut String, text: &str, width: usize)
    ensures
        final(out)@ == old(out)@ + padded(text@, width as nat),
{
    out.append(text);
    let length: usize = text.unicode_len();
    if length < width {
        push_spaces(out, width - length);
        assert(out@ =~= old(out)@ + padded(text@, width as nat));
    }
}

/// Appends three columns with a space between them to `out`, the first
/// two padded to `first` and `second` characters, the last to 10.
fn push_columns(out: &mut String, a: &str, first: usize, b: &str, second: usize, c: &str)
    ensures
        final(out)@ == old(out)@ + columns(a@, first as nat, b@, second as nat, c@),
{
    proof {
        reveal_strlit(" ");
    }
    push_padded(out, a, first);
    out.append(" ");
    push_padded(out, b, second);
    out.append(" ");
    push_padded(out, c, 10);
    assert(out@ =~= old(out)@ + columns(a@, first as nat, b@, second as nat, c@));
}

/// The text of an optional link: the empty text where there is none.
fn link_or_empty(link: &Option<String>) -> (text: &str)
    ensures
        text@ == link_text(crate::models::text_view(*link)),
{
    match link {
        Some(l) => l.as_str(),
        None => {
            proof {
                reveal_strlit("");
            }
            let text = "";
            assert(text@ =~= Seq::empty());
            text
        },
    }
}

/// `n` in decimal.
pub fn decimal_text(n: i64) -> (text: String)
    ensures
        text@ == decimal(n as int),
{
    let mut text = String::new();
    push_decimal(&mut text, n);
    assert(text@ =~= decimal(n as int));
    text
}

impl Task {
    /// The line that shows the task: id, description and link, the first
    /// two in columns of 10 and 50 characters, the link in one of 10.
    pub fn to_line(&self) -> (line: String)
        ensures
            line@ == task_line(self@),
    {
        let id = decimal_text(self.id as i64);
        let mut line = String::new();
        push_columns(&mut line, id.as_str(), 10, self.what.as_str(), 50, link_or_empty(&self.link));
        assert(line@ =~= task_line(self@));
        line
    }
}

impl SubTask {
    /// The line that shows this subtask in the list of its task: rank,
    /// description and link, the first two in columns of 10 and 50
    /// characters, the link in one of 10.
    pub fn to_line(&self) -> (line: String)
        ensures
            line@ == subtask_line(self@),
    {
        let rank = decimal_text(self.subtask_rank as i64);
        let mut line = String::new();
        push_columns(
            &mut line,
            rank.as_str(),
            10,
            self.what.as_str(),
            50,
            link_or_empty(&self.link),
        );
        assert(line@ =~= subtask_line(self@));
        line
    }
}

impl History {
    /// The line that shows this record, given the day `date` on which it
    /// was finished: day and description in columns of 15 and 50
    /// characters, then the link.
    pub fn to_line_dated(&self, date: &str) -> (line: String)
        ensures
            line@ == history_line(date@, self@),
    {
        proof {
            reveal_strlit(" ");
        }
        let mut line = String::new();
        push_padded(&mut line, date, 15);
        line.append(" ");
        push_padded(&mut line, self.what.as_str(), 50);
        line.append(" ");
        line.append(link_or_empty(&self.link));
        assert(line@ =~= history_line(date@, self@));
        line
    }

    /// The line that shows this record: the day on which it was finished,
    /// as year, month and day in the time zone of this machine, and the
    /// description, in columns of 15 and 50 characters, then the link.
    pub fn to_line(&self) -> (line: String)
        ensures
            exists|date: Seq<char>| line@ == history_line(date, self@),
    {
        let date = local_date(self.finish_timestamp);
        let line = self.to_line_dated(date.as_str());
        assert(line@ == history_line(date@, self@));
        line
    }
}

/// The lines that show `subtasks_to_print` below their task, one for each
/// in the order given: `indent_level` times two spaces, then id,
/// description and link in columns of 10, 30 and 10 characters.
pub fn print_subtasks(subtasks_to_print: Vec<SubTask>, indent_level: usize) -> (lines: Vec<String>)
    ensures
        lines@.len() == subtasks_to_print@.len(),
        forall|i: int|
            0 <= i < lines@.len() ==> (#[trigger] lines@[i])@ == indented_subtask_line(
                subtasks_to_print@[i]@,
                indent_level as nat,
            ),
{
    let mut indent = String::new();
    let mut level: usize = 0;
    assert(indent@ =~= spaces(0));
    while level < indent_level
        invariant
            level <= indent_level,
            indent@ == spaces(2 * level as nat),
        decreases indent_level - level,
    {
        proof {
            reveal_strlit("  ");
        }
        indent.append("  ");
        level += 1;
        assert(indent@ =~= spaces(2 * level as nat));
    }
    let mut lines: Vec<String> = Vec::new();
    let mut i: usize = 0;
    while i < subtasks_to_print.len()
        invariant
            i <= subtasks_to_print@.len(),
            indent@ == spaces(2 * indent_level as nat),
            lines@.len() == i,
            forall|j: int|
                0 <= j < i ==> (#[trigger] lines@[j])@ == indented_subtask_line(
                    subtasks_to_print@[j]@,
                    indent_level as nat,
                ),
        decreases subtasks_to_print@.len() - i,
    {
        let subtask = &subtasks_to_print[i];
        let id = decimal_text(subtask.id as i64);
        let mut line = indent.clone();
        push_columns(
            &mut line,
            id.as_str(),
            10,
            subtask.what.as_str(),
            30,
            link_or_empty(&subtask.link),
        );
        lines.push(line);
        i += 1;
    }
    lines
}

/// `line` with the number `number` in a column of 10 characters in front.
pub fn number_line(number: usize, line: &str) -> (numbered: String)
    ensures
        numbered@ == numbered_line(number as nat, line@),
{
    proof {
        reveal_strlit(" ");
    }
    let mut count = String::new();
    push_digits(&mut count, number as u64);
    let mut numbered = String::new();
    push_padded(&mut numbered, count.as_str(), 10);
    numbered.append(" ");
    numbered.append(line);
    assert(count@ =~= digits(number as nat));
    assert(numbered@ =~= numbered_line(number as nat, line@));
    numbered
}

/// The heading above a list of tasks.
pub fn prompt_task() -> (heading: String)
    ensures
        heading@ == task_heading(),
{
    let mut heading = String::new();
    push_columns(&mut heading, "task_id", 10, "description", 50, "link(optional)");
    assert(heading@ =~= task_heading());
    heading
}

/// The two lines above a list of the subtasks of the task `id`: one that
/// names the task, and the heading.
pub fn prompt_subtask(id: i32) -> (heading: (String, String))
    ensures
        heading.0@ == subtask_title(id as int),
        heading.1@ == subtask_heading(),
{
    let mut title = String::new();
    title.append("subtask of ");
    push_decimal(&mut title, id as i64);
    assert(title@ =~= subtask_title(id as int));
    let mut heading = String::new();
    push_columns(&mut heading, "subtask_id", 10, "description", 50, "link(optional)");
    assert(heading@ =~= subtask_heading());
    (title, heading)
}

/// The heading above a numbered list of records.
pub fn prompt_finished_task() -> (heading: String)
    ensures
        heading@ == finished_heading(),
{
    proof {
        reveal_strlit(" ");
    }
    let mut heading = String::new();
    push_padded(&mut heading, "task_id", 10);
    heading.append(" ");
    push_padded(&mut heading, "date", 15);
    heading.append(" ");
    push_padded(&mut heading, "description", 50);
    heading.append(" ");
    heading.append("link(optional)");
    assert(heading@ =~= finished_heading());
    heading
}

/// The sign that stands for `priority` in the list of tasks.
pub fn priority_mark(priority: i32) -> (sign: &'static str)
    ensures
        sign@ == priority_sign(priority as int),
{
    if 0 <= priority && priority <= 3 {
        "\u{1F976}"
    } else if 4 <= priority && priority <= 6 {
        "\u{1F921}"
    } else if 7 <= priority && priority <= 8 {
        "\u{1F605}"
    } else {
        "\u{1F975}"
    }
}

/// `tasks` by ascending priority; tasks of the same priority stay in the
/// order they had.
pub fn by_priority_order(tasks: Vec<Task>) -> (listed: Vec<Task>)
    ensures
        views(listed@) == sorted_by(views(tasks@), by_priority()),
{
    let mut listed: Vec<Task> = Vec::new();
    let mut keys: Vec<i64> = Vec::new();
    for task in it: tasks
        invariant
            it.seq() == tasks@,
            keys@.len() == listed@.len(),
            forall|j: int|
                0 <= j < listed@.len() ==> keys@[j] == by_priority()(#[trigger] listed@[j]@),
            views(listed@) == sorted_by(views(tasks@.take(it.index() as int)), by_priority()),
    {
        proof {
            let seen = views(tasks@.take(it.index() as int));
            lemma_views_take(tasks@, it.index() as int);
            assert(seen.push(task@).drop_last() == seen);
        }
        let priority: i64 = task.priority as i64;
        place_row(&mut listed, &mut keys, task, priority, Ghost(by_priority()));
    }
    proof {
        lemma_views_all(tasks@);
    }
    listed
}

} // verus!
