//! The styled line of a task.
//!
//! A line is text with ANSI control sequences in it: the connectors of
//! the tree in grey, a status symbol in the colour of the task, the name,
//! and who the task is assigned to. The selected line gets a background
//! that is set again after every reset inside the line.

use crate::state::State;
use crate::task::{TaskLine, TaskLineView, TaskState};
use crate::text::{
    extend_chars, from_chars, push_text, repeated, replace_all, replaced, starts_with,
    str_starts_with, to_chars,
};
use vstd::prelude::*;

verus! {

/// The sequence that ends all styling.
pub open spec fn reset() -> Seq<char> {
    "\x1b[0m"@
}

/// The sequence that sets the background of the selected line.
pub open spec fn background() -> Seq<char> {
    "\x1b[48;5;237m"@
}

/// The colour that the status of the agent asks for, if it asks for one:
/// red for `blocked:`, green for `done:`, yellow for `wip:`.
pub open spec fn agent_color(status: Seq<char>) -> Option<Seq<char>> {
    if starts_with(status, "blocked:"@) {
        Some("\x1b[31m"@)
    } else if starts_with(status, "done:"@) {
        Some("\x1b[32m"@)
    } else if starts_with(status, "wip:"@) {
        Some("\x1b[33m"@)
    } else {
        None
    }
}

/// The colour of a lifecycle state: yellow for work in progress, grey for
/// what is done, white for what is to do.
pub open spec fn state_color(state: TaskState) -> Seq<char> {
    match state {
        TaskState::Wip => "\x1b[33m"@,
        TaskState::Done => "\x1b[90m"@,
        TaskState::Todo => "\x1b[37m"@,
    }
}

/// The colour of a task: that of the agent's status where it names one,
/// else that of the lifecycle state.
pub open spec fn color_of(task: TaskLineView) -> Seq<char> {
    match task.agent_status {
        Some(status) => match agent_color(status) {
            Some(color) => color,
            None => state_color(task.state),
        },
        None => state_color(task.state),
    }
}

/// The status of the agent says that the task was taken up.
pub open spec fn agent_is_active(status: Seq<char>) -> bool {
    starts_with(status, "done:"@) || starts_with(status, "wip:"@) || starts_with(
        status,
        "blocked:"@,
    )
}

/// The status symbol of a task: a filled circle once an agent took it up
/// or its state is no longer `Todo`, else an open circle.
pub open spec fn symbol_of(task: TaskLineView) -> char {
    if task.agent_status is Some && agent_is_active(task.agent_status->0) {
        '●'
    } else if task.state != TaskState::Todo {
        '●'
    } else {
        '○'
    }
}

/// One column of the tree: a vertical line where the ancestor of that
/// level has a later sibling, two blanks where it has none.
pub open spec fn column(continues: bool) -> Seq<char> {
    if continues {
        "\x1b[90m│ \x1b[0m"@
    } else {
        "  "@
    }
}

/// The columns for continuation flags that come nearest ancestor first:
/// drawn from the outermost ancestor on the left to the parent on the right.
pub open spec fn columns(flags: Seq<bool>) -> Seq<char>
    decreases flags.len(),
{
    if flags.len() == 0 {
        Seq::empty()
    } else {
        column(flags.last()) + columns(flags.drop_last())
    }
}

/// The branch in front of a task: a corner for the last of its siblings,
/// a tee for the others.
pub open spec fn connector(last: bool) -> Seq<char> {
    if last {
        "\x1b[90m╰─\x1b[0m"@
    } else {
        "\x1b[90m├─\x1b[0m"@
    }
}

/// The number of columns in front of a task: one for each ancestor but
/// the outermost, and never more than it has continuation flags.
pub open spec fn column_count(task: TaskLineView) -> nat {
    if task.depth == 0 {
        0
    } else if task.depth - 1 <= task.ancestor_continuations.len() {
        (task.depth - 1) as nat
    } else {
        task.ancestor_continuations.len()
    }
}

/// What stands in front of a task to draw the tree: nothing for a root,
/// else the columns and the branch.
pub open spec fn prefix_of(task: TaskLineView) -> Seq<char> {
    if task.depth == 0 {
        Seq::empty()
    } else {
        columns(task.ancestor_continuations.take(column_count(task) as int)) + connector(
            task.is_last_sibling,
        )
    }
}

/// The name as it is shown: struck through when the task is done.
pub open spec fn shown_name(task: TaskLineView) -> Seq<char> {
    if task.state == TaskState::Done {
        "\x1b[9m"@ + task.name + reset()
    } else {
        task.name
    }
}

/// The name is struck through for a task that is done, and shown as it
/// is for every other task.
pub proof fn lemma_strike_through_marks_done(task: TaskLineView)
    ensures
        task.state == TaskState::Done ==> starts_with(shown_name(task), "\x1b[9m"@)
            && shown_name(task).len() > task.name.len(),
        task.state != TaskState::Done ==> shown_name(task) == task.name,
{
    reveal_strlit("\x1b[9m");
    if task.state == TaskState::Done {
        assert(shown_name(task).take("\x1b[9m"@.len() as int) =~= "\x1b[9m"@);
    }
}

/// The tag that names who the task is assigned to, if anyone.
pub open spec fn assignment_of(task: TaskLineView) -> Seq<char> {
    match task.assigned_to {
        Some(agent) => " [\x1b[36m"@ + agent + "\x1b[0m]"@,
        None => Seq::empty(),
    }
}

/// The line of a task: the tree, then in the colour of the task the
/// status symbol and the name, then the assignment, and a reset. The
/// colour is that of the task in every state: a task that is done is
/// grey unless the status of the agent names another colour.
pub open spec fn line_of(task: TaskLineView) -> Seq<char> {
    prefix_of(task) + color_of(task) + seq![symbol_of(task), ' '] + shown_name(task)
        + assignment_of(task) + reset()
}

/// `line` with the background set again after every reset.
pub open spec fn with_background(line: Seq<char>) -> Seq<char> {
    replace_all(line, reset(), reset() + background())
}

/// The selected line: the background is set at the start and again
/// after every reset in the line, the padding follows under the same
/// background, and a reset ends it.
pub open spec fn highlighted(line: Seq<char>, padding: Seq<char>) -> Seq<char> {
    background() + with_background(line) + padding + reset()
}

/// The letters `a` to `z` and `A` to `Z`.
pub open spec fn is_ascii_letter(c: char) -> bool {
    ('a' <= c && c <= 'z') || ('A' <= c && c <= 'Z')
}

/// What is seen of `s` when the control sequences are taken out. A
/// sequence begins with the escape character and `[` and ends with the
/// first letter after them, or with the text; `inside` says that `s`
/// begins within one.
pub open spec fn visible_from(s: Seq<char>, inside: bool) -> Seq<char>
    decreases s.len(),
{
    if s.len() == 0 {
        Seq::empty()
    } else if inside {
        visible_from(s.skip(1), !is_ascii_letter(s[0]))
    } else if s[0] == '\x1b' && s.len() >= 2 && s[1] == '[' {
        visible_from(s.skip(2), true)
    } else {
        seq![s[0]] + visible_from(s.skip(1), false)
    }
}

/// The visible characters of `s`.
pub open spec fn stripped(s: Seq<char>) -> Seq<char> {
    visible_from(s, false)
}

/// Decides `is_ascii_letter`.
fn is_letter(c: char) -> (r: bool)
    ensures
        r == is_ascii_letter(c),
{
    ('a' <= c && c <= 'z') || ('A' <= c && c <= 'Z')
}

/// Computes `stripped` on characters.
fn visible_chars(s: &Vec<char>) -> (r: Vec<char>)
    ensures
        r@ == stripped(s@),
{
    let mut out: Vec<char> = Vec::new();
    let mut inside = false;
    let mut i: usize = 0;
    proof {
        assert(s@.skip(0) =~= s@);
        assert(out@ + visible_from(s@, false) =~= visible_from(s@, false));
    }
    while i < s.len()
        invariant
            i <= s.len(),
            out@ + visible_from(s@.skip(i as int), inside) == stripped(s@),
        decreases s.len() - i,
    {
        let ghost rest = s@.skip(i as int);
        proof {
            assert(rest[0] == s@[i as int]);
            assert(rest.skip(1) =~= s@.skip(i + 1));
        }
        if inside {
            inside = !is_letter(s[i]);
            i += 1;
        } else if s[i] == '\x1b' && i + 1 < s.len() && s[i + 1] == '[' {
            proof {
                assert(rest[1] == s@[i + 1]);
                assert(rest.skip(2) =~= s@.skip(i + 2));
            }
            inside = true;
            i += 2;
        } else {
            proof {
                if i + 1 < s.len() {
                    assert(rest[1] == s@[i + 1]);
                }
                assert(out@ + (seq![rest[0]] + visible_from(rest.skip(1), false)) =~= out@.push(
                    rest[0],
                ) + visible_from(rest.skip(1), false));
            }
            out.push(s[i]);
            i += 1;
        }
    }
    proof {
        assert(out@ + Seq::<char>::empty() =~= out@);
    }
    out
}

/// The visible characters of `s`: the text without its control sequences.
pub fn strip_ansi(s: &str) -> (r: String)
    ensures
        r@ == stripped(s@),
{
    let chars = to_chars(s);
    from_chars(&visible_chars(&chars))
}

/// The number of visible characters of `s`.
pub fn visible_width(s: &str) -> (r: usize)
    ensures
        r == stripped(s@).len(),
{
    let chars = to_chars(s);
    visible_chars(&chars).len()
}

impl State {
    /// The colour of a task, as the sequence that sets it.
    pub fn task_color(&self, task: &TaskLine) -> (r: &'static str)
        ensures
            r@ == color_of(task@),
    {
        if let Some(status) = &task.agent_status {
            if str_starts_with(status.as_str(), "blocked:") {
                return "\x1b[31m";
            }
            if str_starts_with(status.as_str(), "done:") {
                return "\x1b[32m";
            }
            if str_starts_with(status.as_str(), "wip:") {
                return "\x1b[33m";
            }
        }
        match task.state {
            TaskState::Wip => "\x1b[33m",
            TaskState::Done => "\x1b[90m",
            TaskState::Todo => "\x1b[37m",
        }
    }

    /// The status symbol of a task.
    pub fn status_symbol(&self, task: &TaskLine) -> (r: char)
        ensures
            r == symbol_of(task@),
    {
        if let Some(status) = &task.agent_status {
            if str_starts_with(status.as_str(), "done:") {
                return '●';
            }
            if str_starts_with(status.as_str(), "wip:") || str_starts_with(
                status.as_str(),
                "blocked:",
            ) {
                return '●';
            }
        }
        match task.state {
            TaskState::Wip | TaskState::Done => '●',
            TaskState::Todo => '○',
        }
    }

    /// What stands in front of a task to draw the tree.
    pub fn tree_prefix(&self, task: &TaskLine) -> (r: String)
        ensures
            r@ == prefix_of(task@),
    {
        if task.depth == 0 {
            return String::new();
        }
        let mut prefix: Vec<char> = Vec::new();
        let wanted: usize = task.depth - 1;
        let count: usize = if wanted <= task.ancestor_continuations.len() {
            wanted
        } else {
            task.ancestor_continuations.len()
        };
        let ghost flags = task.ancestor_continuations@.take(count as int);
        let mut i: usize = count;
        proof {
            assert(flags.take(count as int) =~= flags);
            assert(prefix@ + columns(flags) =~= columns(flags));
        }
        while i > 0
            invariant
                i <= count <= task.ancestor_continuations.len(),
                flags == task.ancestor_continuations@.take(count as int),
                prefix@ + columns(flags.take(i as int)) == columns(flags),
            decreases i,
        {
            let ghost head = flags.take(i as int);
            proof {
                assert(head.last() == task.ancestor_continuations@[i - 1]);
                assert(head.drop_last() =~= flags.take(i - 1));
            }
            let ghost before = prefix@;
            if task.ancestor_continuations[i - 1] {
                push_text(&mut prefix, "\x1b[90m│ \x1b[0m");
            } else {
                push_text(&mut prefix, "  ");
            }
            proof {
                assert(before + (column(head.last()) + columns(head.drop_last())) =~= (before
                    + column(head.last())) + columns(head.drop_last()));
            }
            i -= 1;
        }
        proof {
            assert(flags.take(0) =~= Seq::<bool>::empty());
            assert(prefix@ + Seq::<char>::empty() =~= prefix@);
        }
        if task.is_last_sibling {
            push_text(&mut prefix, "\x1b[90m╰─\x1b[0m");
        } else {
            push_text(&mut prefix, "\x1b[90m├─\x1b[0m");
        }
        from_chars(&prefix)
    }

    /// The selected line: `line` over the highlight background, followed
    /// by `padding` under the same background.
    pub fn highlight_line(&self, line: &str, padding: &str) -> (r: String)
        ensures
            r@ == highlighted(line@, padding@),
    {
        let reset_chars = to_chars("\x1b[0m");
        let mut again = to_chars("\x1b[0m");
        push_text(&mut again, "\x1b[48;5;237m");
        let chars = to_chars(line);
        let body = replaced(&chars, &reset_chars, &again);
        let mut out = to_chars("\x1b[48;5;237m");
        extend_chars(&mut out, &body);
        push_text(&mut out, padding);
        push_text(&mut out, "\x1b[0m");
        from_chars(&out)
    }

    /// The line of a task.
    pub fn render_task(&self, task: &TaskLine) -> (r: String)
        ensures
            r@ == line_of(task@),
    {
        let prefix = self.tree_prefix(task);
        let status = self.status_symbol(task);
        let color = self.task_color(task);
        let done = match task.state {
            TaskState::Done => true,
            _ => false,
        };
        let mut line = to_chars(prefix.as_str());
        push_text(&mut line, color);
        line.push(status);
        line.push(' ');
        proof {
            assert(line@ =~= prefix_of(task@) + color_of(task@) + seq![symbol_of(task@), ' ']);
        }
        if done {
            push_text(&mut line, "\x1b[9m");
            push_text(&mut line, task.name.as_str());
            push_text(&mut line, "\x1b[0m");
        } else {
            push_text(&mut line, task.name.as_str());
        }
        proof {
            assert(line@ =~= prefix_of(task@) + color_of(task@) + seq![symbol_of(task@), ' ']
                + shown_name(task@));
        }
        if let Some(agent) = &task.assigned_to {
            push_text(&mut line, " [\x1b[36m");
            push_text(&mut line, agent.as_str());
            push_text(&mut line, "\x1b[0m]");
        }
        proof {
            assert(line@ =~= prefix_of(task@) + color_of(task@) + seq![symbol_of(task@), ' ']
                + shown_name(task@) + assignment_of(task@));
        }
        push_text(&mut line, "\x1b[0m");
        from_chars(&line)
    }
}

/// Whether reading `s` ends within a control sequence; `inside` says
/// that `s` begins within one.
pub open spec fn ends_inside(s: Seq<char>, inside: bool) -> bool
    decreases s.len(),
{
    if s.len() == 0 {
        inside
    } else if inside {
        ends_inside(s.skip(1), !is_ascii_letter(s[0]))
    } else if s[0] == '\x1b' && s.len() >= 2 && s[1] == '[' {
        ends_inside(s.skip(2), true)
    } else {
        ends_inside(s.skip(1), false)
    }
}

/// Two texts are read one after the other as they are read alone,
/// unless the first ends with the escape character and the second
/// begins with `[`.
pub proof fn lemma_visible_concat(a: Seq<char>, b: Seq<char>, inside: bool)
    requires
        a.len() == 0 || a.last() != '\x1b' || b.len() == 0 || b[0] != '[',
    ensures
        visible_from(a + b, inside) == visible_from(a, inside) + visible_from(
            b,
            ends_inside(a, inside),
        ),
        ends_inside(a + b, inside) == ends_inside(b, ends_inside(a, inside)),
    decreases a.len(),
{
    let ab = a + b;
    if a.len() == 0 {
        assert(ab =~= b);
        assert(visible_from(a, inside) + visible_from(b, inside) =~= visible_from(b, inside));
    } else if inside {
        assert(ab[0] == a[0]);
        assert(ab.skip(1) =~= a.skip(1) + b);
        if a.len() > 1 {
            assert(a.skip(1).last() == a.last());
        }
        lemma_visible_concat(a.skip(1), b, !is_ascii_letter(a[0]));
    } else if a[0] == '\x1b' && a.len() >= 2 && a[1] == '[' {
        assert(ab[0] == a[0] && ab[1] == a[1]);
        assert(ab.skip(2) =~= a.skip(2) + b);
        if a.len() > 2 {
            assert(a.skip(2).last() == a.last());
        }
        lemma_visible_concat(a.skip(2), b, true);
    } else {
        assert(ab[0] == a[0]);
        if a.len() >= 2 {
            assert(ab[1] == a[1]);
            assert(a.skip(1).last() == a.last());
        } else if b.len() > 0 {
            assert(ab[1] == b[0]);
        }
        assert(ab.skip(1) =~= a.skip(1) + b);
        lemma_visible_concat(a.skip(1), b, false);
        assert(seq![a[0]] + (visible_from(a.skip(1), false) + visible_from(
            b,
            ends_inside(a.skip(1), false),
        )) =~= (seq![a[0]] + visible_from(a.skip(1), false)) + visible_from(
            b,
            ends_inside(a.skip(1), false),
        ));
    }
}

/// Within a control sequence nothing is seen up to its first letter.
proof fn lemma_unseen_until_letter(s: Seq<char>)
    requires
        s.len() > 0,
        forall|k: int| 0 <= k < s.len() - 1 ==> !is_ascii_letter(#[trigger] s[k]),
        is_ascii_letter(s.last()),
    ensures
        visible_from(s, true) == Seq::<char>::empty(),
        !ends_inside(s, true),
    decreases s.len(),
{
    if s.len() > 1 {
        assert forall|k: int| 0 <= k < s.skip(1).len() - 1 implies !is_ascii_letter(
            #[trigger] s.skip(1)[k],
        ) by {
            assert(s.skip(1)[k] == s[k + 1]);
        }
        assert(s.skip(1).last() == s.last());
        assert(!is_ascii_letter(s[0]));
        lemma_unseen_until_letter(s.skip(1));
    } else {
        assert(s[0] == s.last());
        assert(visible_from(s.skip(1), false) == Seq::<char>::empty());
        assert(!ends_inside(s.skip(1), false));
    }
}

/// A whole control sequence is not seen and leaves no sequence open,
/// wherever it is read.
pub proof fn lemma_sequence_is_unseen(s: Seq<char>, inside: bool)
    requires
        s.len() >= 3,
        s[0] == '\x1b',
        s[1] == '[',
        forall|k: int| 0 <= k < s.len() - 1 ==> !is_ascii_letter(#[trigger] s[k]),
        is_ascii_letter(s.last()),
    ensures
        visible_from(s, inside) == Seq::<char>::empty(),
        !ends_inside(s, inside),
{
    if inside {
        lemma_unseen_until_letter(s);
    } else {
        let rest = s.skip(2);
        assert forall|k: int| 0 <= k < rest.len() - 1 implies !is_ascii_letter(
            #[trigger] rest[k],
        ) by {
            assert(rest[k] == s[k + 2]);
        }
        assert(rest.last() == s.last());
        lemma_unseen_until_letter(rest);
    }
}

/// The reset and the background are whole control sequences.
proof fn lemma_reset_and_background(inside: bool)
    ensures
        reset().len() == 4,
        reset()[0] == '\x1b',
        background()[0] == '\x1b',
        reset().last() == 'm',
        background().last() == 'm',
        visible_from(reset(), inside) == Seq::<char>::empty(),
        !ends_inside(reset(), inside),
        visible_from(background(), inside) == Seq::<char>::empty(),
        !ends_inside(background(), inside),
{
    reveal_strlit("\x1b[0m");
    reveal_strlit("\x1b[48;5;237m");
    lemma_sequence_is_unseen(reset(), inside);
    lemma_sequence_is_unseen(background(), inside);
}

/// Setting the background again changes neither the first character of
/// a line nor whether the line is empty.
proof fn lemma_with_background_head(line: Seq<char>)
    ensures
        with_background(line).len() == 0 <==> line.len() == 0,
        line.len() > 0 ==> with_background(line)[0] == line[0],
{
    lemma_reset_and_background(false);
    if line.len() >= 4 && starts_with(line, reset()) {
        assert(line.take(4)[0] == line[0]);
    }
}

/// What is seen of a line stays as it is when the background is set
/// again after every reset in it.
pub proof fn lemma_with_background_unseen(line: Seq<char>, inside: bool)
    ensures
        visible_from(with_background(line), inside) == visible_from(line, inside),
        ends_inside(with_background(line), inside) == ends_inside(line, inside),
    decreases line.len(),
{
    lemma_reset_and_background(inside);
    let again = reset() + background();
    let out = with_background(line);
    if line.len() < 4 {
    } else if starts_with(line, reset()) {
        let rest = line.skip(4);
        assert(line =~= reset() + rest);
        lemma_visible_concat(reset(), rest, inside);
        lemma_visible_concat(reset(), background(), inside);
        lemma_reset_and_background(false);
        assert(again.last() == background().last());
        lemma_visible_concat(again, with_background(rest), inside);
        lemma_with_background_unseen(rest, false);
        assert(Seq::<char>::empty() + visible_from(rest, false) =~= visible_from(rest, false));
        assert(Seq::<char>::empty() + Seq::<char>::empty() =~= Seq::<char>::empty());
    } else {
        let c = line[0];
        let rest = line.skip(1);
        let inner = with_background(rest);
        assert(out == seq![c] + inner);
        assert(out[0] == c);
        assert(out.skip(1) =~= inner);
        lemma_with_background_head(rest);
        if inside {
            lemma_with_background_unseen(rest, !is_ascii_letter(c));
        } else if c == '\x1b' && line[1] == '[' {
            assert(rest[0] == line[1]);
            assert(out[1] == inner[0]);
            assert(rest.skip(1) =~= line.skip(2));
            assert(out.skip(2) =~= inner.skip(1));
            if rest.len() >= 4 {
                assert(rest.take(4)[0] == rest[0]);
                assert(inner == seq![rest[0]] + with_background(rest.skip(1)));
                assert(inner.skip(1) =~= with_background(rest.skip(1)));
            }
            lemma_with_background_unseen(line.skip(2), true);
        } else {
            assert(rest[0] == line[1]);
            assert(out[1] == inner[0]);
            lemma_with_background_unseen(rest, false);
        }
    }
}

/// Blanks are seen as they are.
proof fn lemma_blanks_are_seen(n: nat)
    ensures
        visible_from(repeated(' ', n), false) == repeated(' ', n),
        !ends_inside(repeated(' ', n), false),
    decreases n,
{
    let blanks = repeated(' ', n);
    if n > 0 {
        assert(blanks.skip(1) =~= repeated(' ', (n - 1) as nat));
        lemma_blanks_are_seen((n - 1) as nat);
        assert(seq![' '] + repeated(' ', (n - 1) as nat) =~= blanks);
    } else {
        assert(blanks =~= Seq::<char>::empty());
    }
}

/// Of a highlighted line the same is seen as of the line, followed by
/// the padding, provided that the line does not end within a control
/// sequence, which would swallow the padding.
pub proof fn lemma_highlight_keeps_text(line: Seq<char>, padding: nat)
    requires
        !ends_inside(line, false),
    ensures
        stripped(highlighted(line, repeated(' ', padding))) == stripped(line) + repeated(
            ' ',
            padding,
        ),
{
    let blanks = repeated(' ', padding);
    let body = with_background(line);
    let tail = blanks + reset();
    lemma_reset_and_background(false);
    lemma_with_background_unseen(line, false);
    lemma_blanks_are_seen(padding);
    assert(highlighted(line, blanks) =~= background() + (body + tail));
    lemma_visible_concat(background(), body + tail, false);
    assert(tail[0] != '[') by {
        if padding > 0 {
            assert(tail[0] == blanks[0]);
        } else {
            assert(tail[0] == reset()[0]);
        }
    }
    lemma_visible_concat(body, tail, false);
    if padding > 0 {
        assert(blanks.last() == ' ');
    }
    lemma_visible_concat(blanks, reset(), false);
    assert(Seq::<char>::empty() + (stripped(line) + (blanks + Seq::<char>::empty()))
        =~= stripped(line) + blanks);
}

/// The line of a task never ends within a control sequence: it ends
/// with a reset.
pub proof fn lemma_line_is_closed(task: TaskLineView)
    ensures
        !ends_inside(line_of(task), false),
{
    let front = prefix_of(task) + color_of(task) + seq![symbol_of(task), ' '] + shown_name(task)
        + assignment_of(task);
    lemma_reset_and_background(false);
    lemma_reset_and_background(ends_inside(front, false));
    lemma_visible_concat(front, reset(), false);
}

} // verus!
