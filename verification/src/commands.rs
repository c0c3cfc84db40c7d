//! The command dispatcher: each command is a function of the loaded
//! collection and the arguments after the program name, giving the new
//! collection and an outcome that tells the caller what to report and
//! whether the collection must be saved. The exact lines the user sees are
//! built here as well.

use vstd::prelude::*;
use vstd::string::StringExecFns;

use crate::numbers::parse_u32;
use crate::numbers::spec_dec;
use crate::numbers::spec_parse_u32;
use crate::numbers::u32_to_chars;
use crate::task::Task;
use crate::task::TaskView;
use crate::task::add_task;
use crate::task::contains_id;
use crate::task::remove_task;
use crate::task::spec_add;
use crate::task::spec_max_id;
use crate::task::spec_remove;
use crate::task::views;
use crate::text::chars_vec;
use crate::text::join_words;
use crate::text::spec_join;
use crate::text::str_eq;
use crate::text::string_from_chars;
use crate::text::string_views;

verus! {

broadcast use vstd::string::group_string_axioms;

/// What a command run came to, and what the caller owes the user for it.
pub enum Outcome {
    /// No command word was given: print the usage text, exit cleanly.
    NoCommand,
    /// `add` without a description: print the add usage line, no mutation.
    AddUsage,
    /// A task was appended: save, then confirm.
    Added,
    /// `remove` without exactly one argument: print the remove usage line.
    RemoveUsage,
    /// The `remove` argument is not an integer: report it and exit with a
    /// failure status; nothing was changed and nothing may be saved.
    InvalidId,
    /// A task was dropped: save, then confirm.
    Removed,
    /// No task carries the requested identifier: report it, no mutation.
    NotFound(u32),
    /// The tasks to show, one line each, in collection order.
    Listed(Vec<String>),
    /// The collection is empty: report that there are no tasks.
    NoTasks,
    /// An unrecognised command word: list the valid commands.
    Unknown,
}

/// Whether an outcome obliges the caller to write the collection back.
pub open spec fn spec_outcome_saves(o: Outcome) -> bool {
    o is Added || o is Removed
}

impl Outcome {
    /// Whether the collection must be written back to storage.
    pub fn needs_save(&self) -> (r: bool)
        ensures
            r == spec_outcome_saves(*self),
    {
        match self {
            Outcome::Added => true,
            Outcome::Removed => true,
            _ => false,
        }
    }
}

/// One listing line: the identifier, a colon and a space, the description.
pub open spec fn spec_line(t: TaskView) -> Seq<char> {
    spec_dec(t.id as int) + seq![':', ' '] + t.description
}

/// The listing of a collection, one line per task, in order.
pub open spec fn spec_lines(ts: Seq<TaskView>) -> Seq<Seq<char>> {
    ts.map_values(|t: TaskView| spec_line(t))
}

/// The line a task is listed as.
pub fn task_line(t: &Task) -> (r: String)
    ensures
        r@ == spec_line(t@),
{
    let digits = u32_to_chars(t.id);
    let mut r = string_from_chars(&digits);
    r.append(": ");
    r.append(t.description.as_str());
    proof {
        reveal_strlit(": ");
        assert(": "@ =~= seq![':', ' ']);
        assert(r@ =~= spec_line(t@));
    }
    r
}

/// The listing lines for a collection, in collection order.
pub fn render_lines(tasks: &Vec<Task>) -> (r: Vec<String>)
    ensures
        string_views(r@) == spec_lines(views(tasks@)),
{
    let ghost vs = views(tasks@);
    let mut r: Vec<String> = Vec::new();
    let mut i: usize = 0;
    proof {
        assert(string_views(r@) =~= spec_lines(vs.subrange(0, 0)));
    }
    while i < tasks.len()
        invariant
            i <= tasks@.len(),
            vs == views(tasks@),
            vs.len() == tasks@.len(),
            string_views(r@) == spec_lines(vs.subrange(0, i as int)),
        decreases tasks@.len() - i,
    {
        let line = task_line(&tasks[i]);
        let ghost r_old = r@;
        let ghost line_view = line@;
        r.push(line);
        i = i + 1;
        proof {
            assert(vs[i - 1] == tasks@[i - 1]@);
            let prev = vs.subrange(0, i - 1);
            let cur = vs.subrange(0, i as int);
            assert(r@.len() == r_old.len() + 1);
            assert(string_views(r_old).len() == r_old.len());
            assert(spec_lines(prev).len() == prev.len());
            assert(string_views(r@).len() == spec_lines(cur).len());
            assert forall|k: int| 0 <= k < i implies string_views(r@)[k] == spec_lines(cur)[k] by {
                assert(string_views(r@)[k] == r@[k]@);
                assert(spec_lines(cur)[k] == spec_line(cur[k]));
                if k < i - 1 {
                    assert(r@[k] == r_old[k]);
                    assert(string_views(r_old)[k] == r_old[k]@);
                    assert(spec_lines(prev)[k] == spec_line(prev[k]));
                    assert(cur[k] == prev[k]);
                } else {
                    assert(r@[k]@ == line_view);
                    assert(cur[k] == vs[i - 1]);
                }
            }
            assert(string_views(r@) =~= spec_lines(cur));
        }
    }
    proof {
        assert(vs.subrange(0, tasks@.len() as int) =~= vs);
    }
    r
}

/// Runs one command against the loaded collection. The arguments are those
/// after the program name: the command word first, then its operands.
pub fn run_command(tasks: &mut Vec<Task>, args: &Vec<String>) -> (outcome: Outcome)
    requires
        args@.len() >= 2 && args@[0]@ == "add"@ ==> spec_max_id(views(old(tasks)@)) < u32::MAX,
    ensures
        ({
            let ts = views(old(tasks)@);
            let vf = views(final(tasks)@);
            let a = args@;
            &&& a.len() == 0 ==> vf == ts && outcome is NoCommand
            &&& (a.len() == 1 && a[0]@ == "add"@) ==> vf == ts && outcome is AddUsage
            &&& (a.len() >= 2 && a[0]@ == "add"@) ==> vf == spec_add(
                ts,
                spec_join(string_views(a).subrange(1, a.len() as int)),
            ) && outcome is Added
            &&& (a.len() >= 1 && a[0]@ == "remove"@ && a.len() != 2) ==> vf == ts
                && outcome is RemoveUsage
            &&& (a.len() == 2 && a[0]@ == "remove"@ && spec_parse_u32(a[1]@) is None) ==> vf == ts
                && outcome is InvalidId
            &&& (a.len() == 2 && a[0]@ == "remove"@ && spec_parse_u32(a[1]@) is Some) ==> ({
                let id = spec_parse_u32(a[1]@)->Some_0;
                &&& contains_id(ts, id) ==> vf == spec_remove(ts, id) && outcome is Removed
                &&& !contains_id(ts, id) ==> vf == ts && (outcome matches Outcome::NotFound(x)
                    && x == id)
            })
            &&& (a.len() >= 1 && a[0]@ == "list"@) ==> vf == ts && (ts.len() == 0
                ==> outcome is NoTasks) && (ts.len() > 0 ==> (outcome matches Outcome::Listed(
                lines,
            ) && string_views(lines@) == spec_lines(ts)))
            &&& (a.len() >= 1 && a[0]@ != "add"@ && a[0]@ != "remove"@ && a[0]@ != "list"@)
                ==> vf == ts && outcome is Unknown
            &&& !spec_outcome_saves(outcome) ==> vf == ts
        }),
{
    proof {
        reveal_strlit("add");
        reveal_strlit("remove");
        reveal_strlit("list");
        assert("add"@.len() == 3);
        assert("remove"@.len() == 6);
        assert("list"@.len() == 4);
    }
    if args.len() == 0 {
        return Outcome::NoCommand;
    }
    if str_eq(args[0].as_str(), "add") {
        if args.len() < 2 {
            return Outcome::AddUsage;
        }
        let desc = join_words(args, 1);
        add_task(tasks, desc);
        return Outcome::Added;
    }
    if str_eq(args[0].as_str(), "remove") {
        if args.len() != 2 {
            return Outcome::RemoveUsage;
        }
        let idchars = chars_vec(args[1].as_str());
        let parsed = parse_u32(&idchars);
        match parsed {
            None => Outcome::InvalidId,
            Some(id) => {
                let removed = remove_task(tasks, id);
                if removed {
                    Outcome::Removed
                } else {
                    proof {
                        crate::task::lemma_remove_absent(views(old(tasks)@), id);
                    }
                    Outcome::NotFound(id)
                }
            },
        }
    } else if str_eq(args[0].as_str(), "list") {
        if tasks.len() == 0 {
            return Outcome::NoTasks;
        }
        let lines = render_lines(tasks);
        Outcome::Listed(lines)
    } else {
        Outcome::Unknown
    }
}

/// The confirmation printed after a successful `add`.
pub fn added_message() -> (r: String)
    ensures
        r@ == "Task added successfully."@,
{
    String::from_str("Task added successfully.")
}

/// The confirmation printed after a successful `remove`.
pub fn removed_message() -> (r: String)
    ensures
        r@ == "Task removed successfully."@,
{
    String::from_str("Task removed successfully.")
}

/// The line printed by `list` when the collection is empty.
pub fn no_tasks_message() -> (r: String)
    ensures
        r@ == "No tasks found."@,
{
    String::from_str("No tasks found.")
}

/// The heading printed before the listing lines.
pub fn list_header_message() -> (r: String)
    ensures
        r@ == "Current tasks:"@,
{
    String::from_str("Current tasks:")
}

/// The report for a `remove` whose identifier no task carries.
pub fn not_found_message(id: u32) -> (r: String)
    ensures
        r@ == "Task with id "@ + spec_dec(id as int) + " not found."@,
{
    let mut r = String::from_str("Task with id ");
    let digits = u32_to_chars(id);
    let digit_text = string_from_chars(&digits);
    r.append(digit_text.as_str());
    r.append(" not found.");
    r
}

/// The report for a `remove` argument that is not an integer.
pub fn invalid_id_message(arg: &String) -> (r: String)
    ensures
        r@ == "Invalid task id: "@ + arg@,
{
    let mut r = String::from_str("Invalid task id: ");
    r.append(arg.as_str());
    r
}

/// The report for a command word that is not recognised.
pub fn unknown_command_message(cmd: &String) -> (r: String)
    ensures
        r@ == "Unknown command: "@ + cmd@,
{
    let mut r = String::from_str("Unknown command: ");
    r.append(cmd.as_str());
    r
}

} // verus!
