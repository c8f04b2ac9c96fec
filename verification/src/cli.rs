//! The commands of the task list, and the decisions that running them needs.

use vstd::prelude::*;

use crate::db::{
    Database, DatabaseView, Store, add_outcome, complete_outcome, edit_outcome, graph_of, link_outcome,
    live, not_found, priority_outcome, remove_outcome, reports, shuffle_outcome, undo_outcome,
    unlink_outcome,
};
use crate::error::Error;
use crate::model::{Graph, Task, description_check, validate_description};
use crate::render::{
    ListMode, chain_text, details_text, find, find_text, list, list_text, show, tree, tree_text,
};
use crate::text::{decimal, push_decimal, trim, trimmed};

verus! {

/// The parsed command line.
pub struct Cli {
    pub command: Option<Command>,
}

/// A subcommand.
pub enum Command {
    /// Add a task.
    Add { priority: u8, description: Vec<String> },
    /// Complete a task, or the next task when no ID is supplied.
    Done { id: Option<i64> },
    /// Show the next priority-1 task.
    One,
    /// Show the next priority-2 task.
    Two,
    /// Show the next priority-3 task.
    Three,
    /// Change a task's intrinsic priority.
    Priority { id: i64, priority: u8 },
    /// Make PARENT depend on CHILD.
    Dep { parent: i64, child: i64 },
    /// Remove a dependency.
    Undep { parent: i64, child: i64 },
    /// List tasks.
    Ls { all: bool, blocked: bool, done: bool },
    /// Render the task dependency graph.
    Tree,
    /// Show all details for one task.
    Show { id: i64 },
    /// Edit a task, or the next task when no ID is supplied.
    Edit { id: Option<i64> },
    /// Undo the latest successful mutation.
    Undo,
    /// Move to the next ready task of the current effective priority tier.
    Shuffle,
    /// Search task descriptions.
    Find { query: Vec<String> },
    /// Soft-delete a task.
    Rm { id: i64, force: bool },
    /// Generate shell completion code.
    Completions { shell: Shell },
}

/// A shell that completion code can be generated for.
#[derive(Clone, Copy, Debug, PartialEq, Eq, Structural)]
pub enum Shell {
    Bash,
    Zsh,
    Fish,
}

/// The list mode that the `ls` flags select; plain `ls` lists ready tasks.
pub open spec fn mode_of(all: bool, blocked: bool, done: bool) -> ListMode {
    if all {
        ListMode::All
    } else if blocked {
        ListMode::Blocked
    } else if done {
        ListMode::Done
    } else {
        ListMode::Ready
    }
}

/// The list mode that the `ls` flags select.
pub fn list_mode(all: bool, blocked: bool, done: bool) -> (r: ListMode)
    ensures
        r == mode_of(all, blocked, done),
{
    if all {
        ListMode::All
    } else if blocked {
        ListMode::Blocked
    } else if done {
        ListMode::Done
    } else {
        ListMode::Ready
    }
}

/// Words joined by single spaces.
pub open spec fn joined(words: Seq<Seq<char>>) -> Seq<char>
    decreases words.len(),
{
    if words.len() == 0 {
        Seq::empty()
    } else if words.len() == 1 {
        words[0]
    } else {
        joined(words.drop_last()) + " "@ + words.last()
    }
}

/// Words joined by single spaces (`[String]::join(" ")`).
pub fn join_words(words: &Vec<String>) -> (r: String)
    ensures
        r@ == joined(words@.map_values(|w: String| w@)),
{
    let ghost ws = words@.map_values(|w: String| w@);
    let mut r = String::new();
    let mut k: usize = 0;
    while k < words.len()
        invariant
            k <= words@.len(),
            ws == words@.map_values(|w: String| w@),
            r@ == joined(ws.subrange(0, k as int)),
        decreases words@.len() - k,
    {
        if k > 0 {
            r.append(" ");
        }
        r.append(words[k].as_str());
        proof {
            let s1 = ws.subrange(0, k + 1);
            assert(s1.drop_last() =~= ws.subrange(0, k as int));
            assert(s1.last() == words@[k as int]@);
            if k == 0 {
                assert(ws.subrange(0, 0) =~= Seq::<Seq<char>>::empty());
            }
        }
        k = k + 1;
    }
    assert(ws.subrange(0, k as int) =~= ws);
    r
}

/// The task that `t` shows: the choice while it stands, else the first ready
/// task; for `t 1`, `t 2` or `t 3`, the choice while it is ready in that tier,
/// else the tier's first ready task.
pub open spec fn shown(g: Graph, priority: Option<u8>, selected: Option<i64>) -> Option<Task> {
    match priority {
        None => g.selection(selected),
        Some(p) => g.tier_choice(p, selected),
    }
}

/// `r` is the id to act on: the one given, or else the task that `t` shows,
/// or the error that no task is ready.
pub open spec fn resolved(s: Store, id: Option<i64>, r: Result<i64, Error>) -> bool {
    match id {
        Some(x) => r == Ok::<i64, Error>(x),
        None => exists|g: Graph|
            {
                &&& #[trigger] graph_of(g, s)
                &&& match g.selection(s.selected) {
                    Some(t) => r == Ok::<i64, Error>(t.id),
                    None => r matches Err(Error::Domain(m)) && m@ == "no actionable task"@,
                }
            },
    }
}

/// The id to act on: the one given, or else the task that `t` shows.
pub fn resolve_id(database: &Database, id: Option<i64>) -> (r: Result<i64, Error>)
    requires
        database.valid(),
    ensures
        resolved(database@.store, id, r),
{
    if let Some(x) = id {
        return Ok(x);
    }
    let graph = database.graph();
    proof {
        assert(graph_of(graph, database@.store));
    }
    match graph.next_with_selection(database.selected()) {
        Some(t) => Ok(t.id),
        None => Err(Error::Domain(String::from_str("no actionable task"))),
    }
}

/// `text` is what `t`, `t 1`, `t 2` or `t 3` prints for the rows of `s`:
/// the context chain of the task shown, or nothing.
pub open spec fn next_view(s: Store, priority: Option<u8>, text: Seq<char>) -> bool {
    exists|g: Graph|
        {
            &&& #[trigger] graph_of(g, s)
            &&& match shown(g, priority, s.selected) {
                None => text == Seq::<char>::empty(),
                Some(t) => chain_text(g, t, text),
            }
        }
}

/// The text that `t`, `t 1`, `t 2` or `t 3` prints: the context chain of the
/// task shown; nothing when there is none.
pub fn next_text(database: &Database, priority: Option<u8>) -> (r: String)
    requires
        database.valid(),
    ensures
        next_view(database@.store, priority, r@),
{
    let graph = database.graph();
    proof {
        assert(graph_of(graph, database@.store));
    }
    let task = match priority {
        Some(p) => graph.next_at_priority_with_selection(p, database.selected()),
        None => graph.next_with_selection(database.selected()),
    };
    match task {
        Some(t) => crate::render::next(&graph, t),
        None => String::new(),
    }
}

/// The words of a command line as text.
pub open spec fn texts(words: Seq<String>) -> Seq<Seq<char>> {
    words.map_values(|w: String| w@)
}

/// The decimal form of `id` after `prefix`, then a line break.
pub open spec fn id_line(prefix: Seq<char>, id: i64) -> Seq<char> {
    prefix + decimal(id as int) + "\n"@
}

/// `prefix #parent -> #child` and a line break.
pub open spec fn pair_line(prefix: Seq<char>, parent: i64, child: i64) -> Seq<char> {
    prefix + "#"@ + decimal(parent as int) + " -> #"@ + decimal(child as int) + "\n"@
}

/// What running `command` (none for plain `t`) at `now` does to `v`: `w` is
/// the database after it, and `r` the text it prints or the error it
/// reports. `edit` and `completions` run their outside work elsewhere.
pub open spec fn command_outcome(
    v: DatabaseView,
    command: Option<Command>,
    now: i64,
    w: DatabaseView,
    r: Result<Seq<char>, Error>,
) -> bool {
    match command {
        None => w == v && (r matches Ok(x) && next_view(v.store, None, x)),
        Some(Command::One) => w == v && (r matches Ok(x) && next_view(v.store, Some(1u8), x)),
        Some(Command::Two) => w == v && (r matches Ok(x) && next_view(v.store, Some(2u8), x)),
        Some(Command::Three) => w == v && (r matches Ok(x) && next_view(v.store, Some(3u8), x)),
        Some(Command::Add { priority, description }) => match description_check(joined(texts(description@))) {
            Err(m) => w == v && (r matches Err(Error::Domain(e)) && e@ == m),
            Ok(d) => exists|o: Result<Task, Error>|
                {
                    &&& #[trigger] add_outcome(v, priority, d, now, w, o)
                    &&& match o {
                        Ok(t) => r == Ok::<Seq<char>, Error>(id_line("added #"@, t.id)),
                        Err(e) => r == Err::<Seq<char>, Error>(e),
                    }
                },
        },
        Some(Command::Done { id }) => exists|x: Result<i64, Error>|
            {
                &&& #[trigger] resolved(v.store, id, x)
                &&& match x {
                    Err(e) => w == v && r == Err::<Seq<char>, Error>(e),
                    Ok(i) => exists|o: Result<Task, Error>|
                        {
                            &&& #[trigger] complete_outcome(v, i, now, w, o)
                            &&& match o {
                                Ok(t) => r == Ok::<Seq<char>, Error>(id_line("done #"@, t.id)),
                                Err(e) => r == Err::<Seq<char>, Error>(e),
                            }
                        },
                }
            },
        Some(Command::Priority { id, priority }) => exists|o: Result<bool, Error>|
            {
                &&& #[trigger] priority_outcome(v, id, priority, now, w, o)
                &&& match o {
                    Ok(true) => r == Ok::<Seq<char>, Error>(
                        "priority #"@ + decimal(id as int) + " = "@ + decimal(priority as int) + "\n"@,
                    ),
                    Ok(false) => r == Ok::<Seq<char>, Error>(Seq::empty()),
                    Err(e) => r == Err::<Seq<char>, Error>(e),
                }
            },
        Some(Command::Dep { parent, child }) => exists|o: Result<(), Error>|
            {
                &&& #[trigger] link_outcome(v, parent, child, now, w, o)
                &&& match o {
                    Ok(_) => r == Ok::<Seq<char>, Error>(pair_line("dependency "@, parent, child)),
                    Err(e) => r == Err::<Seq<char>, Error>(e),
                }
            },
        Some(Command::Undep { parent, child }) => exists|o: Result<(), Error>|
            {
                &&& #[trigger] unlink_outcome(v, parent, child, now, w, o)
                &&& match o {
                    Ok(_) => r == Ok::<Seq<char>, Error>(pair_line("removed dependency "@, parent, child)),
                    Err(e) => r == Err::<Seq<char>, Error>(e),
                }
            },
        Some(Command::Ls { all, blocked, done }) => w == v && (r matches Ok(x) && exists|g: Graph|
            #[trigger] graph_of(g, v.store) && list_text(g, mode_of(all, blocked, done), x)),
        Some(Command::Tree) => w == v && exists|g: Graph|
            #[trigger] graph_of(g, v.store) && r == Ok::<Seq<char>, Error>(tree_text(g)),
        Some(Command::Show { id }) => w == v && match live(v.store.tasks, id) {
            None => r matches Err(e) && reports(e, not_found(id)),
            Some(t) => r matches Ok(x) && exists|g: Graph| #[trigger] graph_of(g, v.store) && details_text(g, t, x),
        },
        Some(Command::Undo) => exists|o: Result<Seq<char>, Error>|
            {
                &&& #[trigger] undo_outcome(v, w, o)
                &&& match o {
                    Ok(kind) => r == Ok::<Seq<char>, Error>("undid "@ + kind + "\n"@),
                    Err(e) => r == Err::<Seq<char>, Error>(e),
                }
            },
        Some(Command::Find { query }) => w == v && match description_check(joined(texts(query@))) {
            Err(m) => r matches Err(Error::Domain(e)) && e@ == m,
            Ok(q) => exists|g: Graph| #[trigger] graph_of(g, v.store) && r == Ok::<Seq<char>, Error>(find_text(g, q)),
        },
        Some(Command::Rm { id, force }) => exists|o: Result<Task, Error>|
            {
                &&& #[trigger] remove_outcome(v, id, force, now, w, o)
                &&& match o {
                    Ok(_) => r == Ok::<Seq<char>, Error>(id_line("removed #"@, id)),
                    Err(e) => r == Err::<Seq<char>, Error>(e),
                }
            },
        Some(Command::Shuffle) => exists|o: Option<Task>|
            #[trigger] shuffle_outcome(v, now, w, o) && (r matches Ok(x) && next_view(w.store, None, x)),
        Some(Command::Edit { .. }) => w == v,
        Some(Command::Completions { .. }) => w == v,
    }
}

/// Runs a command on the task list at `now` and returns what it prints.
pub fn run_command(database: &mut Database, command: &Option<Command>, now: i64) -> (r: Result<String, Error>)
    requires
        old(database).valid(),
        !(command matches Some(Command::Edit { .. })),
        !(command matches Some(Command::Completions { .. })),
        *command matches Some(Command::Add { priority, description }) && 1 <= priority <= 3
            && description_check(joined(texts(description@))) is Ok ==> old(database)@.store.next_task_id < i64::MAX,
    ensures
        final(database).valid(),
        command_outcome(
            old(database)@,
            *command,
            now,
            final(database)@,
            match r {
                Ok(s) => Ok(s@),
                Err(e) => Err(e),
            },
        ),
{
    let ghost v = database@;
    match command {
        None => Ok(next_text(database, None)),
        Some(Command::One) => Ok(next_text(database, Some(1))),
        Some(Command::Two) => Ok(next_text(database, Some(2))),
        Some(Command::Three) => Ok(next_text(database, Some(3))),
        Some(Command::Add { priority, description }) => {
            let d = match validate_description(join_words(description).as_str()) {
                Ok(d) => d,
                Err(e) => return Err(e),
            };
            let o = database.add(*priority, d.as_str(), now);
            proof {
                assert(add_outcome(v, *priority, d@, now, database@, o));
            }
            match o {
                Ok(t) => {
                    let mut text = String::from_str("added #");
                    push_decimal(&mut text, t.id);
                    text.append("\n");
                    Ok(text)
                },
                Err(e) => Err(e),
            }
        },
        Some(Command::Done { id }) => {
            let x = resolve_id(database, *id);
            proof {
                assert(resolved(v.store, *id, x));
            }
            let i = match x {
                Ok(i) => i,
                Err(e) => return Err(e),
            };
            let o = database.complete(i, now);
            proof {
                assert(complete_outcome(v, i, now, database@, o));
            }
            match o {
                Ok(t) => {
                    let mut text = String::from_str("done #");
                    push_decimal(&mut text, t.id);
                    text.append("\n");
                    Ok(text)
                },
                Err(e) => Err(e),
            }
        },
        Some(Command::Priority { id, priority }) => {
            let o = database.set_priority(*id, *priority, now);
            proof {
                assert(priority_outcome(v, *id, *priority, now, database@, o));
            }
            match o {
                Ok(true) => {
                    let mut text = String::from_str("priority #");
                    push_decimal(&mut text, *id);
                    text.append(" = ");
                    push_decimal(&mut text, *priority as i64);
                    text.append("\n");
                    Ok(text)
                },
                Ok(false) => Ok(String::new()),
                Err(e) => Err(e),
            }
        },
        Some(Command::Dep { parent, child }) => {
            let o = database.add_dependency(*parent, *child, now);
            proof {
                assert(link_outcome(v, *parent, *child, now, database@, o));
            }
            match o {
                Ok(()) => Ok(pair_message("dependency ", *parent, *child)),
                Err(e) => Err(e),
            }
        },
        Some(Command::Undep { parent, child }) => {
            let o = database.remove_dependency(*parent, *child, now);
            proof {
                assert(unlink_outcome(v, *parent, *child, now, database@, o));
            }
            match o {
                Ok(()) => Ok(pair_message("removed dependency ", *parent, *child)),
                Err(e) => Err(e),
            }
        },
        Some(Command::Ls { all, blocked, done }) => {
            let graph = database.graph();
            proof {
                assert(graph_of(graph, v.store));
            }
            Ok(list(&graph, list_mode(*all, *blocked, *done)))
        },
        Some(Command::Tree) => {
            let graph = database.graph();
            proof {
                assert(graph_of(graph, v.store));
            }
            Ok(tree(&graph))
        },
        Some(Command::Show { id }) => {
            let task = match database.task(*id) {
                Ok(t) => t,
                Err(e) => return Err(e),
            };
            let graph = database.graph();
            proof {
                assert(graph_of(graph, v.store));
            }
            Ok(show(&graph, &task))
        },
        Some(Command::Undo) => {
            match database.undo() {
                Ok(kind) => {
                    proof {
                        assert(undo_outcome(v, database@, Ok::<Seq<char>, Error>(kind@)));
                    }
                    let mut text = String::from_str("undid ");
                    text.append(kind.as_str());
                    text.append("\n");
                    Ok(text)
                },
                Err(e) => {
                    proof {
                        assert(undo_outcome(v, database@, Err::<Seq<char>, Error>(e)));
                    }
                    Err(e)
                },
            }
        },
        Some(Command::Find { query }) => {
            let q = match validate_description(join_words(query).as_str()) {
                Ok(q) => q,
                Err(e) => return Err(e),
            };
            let graph = database.graph();
            proof {
                assert(graph_of(graph, v.store));
            }
            Ok(find(&graph, q.as_str()))
        },
        Some(Command::Rm { id, force }) => {
            let o = database.remove(*id, *force, now);
            proof {
                assert(remove_outcome(v, *id, *force, now, database@, o));
            }
            match o {
                Ok(_) => {
                    let mut text = String::from_str("removed #");
                    push_decimal(&mut text, *id);
                    text.append("\n");
                    Ok(text)
                },
                Err(e) => Err(e),
            }
        },
        Some(Command::Shuffle) => {
            let o = database.shuffle(now);
            proof {
                assert(shuffle_outcome(v, now, database@, o));
            }
            Ok(next_text(database, None))
        },
        Some(Command::Edit { .. }) => Ok(String::new()),
        Some(Command::Completions { .. }) => Ok(String::new()),
    }
}

/// `prefix #parent -> #child` and a line break.
fn pair_message(prefix: &str, parent: i64, child: i64) -> (r: String)
    ensures
        r@ == pair_line(prefix@, parent, child),
{
    let mut text = String::from_str(prefix);
    text.append("#");
    push_decimal(&mut text, parent);
    text.append(" -> #");
    push_decimal(&mut text, child);
    text.append("\n");
    text
}

/// The task that `edit` opens in the editor: the one given, or else the
/// task that `t` shows.
pub fn edit_target(database: &Database, id: Option<i64>) -> (r: Result<Task, Error>)
    requires
        database.valid(),
    ensures
        exists|x: Result<i64, Error>|
            {
                &&& #[trigger] resolved(database@.store, id, x)
                &&& match x {
                    Err(e) => r == Err::<Task, Error>(e),
                    Ok(i) => match live(database@.store.tasks, i) {
                        Some(t) => r == Ok::<Task, Error>(t),
                        None => r matches Err(e) && reports(e, not_found(i)),
                    },
                }
            },
{
    let x = resolve_id(database, id);
    proof {
        assert(resolved(database@.store, id, x));
    }
    match x {
        Ok(i) => database.task(i),
        Err(e) => Err(e),
    }
}

/// What `edit` does with the text that came back from the editor: checks it,
/// replaces the description the task had when the editor opened, and returns
/// what to print.
pub fn finish_edit(database: &mut Database, id: i64, expected: &str, edited: &str, now: i64) -> (r: Result<String, Error>)
    requires
        old(database).valid(),
    ensures
        final(database).valid(),
        match description_check(edited@) {
            Err(m) => final(database)@ == old(database)@ && (r matches Err(Error::Domain(e)) && e@ == m),
            Ok(d) => exists|o: Result<bool, Error>|
                {
                    &&& #[trigger] edit_outcome(old(database)@, id, expected@, d, now, final(database)@, o)
                    &&& match o {
                        Ok(true) => r matches Ok(s) && s@ == id_line("edited #"@, id),
                        Ok(false) => r matches Ok(s) && s@ == Seq::<char>::empty(),
                        Err(e) => r == Err::<String, Error>(e),
                    }
                },
        },
{
    let d = match validate_description(edited) {
        Ok(d) => d,
        Err(e) => return Err(e),
    };
    let o = database.edit_description(id, expected, d.as_str(), now);
    proof {
        assert(edit_outcome(old(database)@, id, expected@, d@, now, database@, o));
    }
    match o {
        Ok(true) => {
            let mut text = String::from_str("edited #");
            push_decimal(&mut text, id);
            text.append("\n");
            Ok(text)
        },
        Ok(false) => Ok(String::new()),
        Err(e) => Err(e),
    }
}


/// What `shell_words::split` returns for a command line: its words, split
/// and unquoted as a POSIX shell would, or nothing when a quote is left open.
pub uninterp spec fn shell_split(s: Seq<char>) -> Option<Seq<Seq<char>>>;

/// `shell_words::split`. Its one error, `ParseError`, stands for a quote
/// left open; it is returned here as `None`.
#[verifier::external_body]
fn split_words(s: &str) -> (r: Option<Vec<String>>)
    ensures
        r is None <==> shell_split(s@) is None,
        r matches Some(v) ==> v@.map_values(|w: String| w@) == shell_split(s@).unwrap(),
{
    shell_words::split(s).ok()
}

/// A setting that names an editor: present and not blank.
pub open spec fn usable(v: Option<Seq<char>>) -> bool {
    v matches Some(s) && trim(s).len() > 0
}

/// The editor command line: `VISUAL`, else `EDITOR`, else `vi`.
pub open spec fn chosen_editor(visual: Option<Seq<char>>, editor: Option<Seq<char>>) -> Seq<char> {
    if usable(visual) {
        visual.unwrap()
    } else if usable(editor) {
        editor.unwrap()
    } else {
        "vi"@
    }
}

/// What `editor_from_words` returns for the words of a command line.
pub open spec fn program_and_arguments(words: Option<Seq<Seq<char>>>) -> Result<(Seq<char>, Seq<Seq<char>>), Seq<char>> {
    match words {
        None => Err("missing closing quote"@),
        Some(w) => if w.len() == 0 {
            Err("empty command"@)
        } else {
            Ok((w[0], w.drop_first()))
        },
    }
}

/// The program and its arguments from the words of a command line; `None`
/// stands for a line whose quotes do not close.
pub fn editor_from_words(words: Option<Vec<String>>) -> (r: Result<(String, Vec<String>), Error>)
    ensures
        match program_and_arguments(
            match words {
                Some(w) => Some(w@.map_values(|x: String| x@)),
                None => None,
            },
        ) {
            Ok((p, a)) => r matches Ok((rp, ra)) && rp@ == p && ra@.map_values(|x: String| x@) == a,
            Err(m) => r matches Err(Error::EditorCommand(e)) && e@ == m,
        },
{
    match words {
        None => Err(Error::EditorCommand(String::from_str("missing closing quote"))),
        Some(mut w) => {
            if w.len() == 0 {
                return Err(Error::EditorCommand(String::from_str("empty command")));
            }
            let ghost before = w@;
            let program = w.remove(0);
            proof {
                assert(w@ == before.remove(0));
                assert(w@.map_values(|x: String| x@) =~= before.map_values(|x: String| x@).drop_first());
            }
            Ok((program, w))
        },
    }
}

/// Whether a setting names an editor.
fn is_usable(v: &Option<String>) -> (r: bool)
    ensures
        r == usable(
            match v {
                Some(s) => Some(s@),
                None => None,
            },
        ),
{
    match v {
        Some(s) => {
            let t = trimmed(s.as_str());
            t.as_str().unicode_len() > 0
        },
        None => false,
    }
}

/// The editor to run, from the `VISUAL` and `EDITOR` settings: the program
/// and its arguments.
pub fn editor_command(visual: Option<String>, editor: Option<String>) -> (r: Result<(String, Vec<String>), Error>)
    ensures
        match program_and_arguments(
            shell_split(
                chosen_editor(
                    match visual {
                        Some(s) => Some(s@),
                        None => None,
                    },
                    match editor {
                        Some(s) => Some(s@),
                        None => None,
                    },
                ),
            ),
        ) {
            Ok((p, a)) => r matches Ok((rp, ra)) && rp@ == p && ra@.map_values(|x: String| x@) == a,
            Err(m) => r matches Err(Error::EditorCommand(e)) && e@ == m,
        },
{
    let line = if is_usable(&visual) {
        visual.unwrap()
    } else if is_usable(&editor) {
        editor.unwrap()
    } else {
        String::from_str("vi")
    };
    let words = split_words(line.as_str());
    editor_from_words(words)
}

} // verus!
