//! The decisions taken while a game is played: where it is played, which
//! hints go with an item, what a line of input asks for, where `cd` leads,
//! what a command's output is, and whether an item's goal is reached.
//! The caller performs the terminal, file system and process work.

use vstd::prelude::*;
use vstd::string::*;
use crate::config::{Game, GameItem, GoalKind, CommandHint};
use crate::path::{
    AbsPath, joined, walked, is_prefix_of, path_ends_with, is_absolute_str, join, walk, ends_with,
    is_absolute,
};
use crate::text::{
    trimmed, split_on, trim, split_str, lemma_split_on_nonempty, lemma_trim_trailing_space,
};

verus! {

/// The outcome of a command that ran: its output, or its error output.
pub enum ExecuteResult<S, F> {
    Succ(S),
    Fail(F),
}

/// How the working directory is prepared before a game.
pub enum EnvSetup {
    /// Play where the player already is.
    Stay,
    /// Play in this directory.
    Enter(AbsPath),
    /// Copy `from` to `to` (replacing what is there), play in `to`, and
    /// remove `to` afterwards.
    CopyAndEnter { from: AbsPath, to: AbsPath },
}

/// What a line of input asks for.
#[derive(Clone, Copy, Debug, PartialEq, Eq, Structural)]
pub enum InputKind {
    /// Leave the current item.
    Exit,
    /// Show the item's hint.
    Help,
    /// Nothing was typed.
    Blank,
    /// The command is not allowed in this game.
    Refused,
    /// Run the command.
    Run,
}

/// Whether an item goes on after a line of input.
#[derive(Clone, Copy, Debug, PartialEq, Eq, Structural)]
pub enum ItemAction {
    /// The item is over: play moves on to the next item of the game.
    EndItem,
    /// The item goes on: the next line of input is read.
    KeepItem,
}

/// Whether an item goes on after a line of the given kind; `passed` tells,
/// for a line that was run, whether the item's goal was reached.
pub open spec fn item_action(kind: InputKind, passed: bool) -> ItemAction {
    match kind {
        InputKind::Exit => ItemAction::EndItem,
        InputKind::Run => if passed {
            ItemAction::EndItem
        } else {
            ItemAction::KeepItem
        },
        _ => ItemAction::KeepItem,
    }
}

/// Where `cd` leads.
pub enum CdOutcome {
    /// `cd` alone, which would lead home, is refused.
    HomeRefused,
    /// A path from the root directory is refused.
    RootRefused,
    /// The target lies above the game's directory: go back to that directory.
    BackToRoot,
    /// Go to this directory.
    Enter(AbsPath),
}

/// How a command line is carried out.
pub enum CommandPlan {
    /// The line is a `cd`, handled by the game itself.
    Cd(CdOutcome),
    /// The line runs a program: its first word, with the other words as
    /// arguments.
    Spawn,
}

/// The temporary-copy suffix added to a game directory that is restored.
pub open spec fn temp_suffix() -> Seq<char> {
    "__TEMP"@
}

/// `hints[j]` is the first hint named `name`.
pub open spec fn is_first_hint(hints: Seq<CommandHint>, name: Seq<char>, j: int) -> bool {
    &&& 0 <= j < hints.len()
    &&& hints[j].name@ == name
    &&& forall|k: int| 0 <= k < j ==> hints[k].name@ != name
}

/// The position of the first hint named `name`, if there is one.
pub open spec fn first_hint(hints: Seq<CommandHint>, name: Seq<char>) -> Option<usize> {
    if exists|j: usize| is_first_hint(hints, name, j as int) {
        Some(choose|j: usize| is_first_hint(hints, name, j as int))
    } else {
        None
    }
}

/// For each command of `commands`, in order, the position of the first hint
/// with its name; commands without a hint are passed over.
pub open spec fn hint_positions(hints: Seq<CommandHint>, commands: Seq<Seq<char>>) -> Seq<usize>
    decreases commands.len(),
{
    if commands.len() == 0 {
        Seq::empty()
    } else {
        let prev = hint_positions(hints, commands.drop_last());
        match first_hint(hints, commands.last()) {
            Some(j) => prev.push(j),
            None => prev,
        }
    }
}

/// What the first word of a line asks for in a game that allows `allowed`.
pub open spec fn input_kind(allowed: Seq<Seq<char>>, first: Seq<char>) -> InputKind {
    if first == "exit"@ {
        InputKind::Exit
    } else if first == "help"@ {
        InputKind::Help
    } else if first == Seq::<char>::empty() {
        InputKind::Blank
    } else if !allowed.contains(first) && allowed.len() != 0 {
        InputKind::Refused
    } else {
        InputKind::Run
    }
}

/// Where the words of a `cd` line lead from `cwd`.
pub open spec fn cd_target(words: Seq<Seq<char>>, cwd: Seq<Seq<char>>) -> Seq<Seq<char>> {
    walked(cwd, split_on(words[1], '/'))
}

/// The words joined back into a line: each word followed by a space.
pub open spec fn spaced(words: Seq<Seq<char>>) -> Seq<char>
    decreases words.len(),
{
    if words.len() == 0 {
        Seq::empty()
    } else {
        spaced(words.drop_last()) + words.last() + seq![' ']
    }
}

/// The line of input a goal is judged on: the words joined by spaces.
pub open spec fn judged_line(words: Seq<Seq<char>>) -> Seq<char> {
    trimmed(spaced(words))
}

/// Whether the item's goal is reached by the command `words`, whose output
/// was `output`, leaving the player in `cwd`.
pub open spec fn goal_reached(
    item: GameItem,
    words: Seq<Seq<char>>,
    output: Seq<char>,
    cwd: Seq<Seq<char>>,
) -> bool {
    let expected = item.goal.expectation.0.deep_view();
    match item.goal.kind {
        GoalKind::CommandExecuted => expected.contains(judged_line(words)),
        GoalKind::StdOut => expected[0] == output,
        GoalKind::DirEntered => path_ends_with(cwd, expected[0]),
    }
}

/// Joining the pieces of `t` cut at spaces gives `t` followed by a space.
proof fn lemma_spaced_split(t: Seq<char>)
    ensures
        spaced(split_on(t, ' ')) == t + seq![' '],
    decreases t.len(),
{
    if t.len() == 0 {
        let e = Seq::<char>::empty();
        assert(split_on(t, ' ') =~= seq![e]);
        assert(seq![e].drop_last() =~= Seq::<Seq<char>>::empty());
        assert(spaced(Seq::<Seq<char>>::empty()) == Seq::<char>::empty());
        assert(seq![e].last() == e);
        assert(spaced(seq![e]) == spaced(seq![e].drop_last()) + e + seq![' ']);
        assert(t =~= e);
        assert(spaced(seq![e]) =~= t + seq![' ']);
    } else {
        let d = t.drop_last();
        let c = t.last();
        lemma_spaced_split(d);
        lemma_split_on_nonempty(d, ' ');
        let prev = split_on(d, ' ');
        let cur = split_on(t, ' ');
        if c == ' ' {
            assert(cur == prev.push(Seq::<char>::empty()));
            assert(cur.drop_last() =~= prev);
            assert(spaced(cur) =~= t + seq![' ']);
        } else {
            let lastp = prev.last().push(c);
            assert(cur == prev.update(prev.len() - 1, lastp));
            assert(cur.drop_last() =~= prev.drop_last());
            assert(spaced(prev) == spaced(prev.drop_last()) + prev.last() + seq![' ']);
            assert(spaced(prev.drop_last()) + prev.last() =~= d) by {
                assert(spaced(prev) =~= d + seq![' ']);
                let x = spaced(prev.drop_last()) + prev.last();
                assert(x + seq![' '] =~= d + seq![' ']);
                assert(x =~= (x + seq![' ']).drop_last());
                assert(d =~= (d + seq![' ']).drop_last());
            }
            assert(cur.last() == lastp);
            assert(spaced(cur) == spaced(cur.drop_last()) + cur.last() + seq![' ']);
            assert(spaced(prev.drop_last()) + lastp =~= d.push(c));
            assert(t =~= d.push(c));
            assert(spaced(cur) =~= t + seq![' ']);
        }
    }
}

/// The line a goal is judged on is the line the player typed, without its
/// surrounding whitespace: splitting the line into words and joining them
/// back loses nothing.
pub proof fn lemma_judged_line_is_input(line: Seq<char>)
    ensures
        judged_line(split_on(trimmed(line), ' ')) == trimmed(line),
{
    lemma_spaced_split(trimmed(line));
    lemma_trim_trailing_space(line);
}

/// Whether `list` holds `s`.
pub fn contains_text(list: &Vec<String>, s: &String) -> (b: bool)
    ensures
        b == list.deep_view().contains(s@),
{
    let n = list.len();
    let mut i: usize = 0;
    while i < n
        invariant
            n == list.len(),
            i <= n,
            forall|k: int| 0 <= k < i ==> list.deep_view()[k] != s@,
        decreases n - i,
    {
        if list[i].eq(s) {
            proof {
                assert(list.deep_view()[i as int] == s@);
            }
            return true;
        }
        i = i + 1;
    }
    proof {
        if list.deep_view().contains(s@) {
            let k = choose|k: int| 0 <= k < list.deep_view().len() && list.deep_view()[k] == s@;
            assert(list.deep_view()[k] != s@);
        }
    }
    false
}

/// Whether `s` is the literal `lit`.
fn is_text(s: &String, lit: &str) -> (b: bool)
    ensures
        b == (s@ == lit@),
{
    s.eq(&String::from_str(lit))
}

/// Splits a line of input into words: the line without surrounding
/// whitespace, cut at every space.
pub fn split_input(line: &str) -> (words: Vec<String>)
    ensures
        words.deep_view() == split_on(trimmed(line@), ' '),
        words.len() >= 1,
{
    let t = trim(line);
    split_str(t.as_str(), ' ')
}

/// Joins words into a line, each word followed by a space.
pub fn join_spaced(words: &Vec<String>) -> (line: String)
    ensures
        line@ == spaced(words.deep_view()),
{
    let mut line = String::new();
    let n = words.len();
    let mut i: usize = 0;
    proof {
        reveal_strlit(" ");
        assert(words.deep_view().take(0) =~= Seq::<Seq<char>>::empty());
    }
    while i < n
        invariant
            n == words.len(),
            i <= n,
            line@ == spaced(words.deep_view().take(i as int)),
            " "@ == seq![' '],
        decreases n - i,
    {
        line.append(words[i].as_str());
        line.append(" ");
        proof {
            let t = words.deep_view().take(i as int + 1);
            assert(t.drop_last() =~= words.deep_view().take(i as int));
            assert(t.last() == words[i as int]@);
        }
        i = i + 1;
    }
    proof {
        assert(words.deep_view().take(n as int) =~= words.deep_view());
    }
    line
}

/// Whether an item goes on after a line of the given kind: `exit` ends the
/// item, a command that was run ends it when the goal is reached, and every
/// other line keeps it going.
pub fn item_step(kind: InputKind, passed: bool) -> (a: ItemAction)
    ensures
        a == item_action(kind, passed),
{
    match kind {
        InputKind::Exit => ItemAction::EndItem,
        InputKind::Run => if passed {
            ItemAction::EndItem
        } else {
            ItemAction::KeepItem
        },
        _ => ItemAction::KeepItem,
    }
}

impl Game {
    /// How to prepare the working directory `cwd` before this game.
    pub fn setup_environment(&self, cwd: &AbsPath) -> (setup: EnvSetup)
        ensures
            match self.environment {
                None => setup is Stay,
                Some(env) => if env.restore {
                    setup matches EnvSetup::CopyAndEnter { from, to } && from@ == joined(
                        cwd@,
                        env.dir@,
                    ) && to@ == joined(cwd@, env.dir@ + temp_suffix())
                } else {
                    setup matches EnvSetup::Enter(dir) && dir@ == joined(cwd@, env.dir@)
                },
            },
    {
        match &self.environment {
            None => EnvSetup::Stay,
            Some(env) => {
                let from = join(cwd, env.dir.as_str());
                if env.restore {
                    let temp = env.dir.clone().concat("__TEMP");
                    let to = join(cwd, temp.as_str());
                    EnvSetup::CopyAndEnter { from, to }
                } else {
                    EnvSetup::Enter(from)
                }
            },
        }
    }

    /// The position in `hints` of the first hint named `name`, if any.
    pub fn find_hint(hints: &Vec<CommandHint>, name: &String) -> (j: Option<usize>)
        ensures
            j == first_hint(hints@, name@),
    {
        let n = hints.len();
        let mut i: usize = 0;
        while i < n
            invariant
                n == hints.len(),
                i <= n,
                forall|k: int| 0 <= k < i ==> hints@[k].name@ != name@,
            decreases n - i,
        {
            if hints[i].name.eq(name) {
                proof {
                    assert(is_first_hint(hints@, name@, i as int));
                    let c = choose|j: usize| is_first_hint(hints@, name@, j as int);
                    assert(c == i) by {
                        if c < i {
                            assert(hints@[c as int].name@ != name@);
                        }
                        if c > i {
                            assert(hints@[i as int].name@ != name@);
                        }
                    }
                }
                return Some(i);
            }
            i = i + 1;
        }
        proof {
            assert forall|j: usize| !is_first_hint(hints@, name@, j as int) by {
                if 0 <= j < n {
                    assert(hints@[j as int].name@ != name@);
                }
            }
        }
        None
    }

    /// The positions in `hints` of the hints shown for `item`: for each of
    /// its hint commands, in order, the first hint of that name.
    pub fn item_hints(item: &GameItem, hints: &Vec<CommandHint>) -> (found: Vec<usize>)
        ensures
            found@ == hint_positions(hints@, item.hint_command.deep_view()),
    {
        let commands = &item.hint_command;
        let n = commands.len();
        let mut found: Vec<usize> = Vec::new();
        let mut i: usize = 0;
        proof {
            assert(commands.deep_view().take(0) =~= Seq::<Seq<char>>::empty());
        }
        while i < n
            invariant
                n == commands.len(),
                i <= n,
                found@ == hint_positions(hints@, commands.deep_view().take(i as int)),
            decreases n - i,
        {
            proof {
                let t = commands.deep_view().take(i as int + 1);
                assert(t.drop_last() =~= commands.deep_view().take(i as int));
                assert(t.last() == commands[i as int]@);
            }
            match Self::find_hint(hints, &commands[i]) {
                Some(j) => {
                    found.push(j);
                },
                None => {},
            }
            i = i + 1;
        }
        proof {
            assert(commands.deep_view().take(n as int) =~= commands.deep_view());
        }
        found
    }

    /// What a line of input, split into `words`, asks for in this game.
    pub fn classify_input(&self, words: &Vec<String>) -> (kind: InputKind)
        requires
            words.len() >= 1,
        ensures
            kind == input_kind(self.available_command.deep_view(), words[0]@),
    {
        let first = &words[0];
        if is_text(first, "exit") {
            InputKind::Exit
        } else if is_text(first, "help") {
            InputKind::Help
        } else if first.as_str().unicode_len() == 0 {
            proof {
                assert(first@ =~= Seq::<char>::empty());
            }
            InputKind::Blank
        } else if !contains_text(&self.available_command, first)
            && self.available_command.len() != 0 {
            InputKind::Refused
        } else {
            InputKind::Run
        }
    }

    /// How the command line `words` is carried out from `cwd` in a game
    /// played in `root`: a `cd` is resolved here, anything else is spawned.
    pub fn plan_command(&self, words: &Vec<String>, cwd: &AbsPath, root: &AbsPath) -> (plan:
        CommandPlan)
        requires
            words.len() >= 1,
        ensures
            words[0]@ != "cd"@ ==> plan is Spawn,
            words[0]@ == "cd"@ ==> match plan {
                CommandPlan::Cd(CdOutcome::HomeRefused) => words.len() == 1,
                CommandPlan::Cd(CdOutcome::RootRefused) => words.len() > 1 && is_absolute_str(
                    words[1]@,
                ),
                CommandPlan::Cd(CdOutcome::BackToRoot) => words.len() > 1 && !is_absolute_str(
                    words[1]@,
                ) && is_prefix_of(cd_target(words.deep_view(), cwd@), root@) && cd_target(
                    words.deep_view(),
                    cwd@,
                ) != root@,
                CommandPlan::Cd(CdOutcome::Enter(dir)) => words.len() > 1 && !is_absolute_str(
                    words[1]@,
                ) && dir@ == cd_target(words.deep_view(), cwd@) && !(is_prefix_of(dir@, root@)
                    && dir@ != root@),
                CommandPlan::Spawn => false,
            },
    {
        if !is_text(&words[0], "cd") {
            return CommandPlan::Spawn;
        }
        if words.len() == 1 {
            return CommandPlan::Cd(CdOutcome::HomeRefused);
        }
        if is_absolute(words[1].as_str()) {
            return CommandPlan::Cd(CdOutcome::RootRefused);
        }
        let pieces = split_str(words[1].as_str(), '/');
        let target = walk(cwd, &pieces);
        proof {
            assert(words.deep_view()[1] == words[1]@);
        }
        if target.is_prefix(root) && !target.same_as(root) {
            CommandPlan::Cd(CdOutcome::BackToRoot)
        } else {
            CommandPlan::Cd(CdOutcome::Enter(target))
        }
    }

    /// The result of a spawned command, from its output, its error output
    /// and whether it succeeded: `echo` loses the newline that ends its
    /// output.
    pub fn finish_command(words: &Vec<String>, stdout: Vec<u8>, stderr: Vec<u8>, success: bool) -> (r:
        ExecuteResult<Vec<u8>, Vec<u8>>)
        requires
            words.len() >= 1,
        ensures
            !success ==> (r matches ExecuteResult::Fail(e) && e@ == stderr@),
            success ==> (r matches ExecuteResult::Succ(o) && o@ == (if words[0]@ == "echo"@
                && stdout@.len() > 0 && stdout@.last() == 10 {
                stdout@.drop_last()
            } else {
                stdout@
            })),
    {
        let mut out = stdout;
        if is_text(&words[0], "echo") && out.len() > 0 && out[out.len() - 1] == 10 {
            out.pop();
        }
        if !success {
            ExecuteResult::Fail(stderr)
        } else {
            ExecuteResult::Succ(out)
        }
    }

    /// Whether `item`'s goal is reached by the command `words`, whose output
    /// was `output`, leaving the player in `cwd`.
    pub fn judge_output(item: &GameItem, words: &Vec<String>, output: &String, cwd: &AbsPath) -> (b:
        bool)
        requires
            item.goal.kind != GoalKind::CommandExecuted ==> item.goal.expectation.0.len() >= 1,
        ensures
            b == goal_reached(*item, words.deep_view(), output@, cwd@),
    {
        let expected = &item.goal.expectation.0;
        match item.goal.kind {
            GoalKind::CommandExecuted => {
                let line = trim(join_spaced(words).as_str());
                contains_text(expected, &line)
            },
            GoalKind::StdOut => {
                proof {
                    assert(expected.deep_view()[0] == expected[0]@);
                }
                expected[0].eq(output)
            },
            GoalKind::DirEntered => {
                proof {
                    assert(expected.deep_view()[0] == expected[0]@);
                }
                ends_with(cwd, expected[0].as_str())
            },
        }
    }
}

/// A command-executed goal is reached exactly when the typed line (the
/// words joined by single spaces, trimmed) equals one of the expected lines,
/// wherever it stands in the list; a stdout goal exactly when the output is
/// the first expected text; a directory goal exactly when the directory
/// ends with the first expected path.
pub proof fn lemma_goal_reached_meaning(
    item: GameItem,
    words: Seq<Seq<char>>,
    output: Seq<char>,
    cwd: Seq<Seq<char>>,
)
    ensures
        item.goal.kind == GoalKind::CommandExecuted ==> (goal_reached(item, words, output, cwd)
            <==> exists|k: int|
            0 <= k < item.goal.expectation.0.len() && #[trigger] item.goal.expectation.0[k]@
                == trimmed(spaced(words))),
        item.goal.kind == GoalKind::StdOut && item.goal.expectation.0.len() > 0 ==> (
        goal_reached(item, words, output, cwd) <==> item.goal.expectation.0[0]@ == output),
        item.goal.kind == GoalKind::DirEntered && item.goal.expectation.0.len() > 0 ==> (
        goal_reached(item, words, output, cwd) <==> path_ends_with(
            cwd,
            item.goal.expectation.0[0]@,
        )),
{
    let expected = item.goal.expectation.0.deep_view();
    assert forall|k: int| 0 <= k < item.goal.expectation.0.len() implies expected[k]
        == item.goal.expectation.0[k]@ by {}
    if item.goal.kind == GoalKind::CommandExecuted {
        if goal_reached(item, words, output, cwd) {
            let k = choose|k: int| 0 <= k < expected.len() && expected[k] == judged_line(words);
            assert(item.goal.expectation.0[k]@ == trimmed(spaced(words)));
        }
        if exists|k: int|
            0 <= k < item.goal.expectation.0.len() && #[trigger] item.goal.expectation.0[k]@
                == trimmed(spaced(words)) {
            let k = choose|k: int|
                0 <= k < item.goal.expectation.0.len() && #[trigger] item.goal.expectation.0[k]@
                    == trimmed(spaced(words));
            assert(expected[k] == judged_line(words));
        }
    }
}

/// Every line of a command-executed goal's list passes, wherever it
/// stands: words that join back into the `k`-th expected line reach the goal.
pub proof fn lemma_every_expected_line_passes(
    item: GameItem,
    words: Seq<Seq<char>>,
    output: Seq<char>,
    cwd: Seq<Seq<char>>,
    k: int,
)
    requires
        item.goal.kind == GoalKind::CommandExecuted,
        0 <= k < item.goal.expectation.0.len(),
        trimmed(spaced(words)) == item.goal.expectation.0[k]@,
    ensures
        goal_reached(item, words, output, cwd),
{
    lemma_goal_reached_meaning(item, words, output, cwd);
}

/// A first word other than `exit`, `help` and the empty word is refused
/// exactly when the game restricts its commands and none of them is that
/// word; any word found anywhere in the allowed list is run.
pub proof fn lemma_input_kind_meaning(allowed: Seq<Seq<char>>, first: Seq<char>)
    ensures
        first == "exit"@ ==> input_kind(allowed, first) == InputKind::Exit,
        first != "exit"@ && first == "help"@ ==> input_kind(allowed, first) == InputKind::Help,
        first != "exit"@ && first != "help"@ && first.len() == 0 ==> input_kind(allowed, first)
            == InputKind::Blank,
        first != "exit"@ && first != "help"@ && first.len() > 0 ==> (input_kind(allowed, first)
            == InputKind::Refused <==> allowed.len() > 0 && forall|k: int|
            0 <= k < allowed.len() ==> #[trigger] allowed[k] != first),
        first != "exit"@ && first != "help"@ && first.len() > 0 ==> (input_kind(allowed, first)
            == InputKind::Run <==> allowed.len() == 0 || exists|k: int|
            0 <= k < allowed.len() && #[trigger] allowed[k] == first),
{
    if first.len() == 0 {
        assert(first =~= Seq::<char>::empty());
    } else {
        assert(first != Seq::<char>::empty());
    }
}

/// A hint is found for a name exactly when some hint of the list, at any
/// position, has that name, and what is found is the first such position.
/// (The list is as long as a `Vec` can be.)
pub proof fn lemma_first_hint_meaning(hints: Seq<CommandHint>, name: Seq<char>)
    requires
        hints.len() <= usize::MAX,
    ensures
        first_hint(hints, name) is Some <==> exists|k: int|
            0 <= k < hints.len() && #[trigger] hints[k].name@ == name,
        first_hint(hints, name) matches Some(j) ==> j < hints.len() && hints[j as int].name@
            == name && forall|k: int| 0 <= k < j ==> #[trigger] hints[k].name@ != name,
{
    if exists|k: int| 0 <= k < hints.len() && #[trigger] hints[k].name@ == name {
        let k0 = choose|k: int| 0 <= k < hints.len() && #[trigger] hints[k].name@ == name;
        lemma_least_hint(hints, name, k0);
    }
}

/// Below a position holding the name there is a first position holding it.
proof fn lemma_least_hint(hints: Seq<CommandHint>, name: Seq<char>, k: int)
    requires
        0 <= k < hints.len(),
        hints.len() <= usize::MAX,
        hints[k].name@ == name,
    ensures
        exists|j: usize| is_first_hint(hints, name, j as int),
    decreases k,
{
    if forall|i: int| 0 <= i < k ==> #[trigger] hints[i].name@ != name {
        assert(is_first_hint(hints, name, (k as usize) as int));
    } else {
        let i2 = choose|i: int| !(0 <= i < k ==> #[trigger] hints[i].name@ != name);
        lemma_least_hint(hints, name, i2);
    }
}

} // verus!
