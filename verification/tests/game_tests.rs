use rustyshell::config::{
    date_at, has_placeholder, CommandHint, DateError, Environment, Expectation, Game, GameItem, Goal, GoalKind,
};
use rustyshell::game::{
    item_step, join_spaced, split_input, CdOutcome, CommandPlan, EnvSetup, ExecuteResult, InputKind,
    ItemAction,
};
use rustyshell::path::AbsPath;

fn abs(parts: &[&str]) -> AbsPath {
    AbsPath { parts: parts.iter().map(|s| s.to_string()).collect() }
}

fn strings(v: &[&str]) -> Vec<String> {
    v.iter().map(|s| s.to_string()).collect()
}

fn item(kind: GoalKind, expected: &[&str], hint_command: &[&str]) -> GameItem {
    GameItem {
        description: "do it".to_string(),
        hint: "try harder".to_string(),
        hint_command: strings(hint_command),
        goal: Goal { kind, expectation: Expectation(strings(expected)) },
    }
}

fn game(available: &[&str], environment: Option<Environment>) -> Game {
    Game {
        id: 1,
        description: "a game".to_string(),
        available_command: strings(available),
        environment,
        game_item: vec![item(GoalKind::CommandExecuted, &["ls", "ls -a"], &["ls"])],
    }
}

#[test]
fn goal_kind_names() {
    assert_eq!(GoalKind::from_name("command_executed"), Some(GoalKind::CommandExecuted));
    assert_eq!(GoalKind::from_name("dir_entered"), Some(GoalKind::DirEntered));
    assert_eq!(GoalKind::from_name("stdout"), Some(GoalKind::StdOut));
    assert_eq!(GoalKind::from_name("StdOut"), None);
    assert_eq!(GoalKind::from_name(""), None);
}

#[test]
fn expectation_keeps_plain_entries() {
    let e = Expectation::from_entries(strings(&["ls", "ls -a"])).unwrap();
    assert_eq!(e.0, vec!["ls", "ls -a"]);
}

#[test]
fn expectation_replaces_date_placeholder() {
    let e = Expectation::from_entries(strings(&["a", "$YYYY-MM-DD$", "$YYYY-MM-DD$x"])).unwrap();
    assert_eq!(e.0.len(), 3);
    assert_eq!(e.0[0], "a");
    assert_eq!(e.0[2], "$YYYY-MM-DD$x");
    let d: Vec<char> = e.0[1].chars().collect();
    let n = d.len();
    assert!(n >= 10);
    assert_eq!(d[n - 6], '-');
    assert_eq!(d[n - 3], '-');
    assert!(d[n - 5].is_ascii_digit() && d[n - 4].is_ascii_digit());
    assert!(d[n - 2].is_ascii_digit() && d[n - 1].is_ascii_digit());
    assert_ne!(e.0[1], "$YYYY-MM-DD$");
}

#[test]
fn input_is_trimmed_and_split_on_spaces() {
    assert_eq!(split_input("  ls -a \n"), vec!["ls", "-a"]);
    assert_eq!(split_input(""), vec![""]);
    assert_eq!(split_input("\n"), vec![""]);
    assert_eq!(split_input("cd  x"), vec!["cd", "", "x"]);
}

#[test]
fn joining_words_adds_a_space_after_each() {
    assert_eq!(join_spaced(&strings(&["ls", "-a"])), "ls -a ");
    assert_eq!(join_spaced(&Vec::new()), "");
}

#[test]
fn classify_input_kinds() {
    let g = game(&["ls", "cd"], None);
    assert_eq!(g.classify_input(&strings(&["exit"])), InputKind::Exit);
    assert_eq!(g.classify_input(&strings(&["help"])), InputKind::Help);
    assert_eq!(g.classify_input(&strings(&[""])), InputKind::Blank);
    assert_eq!(g.classify_input(&strings(&["rm", "-rf"])), InputKind::Refused);
    assert_eq!(g.classify_input(&strings(&["ls", "-a"])), InputKind::Run);
}

#[test]
fn free_mode_runs_any_command() {
    let g = game(&[], None);
    assert_eq!(g.classify_input(&strings(&["rm"])), InputKind::Run);
    assert_eq!(g.classify_input(&strings(&["exit"])), InputKind::Exit);
}

#[test]
fn cd_alone_and_from_root_are_refused() {
    let g = game(&[], None);
    let root = abs(&["r", "g"]);
    assert!(matches!(g.plan_command(&strings(&["cd"]), &root, &root), CommandPlan::Cd(CdOutcome::HomeRefused)));
    assert!(matches!(g.plan_command(&strings(&["cd", "/etc"]), &root, &root), CommandPlan::Cd(CdOutcome::RootRefused)));
}

#[test]
fn cd_above_the_game_directory_goes_back() {
    let g = game(&[], None);
    let root = abs(&["r", "g"]);
    let cwd = abs(&["r", "g", "sub"]);
    assert!(matches!(g.plan_command(&strings(&["cd", "../.."]), &cwd, &root), CommandPlan::Cd(CdOutcome::BackToRoot)));
    assert!(matches!(g.plan_command(&strings(&["cd", ".."]), &root, &root), CommandPlan::Cd(CdOutcome::BackToRoot)));
}

#[test]
fn cd_within_or_beside_the_game_directory() {
    let g = game(&[], None);
    let root = abs(&["r", "g"]);
    let cwd = abs(&["r", "g", "sub"]);
    match g.plan_command(&strings(&["cd", ".."]), &cwd, &root) {
        CommandPlan::Cd(CdOutcome::Enter(p)) => assert_eq!(p.parts, vec!["r", "g"]),
        _ => panic!("expected to enter the game directory"),
    }
    match g.plan_command(&strings(&["cd", "../../other"]), &cwd, &root) {
        CommandPlan::Cd(CdOutcome::Enter(p)) => assert_eq!(p.parts, vec!["r", "other"]),
        _ => panic!("expected to enter a sibling directory"),
    }
    match g.plan_command(&strings(&["cd", "a/./b/"]), &cwd, &root) {
        CommandPlan::Cd(CdOutcome::Enter(p)) => assert_eq!(p.parts, vec!["r", "g", "sub", "a", "b"]),
        _ => panic!("expected to go down"),
    }
    match g.plan_command(&strings(&["cd", "", "x"]), &cwd, &root) {
        CommandPlan::Cd(CdOutcome::Enter(p)) => assert_eq!(p.parts, cwd.parts),
        _ => panic!("expected to stay"),
    }
}

#[test]
fn other_commands_are_spawned() {
    let g = game(&[], None);
    let root = abs(&["r"]);
    assert!(matches!(g.plan_command(&strings(&["ls", "-a"]), &root, &root), CommandPlan::Spawn));
    assert!(matches!(g.plan_command(&strings(&["cdx"]), &root, &root), CommandPlan::Spawn));
}

#[test]
fn echo_loses_its_final_newline() {
    let out = Game::finish_command(&strings(&["echo", "hi"]), b"hi\n".to_vec(), Vec::new(), true);
    match out {
        ExecuteResult::Succ(o) => assert_eq!(o, b"hi".to_vec()),
        ExecuteResult::Fail(_) => panic!("expected success"),
    }
    let out = Game::finish_command(&strings(&["printf", "hi\n"]), b"hi\n".to_vec(), Vec::new(), true);
    match out {
        ExecuteResult::Succ(o) => assert_eq!(o, b"hi\n".to_vec()),
        ExecuteResult::Fail(_) => panic!("expected success"),
    }
    let out = Game::finish_command(&strings(&["echo"]), Vec::new(), Vec::new(), true);
    match out {
        ExecuteResult::Succ(o) => assert!(o.is_empty()),
        ExecuteResult::Fail(_) => panic!("expected success"),
    }
}

#[test]
fn failed_command_gives_its_error_output() {
    let out = Game::finish_command(&strings(&["ls", "nope"]), b"x".to_vec(), b"no such file\n".to_vec(), false);
    match out {
        ExecuteResult::Fail(e) => assert_eq!(e, b"no such file\n".to_vec()),
        ExecuteResult::Succ(_) => panic!("expected failure"),
    }
}

#[test]
fn judge_command_executed_uses_the_typed_line() {
    let it = item(GoalKind::CommandExecuted, &["ls", "ls -a"], &[]);
    let cwd = abs(&["r"]);
    let words = split_input("   ls -a  ");
    assert!(Game::judge_output(&it, &words, &String::new(), &cwd));
    assert!(!Game::judge_output(&it, &split_input("ls  -a"), &String::new(), &cwd));
    assert!(!Game::judge_output(&it, &split_input("ls -l"), &String::new(), &cwd));
}

#[test]
fn judge_stdout_compares_with_first_expectation() {
    let it = item(GoalKind::StdOut, &["hi", "other"], &[]);
    let cwd = abs(&["r"]);
    let words = strings(&["echo", "hi"]);
    assert!(Game::judge_output(&it, &words, &"hi".to_string(), &cwd));
    assert!(!Game::judge_output(&it, &words, &"other".to_string(), &cwd));
}

#[test]
fn judge_dir_entered_checks_the_end_of_the_working_directory() {
    let it = item(GoalKind::DirEntered, &["set1/inner"], &[]);
    let words = strings(&["cd", "inner"]);
    assert!(Game::judge_output(&it, &words, &String::new(), &abs(&["r", "set1", "inner"])));
    assert!(!Game::judge_output(&it, &words, &String::new(), &abs(&["r", "set1"])));
}

#[test]
fn environment_setup() {
    let cwd = abs(&["home", "u", "tests_set"]);
    assert!(matches!(game(&[], None).setup_environment(&cwd), EnvSetup::Stay));
    let g = game(&[], Some(Environment { dir: "set1".to_string(), restore: false }));
    match g.setup_environment(&cwd) {
        EnvSetup::Enter(p) => assert_eq!(p.parts, vec!["home", "u", "tests_set", "set1"]),
        _ => panic!("expected to enter"),
    }
    let g = game(&[], Some(Environment { dir: "set1".to_string(), restore: true }));
    match g.setup_environment(&cwd) {
        EnvSetup::CopyAndEnter { from, to } => {
            assert_eq!(from.parts, vec!["home", "u", "tests_set", "set1"]);
            assert_eq!(to.parts, vec!["home", "u", "tests_set", "set1__TEMP"]);
        }
        _ => panic!("expected a copy"),
    }
}

#[test]
fn hints_for_an_item() {
    let hints = vec![
        CommandHint { name: "ls".to_string(), hint: "list".to_string() },
        CommandHint { name: "cd".to_string(), hint: "change".to_string() },
        CommandHint { name: "ls".to_string(), hint: "second".to_string() },
    ];
    let it = item(GoalKind::CommandExecuted, &["x"], &["cd", "pwd", "ls"]);
    assert_eq!(Game::item_hints(&it, &hints), vec![1, 0]);
    let it = item(GoalKind::CommandExecuted, &["x"], &[]);
    assert!(Game::item_hints(&it, &hints).is_empty());
}

#[test]
fn with_date_puts_the_given_date_at_each_placeholder() {
    let today = "2024-03-05".to_string();
    let e = Expectation::with_date(strings(&["$YYYY-MM-DD$", "date +%F", "x $YYYY-MM-DD$"]), &today);
    assert_eq!(e.0, vec!["2024-03-05", "date +%F", "x $YYYY-MM-DD$"]);
    let e = Expectation::with_date(strings(&["$YYYY-MM-DD$", "$YYYY-MM-DD$"]), &today);
    assert_eq!(e.0, vec!["2024-03-05", "2024-03-05"]);
    let e = Expectation::with_date(Vec::new(), &today);
    assert!(e.0.is_empty());
}

#[test]
fn from_entries_puts_one_date_at_every_placeholder() {
    let e = Expectation::from_entries(strings(&["$YYYY-MM-DD$", "ls", "$YYYY-MM-DD$"])).unwrap();
    assert_eq!(e.0[0], e.0[2]);
    assert_eq!(e.0[1], "ls");
    let today = chrono::Utc::now().format("%Y-%m-%d").to_string();
    let yesterday = (chrono::Utc::now() - chrono::Duration::days(1)).format("%Y-%m-%d").to_string();
    assert!(e.0[0] == today || e.0[0] == yesterday);
}

#[test]
fn item_goes_on_until_exit_or_a_pass() {
    assert_eq!(item_step(InputKind::Exit, false), ItemAction::EndItem);
    assert_eq!(item_step(InputKind::Run, true), ItemAction::EndItem);
    assert_eq!(item_step(InputKind::Run, false), ItemAction::KeepItem);
    assert_eq!(item_step(InputKind::Help, false), ItemAction::KeepItem);
    assert_eq!(item_step(InputKind::Blank, false), ItemAction::KeepItem);
    assert_eq!(item_step(InputKind::Refused, false), ItemAction::KeepItem);
}

#[test]
fn date_at_gives_the_utc_date_of_a_reading() {
    assert_eq!(date_at(1709596800, 0).unwrap(), "2024-03-05");
    assert_eq!(date_at(1709596800 + 86399, 999_999_999).unwrap(), "2024-03-05");
    assert_eq!(date_at(0, 0).unwrap(), "1970-01-01");
    assert_eq!(date_at(253402300799, 0).unwrap(), "9999-12-31");
    assert_eq!(date_at(253402300800, 0).unwrap(), "+10000-01-01");
    assert!(date_at(u64::MAX, 0).is_none());
    assert!(date_at(1u64 << 62, 0).is_none());
}

#[test]
fn from_entries_at_follows_the_reading() {
    let raw = strings(&["$YYYY-MM-DD$", "date +%F", "x $YYYY-MM-DD$"]);
    let e = Expectation::from_entries_at(raw.clone(), Some((1709596800, 0))).unwrap();
    assert_eq!(e.0, vec!["2024-03-05", "date +%F", "x $YYYY-MM-DD$"]);
    assert_eq!(Expectation::from_entries_at(raw.clone(), None).unwrap_err(), DateError::ClockBeforeEpoch);
    assert_eq!(
        Expectation::from_entries_at(raw.clone(), Some((u64::MAX, 0))).unwrap_err(),
        DateError::DateOutOfRange
    );
    assert_eq!(
        Expectation::from_entries_at(raw, Some((1u64 << 62, 0))).unwrap_err(),
        DateError::DateOutOfRange
    );
}

#[test]
fn from_entries_at_without_placeholder_keeps_the_entries() {
    let raw = strings(&["ls", "x $YYYY-MM-DD$"]);
    let e = Expectation::from_entries_at(raw.clone(), None).unwrap();
    assert_eq!(e.0, raw);
    let e = Expectation::from_entries_at(raw.clone(), Some((u64::MAX, 0))).unwrap();
    assert_eq!(e.0, raw);
}

#[test]
fn placeholder_only_as_a_whole_entry() {
    assert!(has_placeholder(&strings(&["a", "$YYYY-MM-DD$"])));
    assert!(!has_placeholder(&strings(&["a", " $YYYY-MM-DD$"])));
    assert!(!has_placeholder(&Vec::new()));
}
