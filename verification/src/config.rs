//! The game's configuration: playgrounds, games, game items and their goals.

use vstd::prelude::*;
use vstd::string::*;

verus! {

/// A short usage note shown for a command.
#[derive(Clone, Debug)]
pub struct CommandHint {
    pub name: String,
    pub hint: String,
}

/// What a game item asks of the player.
#[derive(Clone, Copy, Debug, PartialEq, Eq, Structural)]
pub enum GoalKind {
    /// Type one of the expected command lines.
    CommandExecuted,
    /// End up in a directory whose path ends with the expected path.
    DirEntered,
    /// Run a command whose output is the expected text.
    StdOut,
}

/// The texts a goal accepts.
#[derive(Clone, Debug)]
pub struct Expectation(pub Vec<String>);

/// A goal: its kind and what it accepts.
#[derive(Clone, Debug)]
pub struct Goal {
    pub kind: GoalKind,
    pub expectation: Expectation,
}

/// One task of a game.
#[derive(Clone, Debug)]
pub struct GameItem {
    pub description: String,
    pub hint: String,
    pub hint_command: Vec<String>,
    pub goal: Goal,
}

/// The directory a game is played in, and whether it is played in a copy
/// that is removed afterwards.
#[derive(Clone, Debug)]
pub struct Environment {
    pub dir: String,
    pub restore: bool,
}

/// A game: a sequence of items, the commands allowed while playing it (all
/// commands when the list is empty) and its directory.
#[derive(Clone, Debug)]
pub struct Game {
    pub id: usize,
    pub description: String,
    pub available_command: Vec<String>,
    pub environment: Option<Environment>,
    pub game_item: Vec<GameItem>,
}

/// A whole configuration: the games, the order to play them in, and the
/// command hints.
#[derive(Clone, Debug)]
pub struct Playground {
    pub game_order: Vec<usize>,
    pub game_description: String,
    pub game: Vec<Game>,
    pub command_hints: Vec<CommandHint>,
}

/// The goal kind a configuration names by `name`, if any.
pub open spec fn goal_kind_named(name: Seq<char>) -> Option<GoalKind> {
    if name == "command_executed"@ {
        Some(GoalKind::CommandExecuted)
    } else if name == "dir_entered"@ {
        Some(GoalKind::DirEntered)
    } else if name == "stdout"@ {
        Some(GoalKind::StdOut)
    } else {
        None
    }
}

impl GoalKind {
    /// Reads a goal kind from its name in a configuration.
    pub fn from_name(name: &str) -> (kind: Option<GoalKind>)
        ensures
            kind == goal_kind_named(name@),
    {
        let given = String::from_str(name);
        if given.eq(&String::from_str("command_executed")) {
            Some(GoalKind::CommandExecuted)
        } else if given.eq(&String::from_str("dir_entered")) {
            Some(GoalKind::DirEntered)
        } else if given.eq(&String::from_str("stdout")) {
            Some(GoalKind::StdOut)
        } else {
            None
        }
    }
}

/// The entry of an expectation that stands for today's date.
pub open spec fn date_placeholder() -> Seq<char> {
    "$YYYY-MM-DD$"@
}

pub open spec fn is_ascii_digit(c: char) -> bool {
    '0' <= c && c <= '9'
}

/// The number written by the two decimal digits `a` and `b`.
pub open spec fn two_digits(a: char, b: char) -> int {
    (a as int - '0' as int) * 10 + (b as int - '0' as int)
}

/// The shape of a `%Y-%m-%d` date: a year of at least four characters, then
/// a dash, a month from 01 to 12, a dash and a day from 01 to 31.
pub open spec fn is_date_text(s: Seq<char>) -> bool {
    let n = s.len();
    &&& n >= 10
    &&& s[n - 6] == '-'
    &&& is_ascii_digit(s[n - 5])
    &&& is_ascii_digit(s[n - 4])
    &&& s[n - 3] == '-'
    &&& is_ascii_digit(s[n - 2])
    &&& is_ascii_digit(s[n - 1])
    &&& 1 <= two_digits(s[n - 5], s[n - 4]) <= 12
    &&& 1 <= two_digits(s[n - 2], s[n - 1]) <= 31
}

/// Why today's date could not be had.
#[derive(Clone, Copy, Debug, PartialEq, Eq, Structural)]
pub enum DateError {
    /// The system clock reads a time before 1970-01-01 UTC.
    ClockBeforeEpoch,
    /// The clock reading lies outside the dates chrono can represent.
    DateOutOfRange,
}

/// The seconds and nanoseconds since 1970-01-01 00:00:00 UTC by the system
/// clock. Calls `SystemTime::elapsed` on `UNIX_EPOCH`, which fails when the
/// clock reads an earlier time; the seconds and the nanoseconds below one
/// second are read from the `Duration` it gives. The contract claims only
/// what `Duration::subsec_nanos` promises, since the reading depends on the
/// clock.
#[verifier::external_body]
fn clock_since_epoch() -> (r: Option<(u64, u32)>)
    ensures
        r matches Some(t) ==> t.1 < 1_000_000_000,
{
    match std::time::UNIX_EPOCH.elapsed() {
        Ok(d) => Some((d.as_secs(), d.subsec_nanos())),
        Err(_) => None,
    }
}

/// The `%Y-%m-%d` text of the UTC date at `secs` seconds and `nanos`
/// nanoseconds after 1970-01-01 00:00:00 UTC, as chrono computes it, when
/// chrono can represent that time.
pub uninterp spec fn utc_date_of(secs: i64, nanos: u32) -> Option<Seq<char>>;

/// Calls `chrono::DateTime::from_timestamp` and formats the result with
/// `%Y-%m-%d`. The contract claims: the result is the named date
/// `utc_date_of`; a date text has the shape chrono writes (the year in at
/// least four characters, the month and the day in two digits each, within
/// their ranges); and there is a date for every time from 1970 on with the
/// nanoseconds below one second, up to (well within) chrono's largest year,
/// 262142.
#[verifier::external_body]
fn utc_date(secs: i64, nanos: u32) -> (r: Option<String>)
    ensures
        r is Some <==> utc_date_of(secs, nanos) is Some,
        r matches Some(t) ==> utc_date_of(secs, nanos) == Some(t@) && is_date_text(t@),
        0 <= secs < 8_000_000_000_000 && nanos < 1_000_000_000 ==> r is Some,
{
    match chrono::DateTime::from_timestamp(secs, nanos) {
        Some(t) => Some(t.format("%Y-%m-%d").to_string()),
        None => None,
    }
}

/// The date text of a clock reading of `secs` seconds and `nanos`
/// nanoseconds after 1970-01-01 00:00:00 UTC, when there is one.
pub fn date_at(secs: u64, nanos: u32) -> (r: Option<String>)
    ensures
        match r {
            Some(t) => secs <= i64::MAX && utc_date_of(secs as i64, nanos) == Some(t@)
                && is_date_text(t@),
            None => secs > i64::MAX || utc_date_of(secs as i64, nanos) is None,
        },
        secs < 8_000_000_000_000 && nanos < 1_000_000_000 ==> r is Some,
{
    if secs > 9_223_372_036_854_775_807u64 {
        None
    } else {
        utc_date(secs as i64, nanos)
    }
}

/// The entries `raw` with every entry that is exactly the date placeholder
/// replaced by `today`; other entries (a placeholder inside a longer entry
/// too) are kept.
pub open spec fn filled(raw: Seq<Seq<char>>, today: Seq<char>) -> Seq<Seq<char>> {
    Seq::new(
        raw.len(),
        |i: int|
            if raw[i] == date_placeholder() {
                today
            } else {
                raw[i]
            },
    )
}

/// A text of the date's shape, for when no date is read.
pub open spec fn some_date_text() -> Seq<char> {
    seq!['2', '0', '0', '0', '-', '0', '1', '-', '0', '1']
}

/// The expectation built from the entries `raw` and a clock reading:
/// without a placeholder, the entries as they are; with one, an error when
/// there is no reading (the clock is before 1970) or no date for it, and
/// otherwise the entries with the reading's UTC date at every placeholder.
pub open spec fn entries_at(raw: Seq<Seq<char>>, reading: Option<(u64, u32)>) -> Result<
    Seq<Seq<char>>,
    DateError,
> {
    if !raw.contains(date_placeholder()) {
        Ok(raw)
    } else {
        match reading {
            None => Err(DateError::ClockBeforeEpoch),
            Some((secs, nanos)) => if secs <= i64::MAX && utc_date_of(secs as i64, nanos) is Some {
                Ok(filled(raw, utc_date_of(secs as i64, nanos)->0))
            } else {
                Err(DateError::DateOutOfRange)
            },
        }
    }
}

/// The entries of an expectation built, or the error.
pub open spec fn expectation_result(r: Result<Expectation, DateError>) -> Result<
    Seq<Seq<char>>,
    DateError,
> {
    match r {
        Ok(e) => Ok(e.0.deep_view()),
        Err(x) => Err(x),
    }
}

/// Whether some entry is exactly the date placeholder.
pub fn has_placeholder(raw: &Vec<String>) -> (b: bool)
    ensures
        b == raw.deep_view().contains(date_placeholder()),
{
    let placeholder = String::from_str("$YYYY-MM-DD$");
    let n = raw.len();
    let mut i: usize = 0;
    while i < n
        invariant
            n == raw.len(),
            i <= n,
            placeholder@ == date_placeholder(),
            forall|k: int| 0 <= k < i ==> raw.deep_view()[k] != date_placeholder(),
        decreases n - i,
    {
        proof {
            assert(raw.deep_view()[i as int] == raw[i as int]@);
        }
        if raw[i].eq(&placeholder) {
            return true;
        }
        i = i + 1;
    }
    false
}

impl Expectation {
    /// Builds an expectation from the entries of a configuration, putting
    /// `today` at each entry that is exactly the date placeholder.
    pub fn with_date(raw: Vec<String>, today: &String) -> (e: Expectation)
        ensures
            e.0.deep_view() == filled(raw.deep_view(), today@),
    {
        let placeholder = String::from_str("$YYYY-MM-DD$");
        let mut out: Vec<String> = Vec::new();
        let n = raw.len();
        let mut i: usize = 0;
        while i < n
            invariant
                n == raw.len(),
                i <= n,
                out.len() == i,
                placeholder@ == date_placeholder(),
                forall|k: int|
                    0 <= k < i ==> #[trigger] out[k]@ == filled(raw.deep_view(), today@)[k],
            decreases n - i,
        {
            if raw[i].eq(&placeholder) {
                out.push(today.clone());
            } else {
                out.push(raw[i].clone());
            }
            proof {
                assert(raw.deep_view()[i as int] == raw[i as int]@);
            }
            i = i + 1;
        }
        proof {
            assert(out.deep_view() =~= filled(raw.deep_view(), today@));
        }
        Expectation(out)
    }

    /// Builds an expectation from the entries of a configuration and a
    /// clock reading (seconds and nanoseconds since 1970-01-01 00:00:00 UTC,
    /// or `None` when the clock reads an earlier time): see `entries_at`.
    pub fn from_entries_at(raw: Vec<String>, reading: Option<(u64, u32)>) -> (r: Result<
        Expectation,
        DateError,
    >)
        ensures
            expectation_result(r) == entries_at(raw.deep_view(), reading),
            r matches Ok(e) ==> exists|today: Seq<char>|
                is_date_text(today) && e.0.deep_view() == filled(raw.deep_view(), today),
    {
        let ghost raw_view = raw.deep_view();
        if !has_placeholder(&raw) {
            proof {
                let d = some_date_text();
                assert(is_date_text(d));
                assert(raw_view =~= filled(raw_view, d));
            }
            return Ok(Expectation(raw));
        }
        match reading {
            None => Err(DateError::ClockBeforeEpoch),
            Some((secs, nanos)) => match date_at(secs, nanos) {
                None => Err(DateError::DateOutOfRange),
                Some(today) => {
                    let e = Self::with_date(raw, &today);
                    proof {
                        assert(is_date_text(today@) && e.0.deep_view() == filled(raw_view, today@));
                    }
                    Ok(e)
                },
            },
        }
    }

    /// Builds an expectation from the entries of a configuration: when some
    /// entry is exactly the date placeholder, the clock is read once and
    /// today's date in UTC is put at each such entry (see `entries_at`);
    /// other entries are kept. Without a placeholder the clock is not read
    /// and the entries are kept as they are.
    pub fn from_entries(raw: Vec<String>) -> (r: Result<Expectation, DateError>)
        ensures
            !raw.deep_view().contains(date_placeholder()) ==> (r matches Ok(e)
                && e.0.deep_view() == raw.deep_view()),
            exists|reading: Option<(u64, u32)>|
                (reading matches Some(t) ==> t.1 < 1_000_000_000) && expectation_result(r)
                    == entries_at(raw.deep_view(), reading),
            r matches Ok(e) ==> exists|today: Seq<char>|
                is_date_text(today) && e.0.deep_view() == filled(raw.deep_view(), today),
    {
        let ghost raw_view = raw.deep_view();
        if has_placeholder(&raw) {
            let reading = clock_since_epoch();
            let r = Self::from_entries_at(raw, reading);
            proof {
                assert((reading matches Some(t) ==> t.1 < 1_000_000_000) && expectation_result(r)
                    == entries_at(raw_view, reading));
            }
            r
        } else {
            let r = Self::from_entries_at(raw, None);
            proof {
                let none: Option<(u64, u32)> = None;
                assert((none matches Some(t) ==> t.1 < 1_000_000_000) && expectation_result(r)
                    == entries_at(raw_view, none));
            }
            r
        }
    }
}

} // verus!
