use rustyshell::config::{CommandHint, Expectation, Game, GameItem, Goal, GoalKind, Playground};
use rustyshell::player::{is_playable, largest_id, GamePlayer, PlayError};

fn game(id: usize, description: &str) -> Game {
    Game {
        id,
        description: description.to_string(),
        available_command: vec!["ls".to_string()],
        environment: None,
        game_item: vec![GameItem {
            description: "list".to_string(),
            hint: "use ls".to_string(),
            hint_command: vec!["ls".to_string()],
            goal: Goal {
                kind: GoalKind::CommandExecuted,
                expectation: Expectation(vec!["ls".to_string(), "ls -a".to_string()]),
            },
        }],
    }
}

fn playground(order: Vec<usize>, games: Vec<Game>) -> Playground {
    Playground {
        game_order: order,
        game_description: "Having fun with these games!".to_string(),
        game: games,
        command_hints: vec![CommandHint { name: "ls".to_string(), hint: "ls -a".to_string() }],
    }
}

#[test]
fn plays_games_in_order_then_reaches_the_end() {
    let mut p = GamePlayer::build_from_config(playground(vec![1, 0], vec![game(0, "zero"), game(1, "one")]));
    assert_eq!(p.play_next(), Ok(1));
    assert_eq!(p.game(1).unwrap().description, "one");
    assert_eq!(p.play_next(), Ok(0));
    assert_eq!(p.game(0).unwrap().description, "zero");
    assert_eq!(p.play_next(), Err(PlayError::ReachedEnd));
    assert_eq!(p.play_next(), Err(PlayError::ReachedEnd));
}

#[test]
fn a_missing_game_stops_the_player_where_it_is() {
    let mut p = GamePlayer::build_from_config(playground(vec![0, 2], vec![game(0, "zero")]));
    assert_eq!(p.play_next(), Ok(0));
    assert_eq!(p.play_next(), Err(PlayError::MissingGame(2)));
    assert_eq!(p.play_next(), Err(PlayError::MissingGame(2)));
}

#[test]
fn slots_follow_the_largest_id_of_the_order() {
    let p = GamePlayer::build_from_config(playground(vec![1], vec![game(1, "one")]));
    assert!(p.game(0).is_none());
    assert_eq!(p.game(1).unwrap().id, 1);
    assert!(p.game(2).is_none());
    assert_eq!(p.command_hints()[0].name, "ls");
}

#[test]
fn first_game_of_the_single_entry_order() {
    let mut p = GamePlayer::build_from_config(playground(vec![1], vec![game(1, "one")]));
    assert_eq!(p.play_next(), Ok(1));
}

#[test]
fn a_later_game_with_the_same_id_wins() {
    let p = GamePlayer::build_from_config(playground(vec![0], vec![game(0, "first"), game(0, "second")]));
    assert_eq!(p.game(0).unwrap().description, "second");
}

#[test]
fn empty_order_has_one_slot() {
    let p = GamePlayer::build_from_config(playground(vec![], vec![]));
    assert!(p.game(0).is_none());
    assert!(p.game(1).is_none());
}

#[test]
fn largest_id_of_an_order() {
    assert_eq!(largest_id(&vec![]), 0);
    assert_eq!(largest_id(&vec![3, 7, 2]), 7);
    assert_eq!(largest_id(&vec![0, 0]), 0);
}

#[test]
fn playable_configurations() {
    assert!(is_playable(&playground(vec![1], vec![game(1, "one")])));
    assert!(!is_playable(&playground(vec![0], vec![game(1, "one")])));
    assert!(!is_playable(&playground(vec![usize::MAX], vec![])));
}

#[test]
fn cursor_stays_within_the_order_over_many_calls() {
    let mut p = GamePlayer::build_from_config(playground(vec![0, 1], vec![game(0, "zero"), game(1, "one")]));
    let mut played = Vec::new();
    while p.can_play_next() {
        match p.play_next() {
            Ok(id) => played.push(id),
            Err(e) => {
                assert_eq!(e, PlayError::ReachedEnd);
                break;
            }
        }
    }
    assert_eq!(played, vec![0, 1]);
}
