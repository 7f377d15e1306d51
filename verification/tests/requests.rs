use estm::bracket_tree::generate_base_brackets;
use estm::flow::{
    advance_round, cancel_match, current_report, player_update, record_winner, require_editing, round_report,
    start_match, PlayerUpdate, Refusal,
};
use estm::model::{AppState, Config, Team};
use estm::navigation::BracketError;
use estm::store::BracketStore;

fn team(i: usize) -> Team {
    Team {
        _id: format!("t{}", i),
        name: format!("Team {}", i),
        match_id: "m1".to_string(),
        colour: "#000000".to_string(),
        players: Vec::new(),
    }
}

fn teams(n: usize) -> Vec<Team> {
    (0..n).map(team).collect()
}

fn config(state: AppState, set: u32, index: u32) -> Config {
    Config {
        _id: "config".to_string(),
        current_match: "m1".to_string(),
        current_state: state,
        current_bracket_set: set,
        current_bracket: index,
        round_winner: 7,
    }
}

#[test]
fn start_moves_to_the_last_first_set_bracket() {
    let mut c = config(AppState::EDITING, 4, 4);
    assert_eq!(start_match(&mut c, 5), Ok(()));
    assert_eq!(c.current_state, AppState::PLAYING);
    assert_eq!((c.current_bracket_set, c.current_bracket), (0, 4));
    assert_eq!(c.round_winner, 7);
    assert_eq!(c.current_match, "m1");
}

#[test]
fn start_is_refused_while_playing_or_without_a_match() {
    let mut c = config(AppState::PLAYING, 1, 1);
    assert_eq!(start_match(&mut c, 5), Err(Refusal::NotInEditingMode));
    assert_eq!(
        Refusal::NotInEditingMode.message(),
        "Not in editing mode, Please exit any current games and then try again"
    );
    let mut c = config(AppState::EDITING, 1, 1);
    c.current_match = String::new();
    assert_eq!(start_match(&mut c, 5), Err(Refusal::NoMatchSelected));
    assert_eq!(
        Refusal::NoMatchSelected.message(),
        "No match selected, Please selected a match and then try again."
    );
    assert_eq!(c.current_state, AppState::EDITING);
    let mut c = config(AppState::EDITING, 1, 1);
    assert_eq!(start_match(&mut c, 0), Err(Refusal::NoTeams));
    assert!(Refusal::NoTeams.is_fault());
}

#[test]
fn cancel_returns_to_editing_and_clears_winners() {
    let mut store = BracketStore::new(generate_base_brackets(4, "m1".to_string()));
    let m = "m1".to_string();
    store.set_winner(1, 0, &m, 1);
    let mut c = config(AppState::PLAYING, 1, 1);
    assert_eq!(cancel_match(&mut c, &mut store), Ok(()));
    assert_eq!(c.current_state, AppState::EDITING);
    assert_eq!((c.current_bracket_set, c.current_bracket), (1, 1));
    assert_eq!(store.get_bracket(1, 0, &m).unwrap().winner, -1);
    assert_eq!(store.get_bracket(0, 1, &m).unwrap().winner, 1);
    assert_eq!(store.writes.len(), 1 + 3);
}

#[test]
fn cancel_is_refused_while_editing() {
    let mut store = BracketStore::new(generate_base_brackets(2, "m1".to_string()));
    let mut c = config(AppState::EDITING, 0, 0);
    assert_eq!(cancel_match(&mut c, &mut store), Err(Refusal::NotInPlayModeStartFirst));
    assert_eq!(Refusal::NotInPlayModeStartFirst.message(), "Not in play mode, Please start a match first");
    assert!(store.writes.is_empty());
}

#[test]
fn editing_is_required_to_change_matches() {
    assert_eq!(require_editing(&config(AppState::EDITING, 0, 0)), Ok(()));
    assert_eq!(require_editing(&config(AppState::PLAYING, 0, 0)), Err(Refusal::NotInEditingMode));
}

#[test]
fn recording_a_winner_copies_the_sides_team() {
    let mut store = BracketStore::new(generate_base_brackets(4, "m1".to_string()));
    let m = "m1".to_string();
    let c = config(AppState::PLAYING, 1, 1);
    assert_eq!(record_winner(&c, &mut store, &"team2".to_string()), Ok(()));
    assert_eq!(store.get_bracket(1, 1, &m).unwrap().winner, 3);
    assert_eq!(record_winner(&c, &mut store, &"team1".to_string()), Ok(()));
    assert_eq!(store.get_bracket(1, 1, &m).unwrap().winner, 2);
    assert_eq!(store.writes.len(), 2);
    assert_eq!(store.writes[1].id, "1:1:m1");
}

#[test]
fn recording_a_winner_is_refused_for_bad_requests() {
    let mut store = BracketStore::new(generate_base_brackets(4, "m1".to_string()));
    let c = config(AppState::PLAYING, 1, 1);
    assert_eq!(record_winner(&c, &mut store, &"team3".to_string()), Err(Refusal::InvalidTeam));
    assert_eq!(Refusal::InvalidTeam.message(), "Invalid team value");
    let c = config(AppState::EDITING, 1, 1);
    assert_eq!(record_winner(&c, &mut store, &"team1".to_string()), Err(Refusal::NotInPlayingMode));
    assert_eq!(Refusal::NotInPlayingMode.message(), "Not in playing mode, Please start a match first");
    let c = config(AppState::PLAYING, 7, 0);
    assert_eq!(
        record_winner(&c, &mut store, &"team1".to_string()),
        Err(Refusal::Bracket(BracketError::MissingBracket))
    );
    assert!(store.writes.is_empty());
}

#[test]
fn advancing_needs_a_winner_first() {
    let mut store = BracketStore::new(generate_base_brackets(4, "m1".to_string()));
    let mut c = config(AppState::PLAYING, 1, 0);
    assert_eq!(advance_round(&mut c, &mut store), Err(Refusal::WinnerNeeded));
    assert_eq!(Refusal::WinnerNeeded.message(), "You need to select a winner of the current match first");
    assert_eq!((c.current_bracket_set, c.current_bracket), (1, 0));
}

#[test]
fn a_declared_winner_lets_the_round_move_on() {
    let mut store = BracketStore::new(generate_base_brackets(4, "m1".to_string()));
    let mut c = config(AppState::PLAYING, 1, 0);
    assert_eq!(record_winner(&c, &mut store, &"team1".to_string()), Ok(()));
    assert_eq!(advance_round(&mut c, &mut store), Ok(()));
    assert_eq!((c.current_bracket_set, c.current_bracket), (1, 1));
    assert_eq!(c.current_state, AppState::PLAYING);
}

#[test]
fn advancing_past_the_final_cannot_go_on() {
    let mut store = BracketStore::new(generate_base_brackets(2, "m1".to_string()));
    let mut c = config(AppState::PLAYING, 1, 0);
    assert_eq!(record_winner(&c, &mut store, &"team2".to_string()), Ok(()));
    assert_eq!(advance_round(&mut c, &mut store), Err(Refusal::NoRoundLeft));
    assert!(Refusal::NoRoundLeft.is_fault());
    let mut c = config(AppState::EDITING, 1, 0);
    assert_eq!(advance_round(&mut c, &mut store), Err(Refusal::NotInPlayModeStartFirst));
}

#[test]
fn current_report_shows_next_and_current() {
    let mut store = BracketStore::new(generate_base_brackets(4, "m1".to_string()));
    let t = teams(4);
    let c = config(AppState::PLAYING, 0, 3);
    let ((n1, n2), (c1, c2, w)) = current_report(&c, &mut store, &t).unwrap();
    assert_eq!(n1.unwrap()._id, "t0");
    assert_eq!(n2.unwrap()._id, "t1");
    // The current bracket of the first set has no second team: shown empty.
    assert!(c1.is_none() && c2.is_none() && w == 0);
    let c = config(AppState::EDITING, 0, 3);
    assert_eq!(current_report(&c, &mut store, &t).err(), Some(Refusal::NotInPlayMode));
    assert_eq!(Refusal::NotInPlayMode.message(), "Not in play mode");
}

#[test]
fn round_report_reports_next_before_current() {
    let mut store = BracketStore::new(generate_base_brackets(4, "m1".to_string()));
    let t = teams(4);
    let m = "m1".to_string();
    store.set_winner(1, 0, &m, 0);
    let c = config(AppState::PLAYING, 1, 1);
    let ((n1, n2), (c1, c2, w)) = round_report(&c, &mut store, &t).unwrap();
    assert_eq!(n1.unwrap()._id, "t0");
    assert!(n2.is_none());
    assert_eq!(c1.unwrap()._id, "t2");
    assert_eq!(c2.unwrap()._id, "t3");
    assert_eq!(w, 0);
}

#[test]
fn round_report_at_the_final_has_no_next_teams() {
    let mut store = BracketStore::new(generate_base_brackets(2, "m1".to_string()));
    let t = teams(2);
    let m = "m1".to_string();
    store.set_winner(1, 0, &m, 1);
    let c = config(AppState::PLAYING, 1, 0);
    let ((n1, n2), (c1, c2, w)) = round_report(&c, &mut store, &t).unwrap();
    assert!(n1.is_none() && n2.is_none());
    assert_eq!(c1.unwrap()._id, "t0");
    assert_eq!(c2.unwrap()._id, "t1");
    assert_eq!(w, 2);
}

#[test]
fn an_empty_player_name_removes_the_player() {
    assert_eq!(player_update(&String::new()), PlayerUpdate::Remove);
    assert_eq!(player_update(&"Ann".to_string()), PlayerUpdate::Rename);
}

#[test]
fn bracket_refusals_carry_the_lookup_message() {
    assert_eq!(Refusal::Bracket(BracketError::NoTeam2).message(), "Team 2 does not exist");
    assert!(!Refusal::Bracket(BracketError::NoTeam2).is_fault());
    assert!(Refusal::Bracket(BracketError::IndexOverflow).is_fault());
}
