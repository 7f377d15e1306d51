use estm::bracket_tree::generate_base_brackets;
use estm::model::{AppState, Bracket, Config, Team};
use estm::navigation::BracketError;
use estm::store::BracketStore;

fn ids(brackets: &[Bracket]) -> Vec<String> {
    brackets.iter().map(|b| b._id.clone()).collect()
}

fn triple(b: &Bracket) -> (i32, i32, i32) {
    (b.team1, b.team2, b.winner)
}

fn team(id: &str, name: &str) -> Team {
    Team {
        _id: id.to_string(),
        name: name.to_string(),
        match_id: "m1".to_string(),
        colour: "#000000".to_string(),
        players: Vec::new(),
    }
}

fn teams(n: usize) -> Vec<Team> {
    (0..n).map(|i| team(&format!("t{}", i), &format!("Team {}", i))).collect()
}

fn playing(set: u32, index: u32) -> Config {
    Config {
        _id: "config".to_string(),
        current_match: "m1".to_string(),
        current_state: AppState::PLAYING,
        current_bracket_set: set,
        current_bracket: index,
        round_winner: 0,
    }
}

#[test]
fn five_teams_make_four_sets() {
    let b = generate_base_brackets(5, "m1".to_string());
    assert_eq!(
        ids(&b),
        vec![
            "0:0:m1", "0:1:m1", "0:2:m1", "0:3:m1", "0:4:m1", "1:0:m1", "1:1:m1", "1:2:m1", "2:0:m1", "2:1:m1",
            "3:0:m1"
        ]
    );
    let t: Vec<(i32, i32, i32)> = b.iter().map(triple).collect();
    assert_eq!(
        t,
        vec![
            (0, -1, 0),
            (1, -1, 1),
            (2, -1, 2),
            (3, -1, 3),
            (4, -1, 4),
            (0, 1, -1),
            (2, 3, -1),
            (4, -1, 4),
            (0, 1, -1),
            (2, -1, 4),
            (0, 1, -1),
        ]
    );
    assert!(b.iter().all(|x| x.match_id == "m1"));
}

#[test]
fn one_team_gets_a_final_of_its_own() {
    let b = generate_base_brackets(1, "solo".to_string());
    assert_eq!(ids(&b), vec!["0:0:solo", "1:0:solo"]);
    assert_eq!(triple(&b[0]), (0, -1, 0));
    assert_eq!(triple(&b[1]), (0, -1, 0));
}

#[test]
fn two_teams_meet_in_the_final() {
    let b = generate_base_brackets(2, "m".to_string());
    assert_eq!(ids(&b), vec!["0:0:m", "0:1:m", "1:0:m"]);
    assert_eq!(triple(&b[2]), (0, 1, -1));
}

#[test]
fn a_byes_winner_is_carried_over_sets() {
    // 9 teams: 9, 5, 3, 2, 1; team 8 passes on alone through three sets.
    let b = generate_base_brackets(9, "m".to_string());
    assert_eq!(b.len(), 9 + 5 + 3 + 2 + 1);
    let bye_1 = b.iter().find(|x| x._id == "1:4:m").unwrap();
    assert_eq!(triple(bye_1), (8, -1, 8));
    let bye_2 = b.iter().find(|x| x._id == "2:2:m").unwrap();
    assert_eq!(triple(bye_2), (4, -1, 8));
    let pair_3 = b.iter().find(|x| x._id == "3:1:m").unwrap();
    assert_eq!(triple(pair_3), (2, -1, 8));
    assert_eq!(triple(b.last().unwrap()), (0, 1, -1));
}

#[test]
fn large_team_counts_end_in_a_single_final() {
    let b = generate_base_brackets(255, "big".to_string());
    assert_eq!(b.last().unwrap()._id, "8:0:big");
    assert_eq!(b.iter().filter(|x| x._id.starts_with("8:")).count(), 1);
    assert_eq!(b.iter().filter(|x| x._id.starts_with("7:")).count(), 2);
}

#[test]
fn lookups_find_generated_brackets_by_position() {
    let store = BracketStore::new(generate_base_brackets(5, "m1".to_string()));
    let m = "m1".to_string();
    let b = store.get_bracket(1, 2, &m).unwrap();
    assert_eq!(b._id, "1:2:m1");
    assert_eq!(triple(&b), (4, -1, 4));
    assert!(store.get_bracket(1, 3, &m).is_none());
    assert!(store.get_bracket(4, 0, &m).is_none());
    assert!(store.get_bracket(0, 0, &"other".to_string()).is_none());
}

#[test]
fn set_winner_updates_and_logs_the_write() {
    let mut store = BracketStore::new(generate_base_brackets(4, "m".to_string()));
    let m = "m".to_string();
    store.set_winner(1, 0, &m, 1);
    assert_eq!(store.get_bracket(1, 0, &m).unwrap().winner, 1);
    assert_eq!(store.writes.len(), 1);
    assert_eq!(store.writes[0].id, "1:0:m");
    assert_eq!(store.writes[0].winner, 1);
    // An undecided winner reaches the database as an unsigned number.
    store.set_winner(1, 1, &m, -1);
    assert_eq!(store.writes[1].winner, 4294967295);
    // A missing bracket changes nothing but is still sent.
    store.set_winner(9, 9, &m, 2);
    assert_eq!(store.writes[2].id, "9:9:m");
    assert_eq!(store.brackets.len(), 7);
}

#[test]
fn reset_all_clears_later_sets_only() {
    let mut brackets = generate_base_brackets(4, "m".to_string());
    brackets.extend(generate_base_brackets(2, "other".to_string()));
    let mut store = BracketStore::new(brackets);
    let m = "m".to_string();
    store.set_winner(1, 0, &m, 0);
    store.set_winner(2, 0, &m, 0);
    store.set_winner(1, 0, &"other".to_string(), 1);
    store.reset_all(&m);
    assert_eq!(store.get_bracket(1, 0, &m).unwrap().winner, -1);
    assert_eq!(store.get_bracket(2, 0, &m).unwrap().winner, -1);
    assert_eq!(store.get_bracket(0, 3, &m).unwrap().winner, 3);
    assert_eq!(store.get_bracket(1, 0, &"other".to_string()).unwrap().winner, 1);
    let reset_ids: Vec<String> = store.writes[3..].iter().map(|w| w.id.clone()).collect();
    assert_eq!(reset_ids, vec!["1:0:m", "1:1:m", "2:0:m"]);
    assert!(store.writes[3..].iter().all(|w| w.winner == -1));
}

#[test]
fn reset_twice_equals_reset_once() {
    let mut store = BracketStore::new(generate_base_brackets(3, "m".to_string()));
    let m = "m".to_string();
    store.set_winner(1, 0, &m, 1);
    store.reset_all(&m);
    let once: Vec<(i32, i32, i32)> = store.brackets.iter().map(triple).collect();
    store.reset_all(&m);
    let twice: Vec<(i32, i32, i32)> = store.brackets.iter().map(triple).collect();
    assert_eq!(once, twice);
}

#[test]
fn next_indexes_move_within_then_across_sets() {
    let store = BracketStore::new(generate_base_brackets(5, "m1".to_string()));
    assert_eq!(store.get_next_bracket_indexes(&playing(0, 4)), Ok((1, 0)));
    assert_eq!(store.get_next_bracket_indexes(&playing(1, 0)), Ok((1, 1)));
    assert_eq!(store.get_next_bracket_indexes(&playing(2, 1)), Ok((3, 0)));
    assert_eq!(store.get_next_bracket_indexes(&playing(3, 0)), Err(BracketError::NoBracketsLeft));
    assert_eq!(store.get_next_bracket_indexes(&playing(0, u32::MAX)), Err(BracketError::IndexOverflow));
    assert_eq!(BracketError::NoBracketsLeft.message(), "No brackets left");
}

#[test]
fn find_next_full_bracket_skips_and_fills_byes() {
    let mut store = BracketStore::new(generate_base_brackets(5, "m1".to_string()));
    // From the start of play, the first pairing is bracket 0 of set 1.
    let (c, b) = store.find_next_full_bracket(playing(0, 4)).unwrap();
    assert_eq!((c.current_bracket_set, c.current_bracket), (1, 0));
    assert_eq!(b._id, "1:0:m1");
    assert!(store.writes.is_empty());
    // From bracket 1 of set 1, bracket 2 passes team 4 on; bracket 0 of set 2 pairs.
    let (c, b) = store.find_next_full_bracket(playing(1, 1)).unwrap();
    assert_eq!((c.current_bracket_set, c.current_bracket), (2, 0));
    assert_eq!(b._id, "2:0:m1");
    assert_eq!(store.writes.len(), 1);
    assert_eq!(store.writes[0].id, "1:2:m1");
    assert_eq!(store.writes[0].winner, 4);
    assert_eq!(c.current_match, "m1");
    assert_eq!(c.current_state, AppState::PLAYING);
}

#[test]
fn find_next_full_bracket_past_the_final_fails() {
    let mut store = BracketStore::new(generate_base_brackets(5, "m1".to_string()));
    let r = store.find_next_full_bracket(playing(3, 0));
    assert_eq!(r.err(), Some(BracketError::NoNextBracket));
    assert_eq!(BracketError::NoNextBracket.message(), "Cannot find next bracket");
    assert!(!BracketError::NoNextBracket.is_fault());
}

#[test]
fn find_next_full_bracket_copies_undecided_feeders() {
    // 5 teams, from (2, 0): bracket (2, 1) passes on bracket (1, 2), whose
    // winner is 4, then the final pairs.
    let mut store = BracketStore::new(generate_base_brackets(5, "m1".to_string()));
    let m = "m1".to_string();
    store.set_winner(1, 2, &m, -1);
    let (c, _) = store.find_next_full_bracket(playing(2, 0)).unwrap();
    assert_eq!((c.current_bracket_set, c.current_bracket), (3, 0));
    assert_eq!(store.get_bracket(2, 1, &m).unwrap().winner, -1);
}

#[test]
fn missing_feeders_are_faults() {
    let mut brackets = generate_base_brackets(5, "m1".to_string());
    brackets.retain(|b| b._id != "0:4:m1");
    let mut store = BracketStore::new(brackets);
    let r = store.find_next_full_bracket(playing(1, 1));
    assert_eq!(r.err(), Some(BracketError::MissingBracket));
    assert!(BracketError::MissingBracket.is_fault());
}

#[test]
fn next_bracket_names_the_feeders_winners() {
    let mut store = BracketStore::new(generate_base_brackets(5, "m1".to_string()));
    let t = teams(5);
    let (a, b) = store.get_next_bracket(playing(0, 4), &t).unwrap();
    assert_eq!(a.unwrap()._id, "t0");
    assert_eq!(b.unwrap()._id, "t1");
    // Bracket (2, 0) pairs two undecided brackets.
    let (a, b) = store.get_next_bracket(playing(1, 2), &t).unwrap();
    assert!(a.is_none());
    assert!(b.is_none());
    // After the final there is no next bracket.
    let (a, b) = store.get_next_bracket(playing(3, 0), &t).unwrap();
    assert!(a.is_none() && b.is_none());
}

#[test]
fn next_bracket_with_unknown_team_is_a_fault() {
    let mut store = BracketStore::new(generate_base_brackets(5, "m1".to_string()));
    let t = teams(1);
    let r = store.get_next_bracket(playing(0, 4), &t);
    assert_eq!(r.err(), Some(BracketError::MissingTeam));
}

#[test]
fn current_bracket_reports_the_winning_side() {
    let mut store = BracketStore::new(generate_base_brackets(4, "m1".to_string()));
    let t = teams(4);
    let m = "m1".to_string();
    let (a, b, w) = store.get_current_bracket(&playing(1, 1), &t).unwrap();
    assert_eq!(a.unwrap()._id, "t2");
    assert_eq!(b.unwrap()._id, "t3");
    assert_eq!(w, 0);
    store.set_winner(1, 1, &m, 3);
    let (_, _, w) = store.get_current_bracket(&playing(1, 1), &t).unwrap();
    assert_eq!(w, 2);
    store.set_winner(1, 1, &m, 2);
    let (_, _, w) = store.get_current_bracket(&playing(1, 1), &t).unwrap();
    assert_eq!(w, 1);
    store.set_winner(1, 1, &m, 0);
    let (_, _, w) = store.get_current_bracket(&playing(1, 1), &t).unwrap();
    assert_eq!(w, 0);
}

#[test]
fn current_bracket_edge_cases() {
    let store = BracketStore::new(generate_base_brackets(4, "m1".to_string()));
    let t = teams(4);
    let (a, b, w) = store.get_current_bracket(&playing(5, 0), &t).unwrap();
    assert!(a.is_none() && b.is_none() && w == 0);
    let r = store.get_current_bracket(&playing(0, 3), &t);
    assert_eq!(r.err(), Some(BracketError::NoTeam2));
    assert_eq!(BracketError::NoTeam2.message(), "Team 2 does not exist");
    // The final's feeders are undecided: the current bracket cannot be read.
    assert_eq!(store.check_current_bracket(&playing(2, 0), &t), Err(BracketError::MissingTeam));
    assert_eq!(store.check_current_bracket(&playing(1, 1), &t), Ok(()));
    assert_eq!(store.check_current_bracket(&playing(0, 3), &t), Ok(()));
    assert_eq!(store.check_current_bracket(&playing(1, 1), &Vec::new()), Err(BracketError::MissingTeam));
}

#[test]
fn walking_from_inside_the_first_set_stops() {
    let mut store = BracketStore::new(generate_base_brackets(5, "m1".to_string()));
    assert_eq!(store.check_walk_start(&playing(0, 1)), Err(BracketError::IndexOverflow));
    assert_eq!(store.check_walk_start(&playing(0, 4)), Ok(()));
    assert_eq!(store.check_walk_start(&playing(1, 0)), Ok(()));
    let t = teams(5);
    let r = store.get_next_bracket(playing(0, 1), &t);
    assert_eq!(r.err(), Some(BracketError::IndexOverflow));
    assert!(store.writes.is_empty());
}
