use estm::bracket_tree::generate_base_brackets;
use estm::flow::{advance_round, record_winner, start_match, Refusal};
use estm::model::{AppState, Config};
use estm::store::BracketStore;

fn set_of(id: &str) -> usize {
    id.split(':').next().unwrap().parse().unwrap()
}

fn sets(n: u8) -> Vec<Vec<(i32, i32, i32)>> {
    let b = generate_base_brackets(n, "m".to_string());
    let last = set_of(&b.last().unwrap()._id);
    let mut out = vec![Vec::new(); last + 1];
    for x in b.iter() {
        out[set_of(&x._id)].push((x.team1, x.team2, x.winner));
    }
    out
}

#[test]
fn each_set_halves_the_one_before_and_ends_with_one_final() {
    for n in 1..=64u8 {
        let s = sets(n);
        assert_eq!(s[0].len(), n as usize);
        for k in 1..s.len() {
            assert_eq!(s[k].len(), (s[k - 1].len() + 1) / 2);
        }
        assert_eq!(s.last().unwrap().len(), 1);
        for k in 1..s.len() - 1 {
            assert!(s[k].len() >= 2);
        }
    }
}

#[test]
fn every_bracket_feeds_exactly_one_of_the_next_set() {
    for n in 1..=64u8 {
        let s = sets(n);
        for k in 1..s.len() {
            for i in 0..s[k - 1].len() as i32 {
                let feeders = s[k].iter().filter(|(t1, t2, _)| *t1 == i || *t2 == i).count();
                assert_eq!(feeders, 1);
            }
        }
    }
}

#[test]
fn generated_winners_are_teams_or_undecided() {
    for n in 1..=64u8 {
        for set in sets(n) {
            for (_, _, w) in set {
                assert!(w == -1 || (0 <= w && w < n as i32));
            }
        }
    }
}

#[test]
fn every_generated_position_reads_back() {
    for n in 1..=40u8 {
        let generated = generate_base_brackets(n, "m".to_string());
        let store = BracketStore::new(generate_base_brackets(n, "m".to_string()));
        let m = "m".to_string();
        for b in generated.iter() {
            let mut parts = b._id.split(':');
            let set: u32 = parts.next().unwrap().parse().unwrap();
            let index: u32 = parts.next().unwrap().parse().unwrap();
            let found = store.get_bracket(set, index, &m).unwrap();
            assert_eq!(found._id, b._id);
            assert_eq!((found.team1, found.team2, found.winner), (b.team1, b.team2, b.winner));
        }
        let last = set_of(&generated.last().unwrap()._id) as u32;
        assert!(store.get_bracket(last + 1, 0, &m).is_none());
        assert!(store.get_bracket(0, n as u32, &m).is_none());
    }
}

#[test]
fn a_whole_match_can_be_played_to_the_final() {
    for n in 2..=20u8 {
        let mut store = BracketStore::new(generate_base_brackets(n, "m".to_string()));
        let mut c = Config {
            _id: "config".to_string(),
            current_match: "m".to_string(),
            current_state: AppState::EDITING,
            current_bracket_set: 0,
            current_bracket: 0,
            round_winner: 0,
        };
        start_match(&mut c, n).unwrap();
        // Move to the first real bracket, then always let the first side win.
        let (moved, _) = store.find_next_full_bracket(c.clone()).unwrap();
        c.current_bracket_set = moved.current_bracket_set;
        c.current_bracket = moved.current_bracket;
        let mut rounds = 0;
        loop {
            record_winner(&c, &mut store, &"team1".to_string()).unwrap();
            rounds += 1;
            match advance_round(&mut c, &mut store) {
                Ok(()) => {}
                Err(Refusal::NoRoundLeft) => break,
                Err(e) => panic!("unexpected refusal {:?}", e),
            }
        }
        // One round per elimination.
        assert_eq!(rounds, n as usize - 1);
        let final_bracket = store.brackets.last().unwrap();
        assert_eq!(final_bracket.winner, 0);
    }
}

#[test]
fn next_indexes_step_in_generation_order() {
    for n in 1..=40u8 {
        let generated = generate_base_brackets(n, "m".to_string());
        let mut store = BracketStore::new(generate_base_brackets(n, "m".to_string()));
        // Winners do not matter to the order.
        store.set_winner(0, 0, &"m".to_string(), -1);
        let positions: Vec<(u32, u32)> = generated
            .iter()
            .map(|b| {
                let mut p = b._id.split(':');
                (p.next().unwrap().parse().unwrap(), p.next().unwrap().parse().unwrap())
            })
            .collect();
        for i in 0..positions.len() {
            let c = Config {
                _id: "config".to_string(),
                current_match: "m".to_string(),
                current_state: AppState::PLAYING,
                current_bracket_set: positions[i].0,
                current_bracket: positions[i].1,
                round_winner: 0,
            };
            let r = store.get_next_bracket_indexes(&c);
            if i + 1 < positions.len() {
                assert_eq!(r, Ok(positions[i + 1]));
            } else {
                assert_eq!(r, Err(estm::navigation::BracketError::NoBracketsLeft));
            }
        }
    }
}

#[test]
fn tree_shape_depends_on_the_team_count_only() {
    for n in 1..=40u8 {
        let a = generate_base_brackets(n, "first".to_string());
        let b = generate_base_brackets(n, "second-match".to_string());
        assert_eq!(a.len(), b.len());
        for (x, y) in a.iter().zip(b.iter()) {
            assert_eq!((x.team1, x.team2, x.winner), (y.team1, y.team2, y.winner));
            assert_eq!(x.match_id, "first");
            assert_eq!(y.match_id, "second-match");
            assert_eq!(x._id.strip_suffix("first"), y._id.strip_suffix("second-match"));
        }
    }
}
