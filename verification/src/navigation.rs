//! Moving through a running match: from the current bracket to the next one
//! that pairs two teams, passing single-team brackets on, and reading the
//! teams of the current and the next bracket.

use vstd::prelude::*;
use vstd::set_lib::*;
use crate::bracket_tree::{
    base_brackets, later_sets, lemma_final_set, lemma_position_in_tree, position_in_tree, lemma_generated_lookup, lemma_later_sets_bound, lemma_set_size_positive,
    planned_bracket, set_size,
};
use crate::model::{Bracket, BracketView, Config, ConfigView, Team, TeamView};
use crate::store::{first_with_id, stored_at, write_winner, BracketStore, StoreView};
use crate::text::{bracket_id_text, lemma_bracket_id_injective};

verus! {

/// Why a bracket lookup gives no answer. The first three are answers of
/// their own; the others mark data on which the lookup cannot go on.
#[derive(Clone, Copy, Debug, PartialEq, Eq, Structural)]
pub enum BracketError {
    /// The current bracket is the last one.
    NoBracketsLeft,
    /// No bracket pairing two teams follows the current one.
    NoNextBracket,
    /// The bracket has no second team.
    NoTeam2,
    /// A bracket that the data refers to is not stored.
    MissingBracket,
    /// A winner that is not an index into the match's teams.
    MissingTeam,
    /// A set or bracket index would leave the range of `u32`.
    IndexOverflow,
}

impl BracketError {
    /// Whether the data is inconsistent (rather than the lookup having a
    /// plain answer): a missing bracket or team, or an index out of range.
    pub open spec fn spec_is_fault(&self) -> bool {
        ||| self == BracketError::MissingBracket
        ||| self == BracketError::MissingTeam
        ||| self == BracketError::IndexOverflow
    }

    #[verifier::when_used_as_spec(spec_is_fault)]
    pub fn is_fault(&self) -> (b: bool)
        ensures
            b == self.spec_is_fault(),
    {
        match self {
            BracketError::MissingBracket => true,
            BracketError::MissingTeam => true,
            BracketError::IndexOverflow => true,
            _ => false,
        }
    }

    /// The text reported for the error.
    pub open spec fn message_text(&self) -> Seq<char> {
        match *self {
            BracketError::NoBracketsLeft => "No brackets left"@,
            BracketError::NoNextBracket => "Cannot find next bracket"@,
            BracketError::NoTeam2 => "Team 2 does not exist"@,
            BracketError::MissingBracket => "A bracket that the match refers to is missing"@,
            BracketError::MissingTeam => "A winner is not a team of the match"@,
            BracketError::IndexOverflow => "A bracket index is out of range"@,
        }
    }

    pub fn message(&self) -> (s: &'static str)
        ensures
            s@ == self.message_text(),
    {
        match self {
            BracketError::NoBracketsLeft => "No brackets left",
            BracketError::NoNextBracket => "Cannot find next bracket",
            BracketError::NoTeam2 => "Team 2 does not exist",
            BracketError::MissingBracket => "A bracket that the match refers to is missing",
            BracketError::MissingTeam => "A winner is not a team of the match",
            BracketError::IndexOverflow => "A bracket index is out of range",
        }
    }
}

/// Position `(s1, i1)` comes no later than `(s2, i2)`: sets first, then
/// indexes within a set.
pub open spec fn pos_le(s1: u32, i1: u32, s2: u32, i2: u32) -> bool {
    s1 < s2 || (s1 == s2 && i1 <= i2)
}

/// The position after `(set, index)`: the next index of the same set if that
/// bracket is stored, else the first bracket of the next set if stored.
pub open spec fn step_position(s: Seq<BracketView>, m: Seq<char>, set: u32, index: u32) -> Result<(u32, u32), BracketError> {
    if index == u32::MAX {
        Err(BracketError::IndexOverflow)
    } else if stored_at(s, set, (index + 1) as u32, m) is Some {
        Ok((set, (index + 1) as u32))
    } else if set == u32::MAX {
        Err(BracketError::IndexOverflow)
    } else if stored_at(s, (set + 1) as u32, 0, m) is Some {
        Ok(((set + 1) as u32, 0))
    } else {
        Err(BracketError::NoBracketsLeft)
    }
}

/// Walking forward from `(set, index)` in match `m` to the next bracket with
/// two teams, within `budget` steps. A bracket with one team on the way gets
/// the winner of the bracket of the set before that its `team1` names.
/// Gives the store as left by the walk and the position and bracket reached.
pub open spec fn walk(st: StoreView, m: Seq<char>, set: u32, index: u32, budget: nat) -> (StoreView, Result<(u32, u32, BracketView), BracketError>)
    decreases budget,
{
    if budget == 0 {
        (st, Err(BracketError::NoNextBracket))
    } else {
        match step_position(st.brackets, m, set, index) {
            Err(e) => (st, Err(if e == BracketError::NoBracketsLeft { BracketError::NoNextBracket } else { e })),
            Ok((ns, ni)) => {
                let b = stored_at(st.brackets, ns, ni, m).unwrap();
                if b.team2 != -1 {
                    (st, Ok((ns, ni, b)))
                } else if ns == 0 {
                    (st, Err(BracketError::IndexOverflow))
                } else {
                    match stored_at(st.brackets, (ns - 1) as u32, b.team1 as u32, m) {
                        None => (st, Err(BracketError::MissingBracket)),
                        Some(f) => walk(
                            write_winner(st, bracket_id_text(ns as nat, ni as nat, m), f.winner, (f.winner as u32) as int),
                            m,
                            ns,
                            ni,
                            (budget - 1) as nat,
                        ),
                    }
                }
            },
        }
    }
}

/// The walk from the configuration's current bracket, with a budget of one
/// step more than the store has brackets (the walk never needs more).
pub open spec fn walk_from(st: StoreView, c: ConfigView) -> (StoreView, Result<(u32, u32, BracketView), BracketError>) {
    walk(st, c.current_match, c.current_bracket_set, c.current_bracket, st.brackets.len() + 1)
}

/// The team that a winner value names: none for -1, else the team at that index.
pub open spec fn winner_team(teams: Seq<TeamView>, w: int) -> Option<TeamView> {
    if w == -1 { None } else { Some(teams[w]) }
}

/// A winner value that names no team and is not -1.
pub open spec fn bad_winner(teams: Seq<TeamView>, w: int) -> bool {
    w != -1 && !(0 <= w < teams.len())
}

/// The teams that the feeders of bracket `b` (of set `set`) have produced.
pub open spec fn feeder_teams(s: Seq<BracketView>, teams: Seq<TeamView>, m: Seq<char>, set: u32, b: BracketView) -> Result<(Option<TeamView>, Option<TeamView>), BracketError> {
    if set == 0 {
        Err(BracketError::IndexOverflow)
    } else {
        match stored_at(s, (set - 1) as u32, b.team1 as u32, m) {
            None => Err(BracketError::MissingBracket),
            Some(f1) => if bad_winner(teams, f1.winner) {
                Err(BracketError::MissingTeam)
            } else if b.team2 == -1 {
                Err(BracketError::NoTeam2)
            } else {
                match stored_at(s, (set - 1) as u32, b.team2 as u32, m) {
                    None => Err(BracketError::MissingBracket),
                    Some(f2) => if bad_winner(teams, f2.winner) {
                        Err(BracketError::MissingTeam)
                    } else {
                        Ok((winner_team(teams, f1.winner), winner_team(teams, f2.winner)))
                    },
                }
            },
        }
    }
}

/// The store after looking up the next bracket, and the teams it will pair:
/// none at all when no bracket with two teams follows.
pub open spec fn next_pair(st: StoreView, teams: Seq<TeamView>, c: ConfigView) -> (StoreView, Result<(Option<TeamView>, Option<TeamView>), BracketError>) {
    let (st1, r) = walk_from(st, c);
    match r {
        Err(e) => (st1, if e == BracketError::NoNextBracket { Ok((None, None)) } else { Err(e) }),
        Ok((ns, ni, b)) => (st1, feeder_teams(st1.brackets, teams, c.current_match, ns, b)),
    }
}

/// Which team won the current bracket: 1 for the first, 2 for the second, 0
/// for neither.
pub open spec fn winner_code(w: TeamView, t1: TeamView, t2: TeamView) -> u8 {
    if w.id == t1.id { 1 } else if w.id == t2.id { 2 } else { 0 }
}

/// The teams of the current bracket and which of them won it.
pub open spec fn current_triple(s: Seq<BracketView>, teams: Seq<TeamView>, c: ConfigView) -> Result<(Option<TeamView>, Option<TeamView>, u8), BracketError> {
    let m = c.current_match;
    let set = c.current_bracket_set;
    match stored_at(s, set, c.current_bracket, m) {
        None => Ok((None, None, 0)),
        Some(b) => if b.team2 == -1 {
            Err(BracketError::NoTeam2)
        } else if set == 0 {
            Err(BracketError::IndexOverflow)
        } else {
            match stored_at(s, (set - 1) as u32, b.team1 as u32, m) {
                None => Err(BracketError::MissingBracket),
                Some(f1) => if !(0 <= f1.winner < teams.len()) {
                    Err(BracketError::MissingTeam)
                } else {
                    match stored_at(s, (set - 1) as u32, b.team2 as u32, m) {
                        None => Err(BracketError::MissingBracket),
                        Some(f2) => if !(0 <= f2.winner < teams.len()) {
                            Err(BracketError::MissingTeam)
                        } else if b.winner == -1 {
                            Ok((Some(teams[f1.winner]), Some(teams[f2.winner]), 0))
                        } else if !(0 <= b.winner < teams.len()) {
                            Err(BracketError::MissingTeam)
                        } else {
                            Ok((
                                Some(teams[f1.winner]),
                                Some(teams[f2.winner]),
                                winner_code(teams[b.winner], teams[f1.winner], teams[f2.winner]),
                            ))
                        },
                    }
                },
            }
        },
    }
}

/// Reading the current bracket meets inconsistent data.
pub open spec fn current_faults(s: Seq<BracketView>, teams: Seq<TeamView>, c: ConfigView) -> bool {
    current_triple(s, teams, c) matches Err(e) && e.spec_is_fault()
}

pub open spec fn team_views(teams: Seq<Team>) -> Seq<TeamView> {
    teams.map_values(|t: Team| t@)
}

pub open spec fn opt_team_view(t: Option<Team>) -> Option<TeamView> {
    match t {
        Some(t) => Some(t@),
        None => None,
    }
}

/// Writing a winner changes no id and no length.
pub proof fn lemma_write_keeps_ids(st: StoreView, id: Seq<char>, w: int, l: int)
    ensures
        write_winner(st, id, w, l).brackets.len() == st.brackets.len(),
        forall|k: int| 0 <= k < st.brackets.len() ==> #[trigger] write_winner(st, id, w, l).brackets[k].id == st.brackets[k].id,
        forall|k: int| 0 <= k < st.brackets.len() ==> {
            &&& #[trigger] write_winner(st, id, w, l).brackets[k].team1 == st.brackets[k].team1
            &&& write_winner(st, id, w, l).brackets[k].team2 == st.brackets[k].team2
            &&& write_winner(st, id, w, l).brackets[k].match_id == st.brackets[k].match_id
        },
{
}

/// Lookups by id give the same positions in two stores with the same ids.
pub proof fn lemma_same_ids_same_first(s1: Seq<BracketView>, s2: Seq<BracketView>, id: Seq<char>)
    requires
        s1.len() == s2.len(),
        forall|k: int| 0 <= k < s1.len() ==> #[trigger] s1[k].id == s2[k].id,
    ensures
        first_with_id(s1, id) == first_with_id(s2, id),
{
    assert forall|i: int| crate::store::is_first_with_id(s1, id, i) <==> crate::store::is_first_with_id(s2, id, i) by {
        if 0 <= i < s1.len() {
            assert(s1[i].id == s2[i].id);
            assert forall|j: int| #![trigger s1[j].id] #![trigger s2[j].id] 0 <= j < i implies s1[j].id == s2[j].id by {
                assert(s1[j].id == s2[j].id);
            }
        }
    }
}

impl BracketStore {
    /// The position after the configuration's current bracket: the next
    /// bracket of the same set, else the first of the next set.
    pub fn get_next_bracket_indexes(&self, config: &Config) -> (r: Result<(u32, u32), BracketError>)
        ensures
            r == step_position(self@.brackets, config@.current_match, config.current_bracket_set, config.current_bracket),
    {
        if config.current_bracket == u32::MAX {
            return Err(BracketError::IndexOverflow);
        }
        let mut next_bracket_set = config.current_bracket_set;
        let mut next_bracket = config.current_bracket;
        let bracket_left_in_set = self.get_bracket(config.current_bracket_set, config.current_bracket + 1, &config.current_match).is_some();
        if bracket_left_in_set {
            next_bracket = next_bracket + 1;
        } else {
            if config.current_bracket_set == u32::MAX {
                return Err(BracketError::IndexOverflow);
            }
            let bracket_in_next_set = self.get_bracket(config.current_bracket_set + 1, 0, &config.current_match).is_some();
            if bracket_in_next_set {
                next_bracket_set = next_bracket_set + 1;
                next_bracket = 0;
            } else {
                return Err(BracketError::NoBracketsLeft);
            }
        }
        Ok((next_bracket_set, next_bracket))
    }
}

/// The walk would start inside the first set, with a single-team bracket
/// of the first set next: that bracket has no set before it to take a
/// winner from.
pub open spec fn starts_inside_first_set(s: Seq<BracketView>, c: ConfigView) -> bool {
    &&& c.current_bracket_set == 0
    &&& c.current_bracket < u32::MAX
    &&& stored_at(s, 0, (c.current_bracket + 1) as u32, c.current_match) matches Some(b)
    &&& b.team2 == -1
}

/// A walk started inside the first set stops at once with an index error,
/// writing nothing.
pub proof fn lemma_walk_inside_first_set(st: StoreView, c: ConfigView)
    requires
        starts_inside_first_set(st.brackets, c),
    ensures
        walk_from(st, c) == (st, Err::<(u32, u32, BracketView), BracketError>(BracketError::IndexOverflow)),
{
}

/// The view of what `find_next_full_bracket` returns: the position and the
/// bracket reached.
pub open spec fn found_view(r: Result<(Config, Bracket), BracketError>) -> Result<(u32, u32, BracketView), BracketError> {
    match r {
        Ok((c, b)) => Ok((c.current_bracket_set, c.current_bracket, b@)),
        Err(e) => Err(e),
    }
}

/// Every store index in `visited` holds the id of a position no later than
/// `(set, index)`.
pub open spec fn visited_before(s: Seq<BracketView>, visited: Set<int>, m: Seq<char>, set: u32, index: u32) -> bool {
    forall|k: int| #[trigger] visited.contains(k) ==> exists|vs: u32, vi: u32|
        pos_le(vs, vi, set, index) && #[trigger] s[k].id == bracket_id_text(vs as nat, vi as nat, m)
}


/// Visiting the next position adds a store index not seen before.
proof fn lemma_visit_next(
    s: Seq<BracketView>,
    s1: Seq<BracketView>,
    m: Seq<char>,
    set: u32,
    index: u32,
    ns: u32,
    ni: u32,
    visited: Set<int>,
) -> (nv: Set<int>)
    requires
        visited.finite(),
        visited.subset_of(set_int_range(0, s.len() as int)),
        visited_before(s, visited, m, set, index),
        pos_lt(set, index, ns, ni),
        stored_at(s, ns, ni, m) is Some,
        s1.len() == s.len(),
        forall|k: int| 0 <= k < s.len() ==> #[trigger] s1[k].id == s[k].id,
    ensures
        nv.finite(),
        nv.subset_of(set_int_range(0, s.len() as int)),
        nv.len() == visited.len() + 1,
        visited_before(s1, nv, m, ns, ni),
{
    let id = bracket_id_text(ns as nat, ni as nat, m);
    let kk = first_with_id(s, id).unwrap();
    let c = choose|c: int| crate::store::is_first_with_id(s, id, c);
    assert(crate::store::is_first_with_id(s, id, c));
    assert(kk == c);
    assert(!visited.contains(kk)) by {
        if visited.contains(kk) {
            let (vs, vi) = choose|vs: u32, vi: u32|
                pos_le(vs, vi, set, index) && #[trigger] s[kk].id == bracket_id_text(vs as nat, vi as nat, m);
            lemma_bracket_id_injective(vs as nat, vi as nat, m, ns as nat, ni as nat, m);
        }
    }
    let nv = visited.insert(kk);
    assert forall|k: int| #[trigger] nv.contains(k) implies exists|vs: u32, vi: u32|
        pos_le(vs, vi, ns, ni) && #[trigger] s1[k].id == bracket_id_text(vs as nat, vi as nat, m) by {
        if k == kk {
            assert(pos_le(ns, ni, ns, ni));
            assert(s1[k].id == bracket_id_text(ns as nat, ni as nat, m));
        } else {
            assert(visited.contains(k));
            let (vs, vi) = choose|vs: u32, vi: u32|
                pos_le(vs, vi, set, index) && #[trigger] s[k].id == bracket_id_text(vs as nat, vi as nat, m);
            assert(s1[k].id == s[k].id);
            assert(pos_le(vs, vi, ns, ni));
        }
    }
    nv
}

impl BracketStore {
    /// Whether a walk may start from the configuration's current bracket:
    /// `Err(IndexOverflow)` exactly when it would start inside the first set
    /// with a single-team bracket of the first set next.
    pub fn check_walk_start(&self, config: &Config) -> (r: Result<(), BracketError>)
        ensures
            r is Err <==> starts_inside_first_set(self@.brackets, config@),
            r is Err ==> r == Err::<(), BracketError>(BracketError::IndexOverflow),
    {
        if config.current_bracket_set != 0 || config.current_bracket == u32::MAX {
            return Ok(());
        }
        match self.get_bracket(0, config.current_bracket + 1, &config.current_match) {
            Some(b) => {
                if b.team2 == -1 {
                    Err(BracketError::IndexOverflow)
                } else {
                    Ok(())
                }
            },
            None => Ok(()),
        }
    }

    /// Moves from the configuration's current bracket to the next bracket
    /// that pairs two teams. Each bracket with a single team passed on the
    /// way gets, as its winner, the winner of the bracket of the set before
    /// that it names as `team1` (a logged write). Gives the configuration
    /// moved to the bracket found, and that bracket. The walk must not start
    /// inside the first set, before a single-team bracket of it
    /// (`check_walk_start` tells).
    pub fn find_next_full_bracket(&mut self, config: Config) -> (r: Result<(Config, Bracket), BracketError>)
        requires
            !starts_inside_first_set(old(self)@.brackets, config@),
        ensures
            (final(self)@, found_view(r)) == walk_from(old(self)@, config@),
            r matches Ok((c, _)) ==> {
                &&& c._id == config._id
                &&& c.current_match == config.current_match
                &&& c.current_state == config.current_state
                &&& c.round_winner == config.round_winner
            },
    {
        let ghost start = self@;
        let ghost n = self@.brackets.len();
        let ghost c0 = config;
        let ghost m = config@.current_match;
        let match_id = config.current_match.clone();
        let mut cur = config.clone();
        let ghost mut visited: Set<int> = Set::empty();
        loop
            invariant
                old(self)@ == start,
                c0 == config,
                self@.brackets.len() == n,
                match_id@ == m,
                cur._id == c0._id,
                cur.current_match == c0.current_match,
                cur.current_state == c0.current_state,
                cur.round_winner == c0.round_winner,
                visited.finite(),
                visited.subset_of(set_int_range(0, n as int)),
                visited_before(self@.brackets, visited, m, cur.current_bracket_set, cur.current_bracket),
                walk_from(start, c0@) == walk(self@, m, cur.current_bracket_set, cur.current_bracket, (n + 1 - visited.len()) as nat),
            decreases n + 1 - visited.len(),
        {
            proof {
                lemma_int_range(0, n as int);
                lemma_len_subset(visited, set_int_range(0, n as int));
            }
            let ghost st = self@;
            let ghost cs = cur.current_bracket_set;
            let ghost ci = cur.current_bracket;
            if cur.current_bracket == u32::MAX {
                return Err(BracketError::IndexOverflow);
            }
            let mut next_bracket_set = cur.current_bracket_set;
            let mut next_bracket = cur.current_bracket;
            let bracket_left_in_set = self.get_bracket(cur.current_bracket_set, cur.current_bracket + 1, &match_id).is_some();
            if bracket_left_in_set {
                next_bracket = next_bracket + 1;
            } else {
                if cur.current_bracket_set == u32::MAX {
                    return Err(BracketError::IndexOverflow);
                }
                let bracket_in_next_set = self.get_bracket(cur.current_bracket_set + 1, 0, &match_id).is_some();
                if bracket_in_next_set {
                    next_bracket_set = next_bracket_set + 1;
                    next_bracket = 0;
                } else {
                    return Err(BracketError::NoNextBracket);
                }
            }
            let bracket = match self.get_bracket(next_bracket_set, next_bracket, &match_id) {
                Some(b) => b,
                None => {
                    return Err(BracketError::MissingBracket);
                },
            };
            cur.current_bracket = next_bracket;
            cur.current_bracket_set = next_bracket_set;
            if bracket.team2 != -1 {
                return Ok((cur, bracket));
            }
            if cur.current_bracket_set == 0 {
                return Err(BracketError::IndexOverflow);
            }
            let feeder = self.get_bracket(cur.current_bracket_set - 1, bracket.team1 as u32, &match_id);
            let team = match feeder {
                Some(f) => f.winner,
                None => {
                    return Err(BracketError::MissingBracket);
                },
            };
            self.set_winner(next_bracket_set, next_bracket, &match_id, team);
            proof {
                let id = bracket_id_text(next_bracket_set as nat, next_bracket as nat, m);
                lemma_write_keeps_ids(st, id, team as int, (team as u32) as int);
                lemma_next_position_moves_forward(st.brackets, m, cs, ci);
                let nv = lemma_visit_next(st.brackets, self@.brackets, m, cs, ci, next_bracket_set, next_bracket, visited);
                visited = nv;
            }
        }
    }
}

pub open spec fn pair_view(r: Result<(Option<Team>, Option<Team>), BracketError>) -> Result<(Option<TeamView>, Option<TeamView>), BracketError> {
    match r {
        Ok((a, b)) => Ok((opt_team_view(a), opt_team_view(b))),
        Err(e) => Err(e),
    }
}

pub open spec fn triple_view(r: Result<(Option<Team>, Option<Team>, u8), BracketError>) -> Result<(Option<TeamView>, Option<TeamView>, u8), BracketError> {
    match r {
        Ok((a, b, w)) => Ok((opt_team_view(a), opt_team_view(b), w)),
        Err(e) => Err(e),
    }
}

/// The team that winner value `w` names, or `None` for -1.
fn team_of_winner(teams: &Vec<Team>, w: i32) -> (r: Result<Option<Team>, BracketError>)
    ensures
        bad_winner(team_views(teams@), w as int) <==> r is Err,
        r is Err ==> r == Err::<Option<Team>, BracketError>(BracketError::MissingTeam),
        r matches Ok(t) ==> opt_team_view(t) == winner_team(team_views(teams@), w as int),
{
    if w == -1 {
        Ok(None)
    } else if w >= 0 && (w as usize) < teams.len() {
        Ok(Some(teams[w as usize].clone()))
    } else {
        Err(BracketError::MissingTeam)
    }
}

impl BracketStore {
    /// The teams that the next bracket with two teams will pair: each is the
    /// winner of the bracket of the set before that the next bracket names,
    /// or `None` while that is undecided; `(None, None)` when no such bracket
    /// follows. Looking the next bracket up writes the winners of single-team
    /// brackets on the way, as `find_next_full_bracket` does.
    pub fn get_next_bracket(&mut self, config: Config, teams: &Vec<Team>) -> (r: Result<(Option<Team>, Option<Team>), BracketError>)
        ensures
            (final(self)@, pair_view(r)) == next_pair(old(self)@, team_views(teams@), config@),
            walk_from(old(self)@, config@).1 matches Ok((ns, ni, nb)) ==> r matches Ok((a, b)) ==>
                stored_at(final(self)@.brackets, (ns - 1) as u32, nb.team2 as u32, config@.current_match) matches Some(f2) ==>
                opt_team_view(b) == winner_team(team_views(teams@), f2.winner),
            walk_from(old(self)@, config@).1 matches Ok((ns, ni, nb)) ==> r matches Ok((a, b)) ==>
                stored_at(final(self)@.brackets, (ns - 1) as u32, nb.team1 as u32, config@.current_match) matches Some(f1) ==>
                opt_team_view(a) == winner_team(team_views(teams@), f1.winner),
    {
        proof {
            lemma_next_teams_are_feeder_winners(self@, team_views(teams@), config@);
        }
        if let Err(e) = self.check_walk_start(&config) {
            proof {
                lemma_walk_inside_first_set(self@, config@);
            }
            return Err(e);
        }
        let found = self.find_next_full_bracket(config);
        let (config, bracket) = match found {
            Err(e) => {
                if e == BracketError::NoNextBracket {
                    return Ok((None, None));
                }
                return Err(e);
            },
            Ok(found) => found,
        };
        if config.current_bracket_set == 0 {
            return Err(BracketError::IndexOverflow);
        }
        let team1_bracket = match self.get_bracket(config.current_bracket_set - 1, bracket.team1 as u32, &config.current_match) {
            Some(b) => b,
            None => {
                return Err(BracketError::MissingBracket);
            },
        };
        let team1 = match team_of_winner(teams, team1_bracket.winner) {
            Ok(t) => t,
            Err(e) => {
                return Err(e);
            },
        };
        if bracket.team2 == -1 {
            return Err(BracketError::NoTeam2);
        }
        let team2_bracket = match self.get_bracket(config.current_bracket_set - 1, bracket.team2 as u32, &config.current_match) {
            Some(b) => b,
            None => {
                return Err(BracketError::MissingBracket);
            },
        };
        let team2 = match team_of_winner(teams, team2_bracket.winner) {
            Ok(t) => t,
            Err(e) => {
                return Err(e);
            },
        };
        Ok((team1, team2))
    }

    /// The teams of the current bracket and which of them won it (1 or 2; 0
    /// when undecided or when the winner is neither): the teams are the
    /// winners of the two brackets of the set before that it names. An
    /// unstored current bracket gives `(None, None, 0)`; a current bracket
    /// with no second team gives `NoTeam2`. Both feeding brackets must be
    /// stored and decided, and every winner must name a team
    /// (`check_current_bracket` tells).
    pub fn get_current_bracket(&self, config: &Config, teams: &Vec<Team>) -> (r: Result<(Option<Team>, Option<Team>, u8), BracketError>)
        requires
            !current_faults(self@.brackets, team_views(teams@), config@),
        ensures
            triple_view(r) == current_triple(self@.brackets, team_views(teams@), config@),
            r is Err ==> r == Err::<(Option<Team>, Option<Team>, u8), BracketError>(BracketError::NoTeam2),
            r matches Ok((a, b, w)) ==>
                stored_at(self@.brackets, config.current_bracket_set, config.current_bracket, config@.current_match) matches Some(cur) ==>
                stored_at(self@.brackets, (config.current_bracket_set - 1) as u32, cur.team1 as u32, config@.current_match) matches Some(f1) ==>
                opt_team_view(a) == Some(team_views(teams@)[f1.winner]),
            r matches Ok((a, b, w)) ==>
                stored_at(self@.brackets, config.current_bracket_set, config.current_bracket, config@.current_match) matches Some(cur) ==>
                stored_at(self@.brackets, (config.current_bracket_set - 1) as u32, cur.team2 as u32, config@.current_match) matches Some(f2) ==>
                opt_team_view(b) == Some(team_views(teams@)[f2.winner]),
    {
        proof {
            lemma_current_teams_are_feeder_winners(self@.brackets, team_views(teams@), config@);
        }
        self.current_bracket_of(config, teams)
    }

    /// Whether the current bracket can be read: `Err` with the fault when a
    /// feeding bracket is missing or undecided, a winner names no team, or the
    /// current bracket is in the first set with a second team.
    pub fn check_current_bracket(&self, config: &Config, teams: &Vec<Team>) -> (r: Result<(), BracketError>)
        ensures
            r is Err <==> current_faults(self@.brackets, team_views(teams@), config@),
            r matches Err(e) ==> current_triple(self@.brackets, team_views(teams@), config@) == Err::<(Option<TeamView>, Option<TeamView>, u8), BracketError>(e),
    {
        match self.current_bracket_of(config, teams) {
            Err(e) => {
                if e.is_fault() {
                    Err(e)
                } else {
                    Ok(())
                }
            },
            Ok(_) => Ok(()),
        }
    }

    fn current_bracket_of(&self, config: &Config, teams: &Vec<Team>) -> (r: Result<(Option<Team>, Option<Team>, u8), BracketError>)
        ensures
            triple_view(r) == current_triple(self@.brackets, team_views(teams@), config@),
    {
        let bracket = match self.get_bracket(config.current_bracket_set, config.current_bracket, &config.current_match) {
            Some(b) => b,
            None => {
                return Ok((None, None, 0));
            },
        };
        if bracket.team2 == -1 {
            return Err(BracketError::NoTeam2);
        }
        if config.current_bracket_set == 0 {
            return Err(BracketError::IndexOverflow);
        }
        let team1_bracket = match self.get_bracket(config.current_bracket_set - 1, bracket.team1 as u32, &config.current_match) {
            Some(b) => b,
            None => {
                return Err(BracketError::MissingBracket);
            },
        };
        let w1 = team1_bracket.winner;
        if !(w1 >= 0 && (w1 as usize) < teams.len()) {
            return Err(BracketError::MissingTeam);
        }
        let team1 = teams[w1 as usize].clone();
        let team2_bracket = match self.get_bracket(config.current_bracket_set - 1, bracket.team2 as u32, &config.current_match) {
            Some(b) => b,
            None => {
                return Err(BracketError::MissingBracket);
            },
        };
        let w2 = team2_bracket.winner;
        if !(w2 >= 0 && (w2 as usize) < teams.len()) {
            return Err(BracketError::MissingTeam);
        }
        let team2 = teams[w2 as usize].clone();
        if bracket.winner != -1 {
            let w = bracket.winner;
            if !(w >= 0 && (w as usize) < teams.len()) {
                return Err(BracketError::MissingTeam);
            }
            let winner = &teams[w as usize];
            if winner._id == team1._id {
                return Ok((Some(team1), Some(team2), 1));
            } else if winner._id == team2._id {
                return Ok((Some(team1), Some(team2), 2));
            } else {
                return Ok((Some(team1), Some(team2), 0));
            }
        }
        Ok((Some(team1), Some(team2), 0))
    }
}

/// Position `(s1, i1)` comes strictly before `(s2, i2)`.
pub open spec fn pos_lt(s1: u32, i1: u32, s2: u32, i2: u32) -> bool {
    s1 < s2 || (s1 == s2 && i1 < i2)
}

/// Two stores hold the same brackets but for their winners, and the second
/// has the writes of the first and maybe more after them.
pub open spec fn only_winners_changed(a: StoreView, b: StoreView) -> bool {
    &&& b.brackets.len() == a.brackets.len()
    &&& forall|k: int| 0 <= k < a.brackets.len() ==> {
        &&& #[trigger] b.brackets[k].id == a.brackets[k].id
        &&& b.brackets[k].team1 == a.brackets[k].team1
        &&& b.brackets[k].team2 == a.brackets[k].team2
        &&& b.brackets[k].match_id == a.brackets[k].match_id
    }
    &&& a.writes.is_prefix_of(b.writes)
}

/// The next position is strictly later than the current one and is stored.
pub proof fn lemma_next_position_moves_forward(s: Seq<BracketView>, m: Seq<char>, set: u32, index: u32)
    ensures
        step_position(s, m, set, index) matches Ok((ns, ni)) ==> pos_lt(set, index, ns, ni)
            && stored_at(s, ns, ni, m) is Some,
{
}

/// Walking forward changes only winners, reaches a stored bracket with two
/// teams, and ends strictly after where it started.
pub proof fn lemma_walk_reaches_pair(st: StoreView, m: Seq<char>, set: u32, index: u32, budget: nat)
    ensures
        only_winners_changed(st, walk(st, m, set, index, budget).0),
        walk(st, m, set, index, budget).1 matches Ok((ns, ni, b)) ==> {
            &&& b.team2 != -1
            &&& stored_at(walk(st, m, set, index, budget).0.brackets, ns, ni, m) == Some(b)
            &&& pos_lt(set, index, ns, ni)
        },
    decreases budget,
{
    assert(st.writes.is_prefix_of(st.writes)) by {
        assert(st.writes.subrange(0, st.writes.len() as int) =~= st.writes);
    }
    if budget > 0 {
        match step_position(st.brackets, m, set, index) {
            Err(_) => {},
            Ok((ns, ni)) => {
                let b = stored_at(st.brackets, ns, ni, m).unwrap();
                if b.team2 == -1 && ns != 0 {
                    match stored_at(st.brackets, (ns - 1) as u32, b.team1 as u32, m) {
                        None => {},
                        Some(f) => {
                            let id = bracket_id_text(ns as nat, ni as nat, m);
                            let st1 = write_winner(st, id, f.winner, (f.winner as u32) as int);
                            lemma_write_keeps_ids(st, id, f.winner, (f.winner as u32) as int);
                            lemma_walk_reaches_pair(st1, m, ns, ni, (budget - 1) as nat);
                            let st2 = walk(st1, m, ns, ni, (budget - 1) as nat).0;
                            assert(st.writes.is_prefix_of(st1.writes)) by {
                                assert(st1.writes.subrange(0, st.writes.len() as int) =~= st.writes);
                            }
                            assert(st.writes.is_prefix_of(st2.writes)) by {
                                assert(st2.writes.subrange(0, st1.writes.len() as int) =~= st1.writes);
                                assert(st2.writes.subrange(0, st.writes.len() as int) =~= st1.writes.subrange(0, st.writes.len() as int));
                            }
                        },
                    }
                }
            },
        }
    }
}

/// `find_next_full_bracket` lands on a stored bracket that pairs two teams,
/// strictly after the current one, and changes nothing but winners.
pub proof fn lemma_find_next_lands_on_pair(st: StoreView, c: ConfigView)
    ensures
        only_winners_changed(st, walk_from(st, c).0),
        walk_from(st, c).1 matches Ok((ns, ni, b)) ==> {
            &&& b.team2 != -1
            &&& stored_at(walk_from(st, c).0.brackets, ns, ni, c.current_match) == Some(b)
            &&& pos_lt(c.current_bracket_set, c.current_bracket, ns, ni)
        },
{
    lemma_walk_reaches_pair(st, c.current_match, c.current_bracket_set, c.current_bracket, st.brackets.len() + 1);
}

proof fn lemma_walk_budget_from(st: StoreView, m: Seq<char>, set: u32, index: u32, visited: Set<int>, b1: nat, b2: nat)
    requires
        visited.finite(),
        visited.subset_of(set_int_range(0, st.brackets.len() as int)),
        visited_before(st.brackets, visited, m, set, index),
        b1 >= st.brackets.len() + 1 - visited.len(),
        b2 >= st.brackets.len() + 1 - visited.len(),
    ensures
        walk(st, m, set, index, b1) == walk(st, m, set, index, b2),
    decreases b1,
{
    let n = st.brackets.len();
    lemma_int_range(0, n as int);
    lemma_len_subset(visited, set_int_range(0, n as int));
    match step_position(st.brackets, m, set, index) {
        Err(_) => {},
        Ok((ns, ni)) => {
            let b = stored_at(st.brackets, ns, ni, m).unwrap();
            if b.team2 == -1 && ns != 0 {
                match stored_at(st.brackets, (ns - 1) as u32, b.team1 as u32, m) {
                    None => {},
                    Some(f) => {
                        let id = bracket_id_text(ns as nat, ni as nat, m);
                        let st1 = write_winner(st, id, f.winner, (f.winner as u32) as int);
                        lemma_write_keeps_ids(st, id, f.winner, (f.winner as u32) as int);
                        lemma_next_position_moves_forward(st.brackets, m, set, index);
                        let nv = lemma_visit_next(st.brackets, st1.brackets, m, set, index, ns, ni, visited);
                        lemma_walk_budget_from(st1, m, ns, ni, nv, (b1 - 1) as nat, (b2 - 1) as nat);
                    },
                }
            }
        },
    }
}

/// The walk never runs out of budget: with one step more than the store has
/// brackets, any larger budget gives the same walk.
pub proof fn lemma_walk_budget_suffices(st: StoreView, c: ConfigView, budget: nat)
    requires
        budget >= st.brackets.len() + 1,
    ensures
        walk(st, c.current_match, c.current_bracket_set, c.current_bracket, budget) == walk_from(st, c),
{
    let e = Set::<int>::empty();
    assert(e.subset_of(set_int_range(0, st.brackets.len() as int)));
    lemma_walk_budget_from(st, c.current_match, c.current_bracket_set, c.current_bracket, e, budget, st.brackets.len() + 1);
}

/// A freshly generated match of at least two teams, started at the last
/// bracket of its first set, moves on to the first bracket of the second
/// set, which pairs the first two teams, without writing anything.
pub proof fn lemma_start_reaches_first_pairing(n: nat, st: StoreView, c: ConfigView)
    requires
        2 <= n <= 255,
        st.brackets == base_brackets(n, c.current_match),
        c.current_bracket_set == 0,
        c.current_bracket == n - 1,
    ensures
        walk_from(st, c) == (st, Ok::<(u32, u32, BracketView), BracketError>((1u32, 0u32, planned_bracket(n, 1, 0, c.current_match)))),
        planned_bracket(n, 1, 0, c.current_match).team1 == 0,
        planned_bracket(n, 1, 0, c.current_match).team2 == 1,
{
    let m = c.current_match;
    lemma_generated_lookup(n, m, 0, n as u32);
    lemma_generated_lookup(n, m, 1, 0);
    lemma_final_set(n);
    assert(set_size(n, 1) == (n + 1) / 2);
    assert(step_position(st.brackets, m, 0, (n - 1) as u32) == Ok::<(u32, u32), BracketError>((1u32, 0u32)));
}

/// The position after `(set, index)` in the order the tree for `n` teams is
/// generated: the next bracket of the set, else the first of the next set;
/// none after the final.
pub open spec fn generation_successor(n: nat, set: u32, index: u32) -> Option<(u32, u32)> {
    if index + 1 < set_size(n, set as nat) {
        Some((set, (index + 1) as u32))
    } else if set < later_sets(n) {
        Some(((set + 1) as u32, 0u32))
    } else {
        None
    }
}

/// On the brackets of a freshly generated tree, whatever their winners,
/// `get_next_bracket_indexes` steps through the positions in generation
/// order, the final being last.
pub proof fn lemma_next_indexes_follow_generation(n: nat, m: Seq<char>, s: Seq<BracketView>, set: u32, index: u32)
    requires
        1 <= n <= 255,
        s.len() == base_brackets(n, m).len(),
        forall|k: int| 0 <= k < s.len() ==> #[trigger] s[k].id == base_brackets(n, m)[k].id,
        set <= later_sets(n),
        index < set_size(n, set as nat),
    ensures
        step_position(s, m, set, index) == match generation_successor(n, set, index) {
            Some(p) => Ok::<(u32, u32), BracketError>(p),
            None => Err::<(u32, u32), BracketError>(BracketError::NoBracketsLeft),
        },
{
    let g = base_brackets(n, m);
    lemma_later_sets_bound(n);
    lemma_set_size_positive(n, (set + 1) as nat);
    assert(index < 255) by {
        crate::bracket_tree::lemma_set_size_at_most(n, set as nat);
    }
    let next_in_set = (index + 1) as u32;
    let first_of_next = (set + 1) as u32;
    lemma_generated_lookup(n, m, set, next_in_set);
    lemma_generated_lookup(n, m, first_of_next, 0);
    lemma_same_ids_same_first(s, g, bracket_id_text(set as nat, next_in_set as nat, m));
    lemma_same_ids_same_first(s, g, bracket_id_text(first_of_next as nat, 0, m));
}

/// On the brackets of a freshly generated tree, whatever their winners,
/// `get_next_bracket_indexes` from the bracket at `i` gives the position
/// whose id the bracket at `i + 1` has; from the last bracket, the final,
/// it answers that no bracket is left.
pub proof fn lemma_next_indexes_follow_ids(n: nat, m: Seq<char>, s: Seq<BracketView>, i: int, set: u32, index: u32)
    requires
        1 <= n <= 255,
        s.len() == base_brackets(n, m).len(),
        forall|k: int| 0 <= k < s.len() ==> #[trigger] s[k].id == base_brackets(n, m)[k].id,
        0 <= i < s.len(),
        base_brackets(n, m)[i].id == bracket_id_text(set as nat, index as nat, m),
    ensures
        i + 1 < s.len() ==> (step_position(s, m, set, index) matches Ok((s2, k2))
            && base_brackets(n, m)[i + 1].id == bracket_id_text(s2 as nat, k2 as nat, m)),
        i + 1 == s.len() ==> step_position(s, m, set, index) == Err::<(u32, u32), BracketError>(BracketError::NoBracketsLeft),
{
    let g = base_brackets(n, m);
    lemma_position_in_tree(n, m, i);
    let (k, j) = position_in_tree(n, i);
    lemma_bracket_id_injective(k, j, m, set as nat, index as nat, m);
    lemma_next_indexes_follow_generation(n, m, s, set, index);
    if i + 1 < s.len() {
        lemma_position_in_tree(n, m, i + 1);
        if !(j + 1 < set_size(n, k)) && k == later_sets(n) {
            // the last set holds the final alone, and nothing follows it
            lemma_final_set(n);
            assert(false);
        }
    }
}

/// Reading the current bracket: an unstored bracket gives no teams and code
/// 0. Otherwise the first team is the team that won the bracket of the set
/// before that the current bracket's first side names, and the second team
/// the one that won the bracket its second side names, in that order
/// whoever won; the code is 1 exactly when the current bracket's winner is
/// the first team, 2 exactly when it is the second and not the first, and 0
/// when undecided or neither.
pub proof fn lemma_current_teams_are_feeder_winners(s: Seq<BracketView>, teams: Seq<TeamView>, c: ConfigView)
    ensures
        stored_at(s, c.current_bracket_set, c.current_bracket, c.current_match) is None
            ==> current_triple(s, teams, c) == Ok::<(Option<TeamView>, Option<TeamView>, u8), BracketError>((None, None, 0)),
        current_triple(s, teams, c) matches Ok((a, b, w))
            ==> stored_at(s, c.current_bracket_set, c.current_bracket, c.current_match) matches Some(cur) ==> {
            let m = c.current_match;
            let prev = (c.current_bracket_set - 1) as u32;
            &&& c.current_bracket_set >= 1
            &&& cur.team2 != -1
            &&& stored_at(s, prev, cur.team1 as u32, m) matches Some(f1)
                && 0 <= f1.winner < teams.len() && a == Some(teams[f1.winner])
            &&& stored_at(s, prev, cur.team2 as u32, m) matches Some(f2)
                && 0 <= f2.winner < teams.len() && b == Some(teams[f2.winner])
            &&& cur.winner != -1 ==> 0 <= cur.winner < teams.len()
            &&& (w == 1 <==> (cur.winner != -1 && teams[cur.winner].id == a->0.id))
            &&& (w == 2 <==> (cur.winner != -1 && teams[cur.winner].id != a->0.id && teams[cur.winner].id == b->0.id))
            &&& (w == 0 <==> (cur.winner == -1 || (teams[cur.winner].id != a->0.id && teams[cur.winner].id != b->0.id)))
        },
        stored_at(s, c.current_bracket_set, c.current_bracket, c.current_match) matches Some(cur) ==> {
            let m = c.current_match;
            let prev = (c.current_bracket_set - 1) as u32;
            &&& cur.team2 == -1 ==> current_triple(s, teams, c) == Err::<(Option<TeamView>, Option<TeamView>, u8), BracketError>(BracketError::NoTeam2)
            &&& stored_at(s, prev, cur.team1 as u32, m) matches Some(f1) ==>
                stored_at(s, prev, cur.team2 as u32, m) matches Some(f2) ==>
                (c.current_bracket_set >= 1 && cur.team2 != -1
                    && 0 <= f1.winner < teams.len() && 0 <= f2.winner < teams.len()
                    && (cur.winner == -1 || 0 <= cur.winner < teams.len()))
                ==> current_triple(s, teams, c) is Ok
        },
{
}

/// Reading the next bracket: the store is the one the walk leaves, no
/// bracket ahead gives no teams, and for the two-team bracket the walk finds
/// (in a set after the first) each side is, independently of the other,
/// `None` while the bracket of the set before that it names is undecided and
/// otherwise the team that won it.
pub proof fn lemma_next_teams_are_feeder_winners(st: StoreView, teams: Seq<TeamView>, c: ConfigView)
    ensures
        next_pair(st, teams, c).0 == walk_from(st, c).0,
        walk_from(st, c).1 == Err::<(u32, u32, BracketView), BracketError>(BracketError::NoNextBracket)
            ==> next_pair(st, teams, c).1 == Ok::<(Option<TeamView>, Option<TeamView>), BracketError>((None, None)),
        walk_from(st, c).1 matches Ok((ns, ni, nb)) ==> next_pair(st, teams, c).1 matches Ok((a, b)) ==> {
            let s1 = walk_from(st, c).0.brackets;
            let m = c.current_match;
            let prev = (ns - 1) as u32;
            &&& ns >= 1
            &&& nb.team2 != -1
            &&& stored_at(s1, prev, nb.team1 as u32, m) matches Some(f1)
                && (f1.winner == -1 ==> a is None)
                && (f1.winner != -1 ==> 0 <= f1.winner < teams.len() && a == Some(teams[f1.winner]))
            &&& stored_at(s1, prev, nb.team2 as u32, m) matches Some(f2)
                && (f2.winner == -1 ==> b is None)
                && (f2.winner != -1 ==> 0 <= f2.winner < teams.len() && b == Some(teams[f2.winner]))
        },
        walk_from(st, c).1 matches Ok((ns, ni, nb)) ==> {
            let s1 = walk_from(st, c).0.brackets;
            let m = c.current_match;
            let prev = (ns - 1) as u32;
            stored_at(s1, prev, nb.team1 as u32, m) matches Some(f1) ==>
                stored_at(s1, prev, nb.team2 as u32, m) matches Some(f2) ==>
                (ns >= 1 && nb.team2 != -1 && !bad_winner(teams, f1.winner) && !bad_winner(teams, f2.winner))
                ==> next_pair(st, teams, c).1 is Ok
        },
{
}

} // verus!
