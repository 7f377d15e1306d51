//! The stored records: brackets, teams, players, matches, sessions and the
//! server's configuration, each with its mathematical view.

use vstd::prelude::*;
use crate::ids::{is_alphanumeric, is_url_safe, new_id, random_alphanumeric, unix_timestamp, ID_LEN};

verus! {

/// One bracket of a match. In the first set a bracket stands for one team
/// (`team1` is the team's index, `team2` is -1). In a later set `team1` and
/// `team2` are indexes of brackets of the set before, and `winner` is the
/// index of the winning team, or -1 while undecided.
pub struct Bracket {
    pub _id: String,
    pub team1: i32,
    pub team2: i32,
    pub winner: i32,
    pub match_id: String,
}

pub struct BracketView {
    pub id: Seq<char>,
    pub team1: int,
    pub team2: int,
    pub winner: int,
    pub match_id: Seq<char>,
}

impl View for Bracket {
    type V = BracketView;

    open spec fn view(&self) -> BracketView {
        BracketView {
            id: self._id@,
            team1: self.team1 as int,
            team2: self.team2 as int,
            winner: self.winner as int,
            match_id: self.match_id@,
        }
    }
}

impl Clone for Bracket {
    fn clone(&self) -> (r: Self)
        ensures
            r == *self,
    {
        Bracket {
            _id: self._id.clone(),
            team1: self.team1,
            team2: self.team2,
            winner: self.winner,
            match_id: self.match_id.clone(),
        }
    }
}

/// Whether the server is preparing matches or playing one.
#[allow(non_camel_case_types)]
#[derive(Clone, Copy, Debug, PartialEq, Eq, Structural)]
pub enum AppState {
    EDITING,
    PLAYING,
}

/// The server's single configuration record.
pub struct Config {
    pub _id: String,
    pub current_match: String,
    pub current_state: AppState,
    pub current_bracket_set: u32,
    pub current_bracket: u32,
    pub round_winner: u32,
}

pub struct ConfigView {
    pub id: Seq<char>,
    pub current_match: Seq<char>,
    pub current_state: AppState,
    pub current_bracket_set: u32,
    pub current_bracket: u32,
    pub round_winner: u32,
}

impl View for Config {
    type V = ConfigView;

    open spec fn view(&self) -> ConfigView {
        ConfigView {
            id: self._id@,
            current_match: self.current_match@,
            current_state: self.current_state,
            current_bracket_set: self.current_bracket_set,
            current_bracket: self.current_bracket,
            round_winner: self.round_winner,
        }
    }
}

impl Clone for Config {
    fn clone(&self) -> (r: Self)
        ensures
            r == *self,
    {
        Config {
            _id: self._id.clone(),
            current_match: self.current_match.clone(),
            current_state: self.current_state,
            current_bracket_set: self.current_bracket_set,
            current_bracket: self.current_bracket,
            round_winner: self.round_winner,
        }
    }
}

impl Config {
    /// The configuration created when none is stored yet: id `"config"`, no
    /// match selected, editing, and every index 0.
    pub fn initial() -> (c: Config)
        ensures
            c._id@ == "config"@,
            c.current_match@ == Seq::<char>::empty(),
            c.current_state == AppState::EDITING,
            c.current_bracket_set == 0,
            c.current_bracket == 0,
            c.round_winner == 0,
    {
        Config {
            _id: String::from_str("config"),
            current_match: String::new(),
            current_state: AppState::EDITING,
            current_bracket_set: 0,
            current_bracket: 0,
            round_winner: 0,
        }
    }
}

/// A match: a named tournament.
pub struct Match {
    pub _id: String,
    pub name: String,
}

impl Match {
    /// A new match with a fresh id and the given name.
    pub fn create(name: String) -> (m: Match)
        ensures
            m.name@ == name@,
            m._id@.len() == ID_LEN,
            forall|i: int| 0 <= i < m._id@.len() ==> is_url_safe(#[trigger] m._id@[i]),
    {
        Match { _id: new_id(), name }
    }
}

/// A player of a team.
pub struct Player {
    pub _id: String,
    pub name: String,
}

pub struct PlayerView {
    pub id: Seq<char>,
    pub name: Seq<char>,
}

impl View for Player {
    type V = PlayerView;

    open spec fn view(&self) -> PlayerView {
        PlayerView { id: self._id@, name: self.name@ }
    }
}

impl Clone for Player {
    fn clone(&self) -> (r: Self)
        ensures
            r == *self,
    {
        Player { _id: self._id.clone(), name: self.name.clone() }
    }
}

impl Player {
    /// A new player with a fresh id and the given name.
    pub fn create(name: String) -> (p: Player)
        ensures
            p.name@ == name@,
            p._id@.len() == ID_LEN,
            forall|i: int| 0 <= i < p._id@.len() ==> is_url_safe(#[trigger] p._id@[i]),
    {
        Player { _id: new_id(), name }
    }
}

/// A login session: a bearer token valid until `expires_on` (Unix seconds).
pub struct Session {
    pub _id: String,
    pub token: String,
    pub expires_on: u64,
}

/// How long a session lasts: one day, in seconds.
pub const SESSION_LIFETIME: u64 = 86400;

/// Length of a session's bearer token.
pub const TOKEN_LEN: usize = 128;

impl Session {
    /// A session with the given id and token that expires one day after `now`.
    pub fn starting_at(id: String, token: String, now: u64) -> (s: Session)
        requires
            now + SESSION_LIFETIME <= u64::MAX,
        ensures
            s._id == id,
            s.token == token,
            s.expires_on == now + SESSION_LIFETIME,
    {
        Session { _id: id, token, expires_on: now + SESSION_LIFETIME }
    }

    /// Whether the session has run out at time `now`: only once `now` is past
    /// `expires_on`.
    pub fn is_expired(&self, now: u64) -> (b: bool)
        ensures
            b == (now > self.expires_on),
    {
        now > self.expires_on
    }

    /// A session with the given id and token that expires one day after
    /// `now`, or `None` when a day after `now` is past the end of `u64`.
    pub fn issue_at(id: String, token: String, now: u64) -> (r: Option<Session>)
        ensures
            r is None <==> now > u64::MAX - SESSION_LIFETIME,
            r matches Some(s) ==> s._id == id && s.token == token && s.expires_on == now + SESSION_LIFETIME,
    {
        if now > u64::MAX - SESSION_LIFETIME {
            None
        } else {
            Some(Session::starting_at(id, token, now))
        }
    }

    /// A new session: a fresh id, a random token of 128 letters and digits,
    /// valid for one day from the current time; gives the time used too.
    /// `None` when the clock reads a time before the Unix epoch, or one from
    /// which a day cannot be counted (`issue_at` refuses it).
    pub fn issue() -> (r: Option<(Session, u64)>)
        ensures
            r matches Some((s, now)) ==> {
                &&& s._id@.len() == ID_LEN
                &&& forall|i: int| 0 <= i < s._id@.len() ==> is_url_safe(#[trigger] s._id@[i])
                &&& s.token@.len() == TOKEN_LEN
                &&& forall|i: int| 0 <= i < s.token@.len() ==> is_alphanumeric(#[trigger] s.token@[i])
                &&& s.expires_on == now + SESSION_LIFETIME
            },
    {
        let token = random_alphanumeric(TOKEN_LEN);
        let now = match unix_timestamp() {
            Some(now) => now,
            None => {
                return None;
            },
        };
        let id = new_id();
        match Session::issue_at(id, token, now) {
            Some(s) => Some((s, now)),
            None => None,
        }
    }
}

/// A team of a match.
pub struct Team {
    pub _id: String,
    pub name: String,
    pub match_id: String,
    pub colour: String,
    pub players: Vec<Player>,
}

pub struct TeamView {
    pub id: Seq<char>,
    pub name: Seq<char>,
    pub match_id: Seq<char>,
    pub colour: Seq<char>,
    pub players: Seq<PlayerView>,
}

impl View for Team {
    type V = TeamView;

    open spec fn view(&self) -> TeamView {
        TeamView {
            id: self._id@,
            name: self.name@,
            match_id: self.match_id@,
            colour: self.colour@,
            players: self.players@.map_values(|p: Player| p@),
        }
    }
}

impl Clone for Team {
    fn clone(&self) -> (r: Self)
        ensures
            r@ == self@,
    {
        let players = self.players.clone();
        proof {
            assert forall|i: int| 0 <= i < players@.len() implies players@[i] == self.players@[i] by {
                assert(cloned(self.players[i], players[i]));
            }
            assert(players@ =~= self.players@);
        }
        Team {
            _id: self._id.clone(),
            name: self.name.clone(),
            match_id: self.match_id.clone(),
            colour: self.colour.clone(),
            players,
        }
    }
}

impl Team {
    /// A new team of match `match_id`: a fresh id, no players, colour `#000000`.
    pub fn create(name: String, match_id: String) -> (t: Team)
        ensures
            t.name@ == name@,
            t.match_id@ == match_id@,
            t.colour@ == "#000000"@,
            t.players@.len() == 0,
            t._id@.len() == ID_LEN,
            forall|i: int| 0 <= i < t._id@.len() ==> is_url_safe(#[trigger] t._id@[i]),
    {
        Team {
            _id: new_id(),
            name,
            match_id,
            colour: String::from_str("#000000"),
            players: Vec::new(),
        }
    }
}

} // verus!
