//! The decisions behind the server's requests on a match: starting and
//! cancelling it, declaring the winner of a bracket, moving to the next
//! round and reporting the current and next brackets.

use vstd::prelude::*;
use crate::model::{AppState, BracketView, Config, ConfigView, Team, TeamView};
use crate::navigation::{
    current_triple, lemma_same_ids_same_first, lemma_walk_inside_first_set, lemma_write_keeps_ids, next_pair, opt_team_view, pair_view, team_views, triple_view, walk_from,
    BracketError,
};
use crate::store::{reset_brackets, reset_writes, stored_at, write_winner, BracketStore, StoreView};
use crate::text::bracket_id_text;

verus! {

/// Why a request on the match is refused. `Bracket` carries the answer of a
/// bracket lookup; `NoTeams`, `NoRoundLeft` and the faults of `Bracket` mark
/// data on which the request cannot go on.
#[derive(Clone, Copy, Debug, PartialEq, Eq, Structural)]
pub enum Refusal {
    NotInPlayMode,
    NotInPlayModeStartFirst,
    NotInPlayingMode,
    NotInEditingMode,
    NoMatchSelected,
    WinnerNeeded,
    InvalidTeam,
    NoTeams,
    NoRoundLeft,
    Bracket(BracketError),
}

impl Refusal {
    pub open spec fn spec_is_fault(&self) -> bool {
        match *self {
            Refusal::NoTeams => true,
            Refusal::NoRoundLeft => true,
            Refusal::Bracket(e) => e.spec_is_fault(),
            _ => false,
        }
    }

    /// Whether the request cannot go on at all (rather than being answered
    /// with the refusal's message).
    #[verifier::when_used_as_spec(spec_is_fault)]
    pub fn is_fault(&self) -> (b: bool)
        ensures
            b == self.spec_is_fault(),
    {
        match self {
            Refusal::NoTeams => true,
            Refusal::NoRoundLeft => true,
            Refusal::Bracket(e) => e.is_fault(),
            _ => false,
        }
    }

    /// The text the client receives.
    pub fn message(&self) -> (s: &'static str)
        ensures
            *self == Refusal::NotInPlayMode ==> s@ == "Not in play mode"@,
            *self == Refusal::NotInPlayModeStartFirst ==> s@ == "Not in play mode, Please start a match first"@,
            *self == Refusal::NotInPlayingMode ==> s@ == "Not in playing mode, Please start a match first"@,
            *self == Refusal::NotInEditingMode ==> s@ == "Not in editing mode, Please exit any current games and then try again"@,
            *self == Refusal::NoMatchSelected ==> s@ == "No match selected, Please selected a match and then try again."@,
            *self == Refusal::WinnerNeeded ==> s@ == "You need to select a winner of the current match first"@,
            *self == Refusal::InvalidTeam ==> s@ == "Invalid team value"@,
            *self == Refusal::NoTeams ==> s@ == "The selected match has no teams"@,
            *self == Refusal::NoRoundLeft ==> s@ == "Cannot find next bracket"@,
            *self matches Refusal::Bracket(e) ==> s@ == e.message_text(),
    {
        match self {
            Refusal::NotInPlayMode => "Not in play mode",
            Refusal::NotInPlayModeStartFirst => "Not in play mode, Please start a match first",
            Refusal::NotInPlayingMode => "Not in playing mode, Please start a match first",
            Refusal::NotInEditingMode => "Not in editing mode, Please exit any current games and then try again",
            Refusal::NoMatchSelected => "No match selected, Please selected a match and then try again.",
            Refusal::WinnerNeeded => "You need to select a winner of the current match first",
            Refusal::InvalidTeam => "Invalid team value",
            Refusal::NoTeams => "The selected match has no teams",
            Refusal::NoRoundLeft => "Cannot find next bracket",
            Refusal::Bracket(e) => e.message(),
        }
    }
}

/// Allows a change to the matches only while editing.
pub fn require_editing(config: &Config) -> (r: Result<(), Refusal>)
    ensures
        r is Ok <==> config.current_state == AppState::EDITING,
        r is Err ==> r == Err::<(), Refusal>(Refusal::NotInEditingMode),
{
    match config.current_state {
        AppState::EDITING => Ok(()),
        _ => Err(Refusal::NotInEditingMode),
    }
}

/// Starts the selected match with `team_count` teams: playing, at the last
/// bracket of the first set. Refused when not editing or when no match is
/// selected; a match with no teams cannot start.
pub fn start_match(config: &mut Config, team_count: u8) -> (r: Result<(), Refusal>)
    ensures
        old(config).current_state != AppState::EDITING ==> r == Err::<(), Refusal>(Refusal::NotInEditingMode),
        old(config).current_state == AppState::EDITING && old(config).current_match@.len() == 0
            ==> r == Err::<(), Refusal>(Refusal::NoMatchSelected),
        old(config).current_state == AppState::EDITING && old(config).current_match@.len() > 0 && team_count == 0
            ==> r == Err::<(), Refusal>(Refusal::NoTeams),
        r is Err ==> *final(config) == *old(config),
        r is Ok <==> (old(config).current_state == AppState::EDITING && old(config).current_match@.len() > 0 && team_count > 0),
        r is Ok ==> *final(config) == (Config {
            current_state: AppState::PLAYING,
            current_bracket_set: 0,
            current_bracket: (team_count - 1) as u32,
            ..*old(config)
        }),
{
    match config.current_state {
        AppState::EDITING => {},
        _ => {
            return Err(Refusal::NotInEditingMode);
        },
    }
    if config.current_match.as_str().is_empty() {
        return Err(Refusal::NoMatchSelected);
    }
    if team_count == 0 {
        return Err(Refusal::NoTeams);
    }
    let bracket_index = team_count as u32 - 1;
    config.current_state = AppState::PLAYING;
    config.current_bracket_set = 0;
    config.current_bracket = bracket_index;
    Ok(())
}

/// Cancels the running match: back to editing, with every winner outside
/// the first set cleared. Refused when not playing.
pub fn cancel_match(config: &mut Config, store: &mut BracketStore) -> (r: Result<(), Refusal>)
    ensures
        r is Ok <==> old(config).current_state == AppState::PLAYING,
        r is Err ==> r == Err::<(), Refusal>(Refusal::NotInPlayModeStartFirst) && *final(config) == *old(config)
            && final(store)@ == old(store)@,
        r is Ok ==> *final(config) == (Config { current_state: AppState::EDITING, ..*old(config) }),
        r is Ok ==> final(store)@.brackets == reset_brackets(old(store)@.brackets, old(config).current_match@),
        r is Ok ==> final(store)@.writes == old(store)@.writes + reset_writes(old(store)@.brackets, old(config).current_match@),
        r is Ok ==> forall|k: int|
            0 <= k < old(store)@.brackets.len() && #[trigger] old(store)@.brackets[k].match_id == old(config).current_match@
                && !(old(store)@.brackets[k].id.len() >= 2 && old(store)@.brackets[k].id[0] == '0' && old(store)@.brackets[k].id[1] == ':')
                ==> final(store)@.brackets[k].winner == -1,
{
    match config.current_state {
        AppState::PLAYING => {},
        _ => {
            return Err(Refusal::NotInPlayModeStartFirst);
        },
    }
    config.current_state = AppState::EDITING;
    let ghost s0 = store@.brackets;
    store.reset_all(&config.current_match);
    proof {
        assert forall|k: int| 0 <= k < s0.len() implies #[trigger] reset_brackets(s0, config.current_match@)[k]
            == (if s0[k].match_id == config.current_match@ && !(s0[k].id.len() >= 2 && s0[k].id[0] == '0' && s0[k].id[1] == ':') {
                BracketView { winner: -1, ..s0[k] }
            } else {
                s0[k]
            }) by {
            lemma_cancel_clears_all_but_first_set(s0, config.current_match@, k);
        }
    }
    Ok(())
}

/// The store after declaring `team` (1 or 2) the winner of the current
/// bracket, or why it cannot be declared.
pub open spec fn declare_winner(st: StoreView, c: ConfigView, team: Seq<char>) -> (StoreView, Result<(), Refusal>) {
    let m = c.current_match;
    let set = c.current_bracket_set;
    let index = c.current_bracket;
    if c.current_state != AppState::PLAYING {
        (st, Err(Refusal::NotInPlayingMode))
    } else {
        match stored_at(st.brackets, set, index, m) {
            None => (st, Err(Refusal::Bracket(BracketError::MissingBracket))),
            Some(b) => if team != "team1"@ && team != "team2"@ {
                (st, Err(Refusal::InvalidTeam))
            } else if set == 0 {
                (st, Err(Refusal::Bracket(BracketError::IndexOverflow)))
            } else {
                let side = if team == "team1"@ { b.team1 } else { b.team2 };
                match stored_at(st.brackets, (set - 1) as u32, side as u32, m) {
                    None => (st, Err(Refusal::Bracket(BracketError::MissingBracket))),
                    Some(f) => (
                        write_winner(st, bracket_id_text(set as nat, index as nat, m), f.winner, (f.winner as u32) as int),
                        Ok(()),
                    ),
                }
            },
        }
    }
}

/// Declares `team` (`"team1"` or `"team2"`) the winner of the current
/// bracket: the bracket's winner becomes the winner of the bracket of the set
/// before that the side names. Refused when not playing or for another team
/// value.
pub fn record_winner(config: &Config, store: &mut BracketStore, team: &String) -> (r: Result<(), Refusal>)
    ensures
        (final(store)@, r) == declare_winner(old(store)@, config@, team@),
        stored_at(old(store)@.brackets, config.current_bracket_set, config.current_bracket, config.current_match@) matches Some(b)
            ==> stored_at(
                old(store)@.brackets,
                (config.current_bracket_set - 1) as u32,
                (if team@ == "team1"@ { b.team1 } else { b.team2 }) as u32,
                config.current_match@,
            ) is Some
            ==> (config.current_state == AppState::PLAYING && config.current_bracket_set >= 1
                && (team@ == "team1"@ || team@ == "team2"@))
            ==> r is Ok,
{
    proof {
        reveal_strlit("team1");
        reveal_strlit("team2");
        if config.current_state == AppState::PLAYING && config.current_bracket_set >= 1 && (team@ == "team1"@ || team@ == "team2"@)
            && stored_at(store@.brackets, config.current_bracket_set, config.current_bracket, config.current_match@) is Some {
            let b = stored_at(store@.brackets, config.current_bracket_set, config.current_bracket, config.current_match@)->0;
            if stored_at(
                store@.brackets,
                (config.current_bracket_set - 1) as u32,
                (if team@ == "team1"@ { b.team1 } else { b.team2 }) as u32,
                config.current_match@,
            ) is Some {
                lemma_declaring_a_stored_side_succeeds(store@, config@, team@);
            }
        }
    }
    match config.current_state {
        AppState::PLAYING => {},
        _ => {
            return Err(Refusal::NotInPlayingMode);
        },
    }
    let current = match store.get_bracket(config.current_bracket_set, config.current_bracket, &config.current_match) {
        Some(b) => b,
        None => {
            return Err(Refusal::Bracket(BracketError::MissingBracket));
        },
    };
    let team1 = String::from_str("team1");
    let team2 = String::from_str("team2");
    let side = if *team == team1 {
        current.team1
    } else if *team == team2 {
        current.team2
    } else {
        return Err(Refusal::InvalidTeam);
    };
    if config.current_bracket_set == 0 {
        return Err(Refusal::Bracket(BracketError::IndexOverflow));
    }
    let winner = match store.get_bracket(config.current_bracket_set - 1, side as u32, &config.current_match) {
        Some(b) => b.winner,
        None => {
            return Err(Refusal::Bracket(BracketError::MissingBracket));
        },
    };
    store.set_winner(config.current_bracket_set, config.current_bracket, &config.current_match, winner);
    Ok(())
}

/// The store after moving to the next round, the configuration moved there,
/// or why the round cannot move on.
pub open spec fn next_round(st: StoreView, c: ConfigView) -> (StoreView, Result<(u32, u32), Refusal>) {
    if c.current_state != AppState::PLAYING {
        (st, Err(Refusal::NotInPlayModeStartFirst))
    } else {
        match stored_at(st.brackets, c.current_bracket_set, c.current_bracket, c.current_match) {
            None => (st, Err(Refusal::Bracket(BracketError::MissingBracket))),
            Some(b) => if b.winner == -1 {
                (st, Err(Refusal::WinnerNeeded))
            } else {
                let (st1, r) = walk_from(st, c);
                match r {
                    Ok((ns, ni, _)) => (st1, Ok((ns, ni))),
                    Err(e) => (st1, Err(if e == BracketError::NoNextBracket { Refusal::NoRoundLeft } else { Refusal::Bracket(e) })),
                }
            },
        }
    }
}

/// Moves a playing match on to the next bracket that pairs two teams, once
/// the current bracket has a winner; single-team brackets on the way pass
/// their team on, as `find_next_full_bracket` does.
pub fn advance_round(config: &mut Config, store: &mut BracketStore) -> (r: Result<(), Refusal>)
    ensures
        ({
            let (st, res) = next_round(old(store)@, old(config)@);
            &&& final(store)@ == st
            &&& match res {
                Ok((ns, ni)) => r is Ok && *final(config) == (Config {
                    current_bracket_set: ns,
                    current_bracket: ni,
                    ..*old(config)
                }),
                Err(e) => r == Err::<(), Refusal>(e) && *final(config) == *old(config),
            }
        }),
        stored_at(old(store)@.brackets, old(config).current_bracket_set, old(config).current_bracket, old(config).current_match@) matches Some(b)
            ==> (old(config).current_state == AppState::PLAYING && b.winner == -1)
            ==> (r == Err::<(), Refusal>(Refusal::WinnerNeeded) && *final(config) == *old(config) && final(store)@ == old(store)@),
{
    proof {
        if config.current_state == AppState::PLAYING {
            if let Some(b) = stored_at(store@.brackets, config.current_bracket_set, config.current_bracket, config.current_match@) {
                if b.winner == -1 {
                    lemma_undecided_round_stays(store@, config@);
                }
            }
        }
    }
    match config.current_state {
        AppState::PLAYING => {},
        _ => {
            return Err(Refusal::NotInPlayModeStartFirst);
        },
    }
    let current = match store.get_bracket(config.current_bracket_set, config.current_bracket, &config.current_match) {
        Some(b) => b,
        None => {
            return Err(Refusal::Bracket(BracketError::MissingBracket));
        },
    };
    if current.winner == -1 {
        return Err(Refusal::WinnerNeeded);
    }
    if let Err(e) = store.check_walk_start(config) {
        proof {
            lemma_walk_inside_first_set(store@, config@);
        }
        return Err(Refusal::Bracket(e));
    }
    match store.find_next_full_bracket(config.clone()) {
        Ok((moved, _)) => {
            config.current_bracket_set = moved.current_bracket_set;
            config.current_bracket = moved.current_bracket;
            Ok(())
        },
        Err(e) => {
            if e == BracketError::NoNextBracket {
                Err(Refusal::NoRoundLeft)
            } else {
                Err(Refusal::Bracket(e))
            }
        },
    }
}

/// The next pair and current triple as seen by a report: a fault of either
/// lookup stops the report, in the order the lookups run.
pub open spec fn report_views(
    next: Result<(Option<TeamView>, Option<TeamView>), BracketError>,
    cur: Result<(Option<TeamView>, Option<TeamView>, u8), BracketError>,
    cur_first: bool,
) -> Result<((Option<TeamView>, Option<TeamView>), (Option<TeamView>, Option<TeamView>, u8)), Refusal> {
    let next_fault = next matches Err(e) && e.spec_is_fault();
    let cur_fault = cur matches Err(e) && e.spec_is_fault();
    if cur_first && cur_fault {
        Err(Refusal::Bracket(cur->Err_0))
    } else if next_fault {
        Err(Refusal::Bracket(next->Err_0))
    } else if cur_fault {
        Err(Refusal::Bracket(cur->Err_0))
    } else {
        match next {
            Err(e) => Err(Refusal::Bracket(e)),
            Ok(p) => match cur {
                Ok(t) => Ok((p, t)),
                Err(e) => if cur_first { Err(Refusal::Bracket(e)) } else { Ok((p, (None, None, 0u8))) },
            },
        }
    }
}

pub open spec fn report_view(
    r: Result<((Option<Team>, Option<Team>), (Option<Team>, Option<Team>, u8)), Refusal>,
) -> Result<((Option<TeamView>, Option<TeamView>), (Option<TeamView>, Option<TeamView>, u8)), Refusal> {
    match r {
        Ok(((a, b), (c, d, w))) => Ok(((opt_team_view(a), opt_team_view(b)), (opt_team_view(c), opt_team_view(d), w))),
        Err(e) => Err(e),
    }
}

/// The brackets shown to a client while a match is playing: the teams of
/// the next bracket (looked up first, writing the winners of single-team
/// brackets on the way) and the teams and winner of the current one (empty
/// when it has no second team). Refused when not playing; the next
/// bracket's error is reported.
pub fn current_report(config: &Config, store: &mut BracketStore, teams: &Vec<Team>) -> (r: Result<((Option<Team>, Option<Team>), (Option<Team>, Option<Team>, u8)), Refusal>)
    ensures
        config.current_state != AppState::PLAYING ==> r == Err::<((Option<Team>, Option<Team>), (Option<Team>, Option<Team>, u8)), Refusal>(Refusal::NotInPlayMode)
            && final(store)@ == old(store)@,
        config.current_state == AppState::PLAYING ==> {
            let (st1, next) = next_pair(old(store)@, team_views(teams@), config@);
            &&& final(store)@ == st1
            &&& report_view(r) == report_views(next, current_triple(st1.brackets, team_views(teams@), config@), false)
        },
{
    match config.current_state {
        AppState::PLAYING => {},
        _ => {
            return Err(Refusal::NotInPlayMode);
        },
    }
    let next = store.get_next_bracket(config.clone(), teams);
    if let Err(e) = next {
        if e.is_fault() {
            return Err(Refusal::Bracket(e));
        }
    }
    if let Err(e) = store.check_current_bracket(config, teams) {
        return Err(Refusal::Bracket(e));
    }
    let current = store.get_current_bracket(config, teams);
    let next = match next {
        Ok(p) => p,
        Err(e) => {
            return Err(Refusal::Bracket(e));
        },
    };
    let current = match current {
        Ok(t) => t,
        Err(_) => (None, None, 0),
    };
    Ok((next, current))
}

/// The brackets shown after moving to the next round: the current bracket's
/// teams and winner (looked up first) and the next bracket's teams (writing
/// the winners of single-team brackets on the way). The next bracket's
/// error is reported before the current one's.
pub fn round_report(config: &Config, store: &mut BracketStore, teams: &Vec<Team>) -> (r: Result<((Option<Team>, Option<Team>), (Option<Team>, Option<Team>, u8)), Refusal>)
    ensures
        ({
            let cur = current_triple(old(store)@.brackets, team_views(teams@), config@);
            let (st1, next) = next_pair(old(store)@, team_views(teams@), config@);
            &&& (cur matches Err(e) && e.spec_is_fault()) ==> final(store)@ == old(store)@
            &&& !(cur matches Err(e) && e.spec_is_fault()) ==> final(store)@ == st1
            &&& report_view(r) == report_views(next, cur, true)
        }),
{
    if let Err(e) = store.check_current_bracket(config, teams) {
        return Err(Refusal::Bracket(e));
    }
    let current = store.get_current_bracket(config, teams);
    let next = store.get_next_bracket(config.clone(), teams);
    if let Err(e) = next {
        if e.is_fault() {
            return Err(Refusal::Bracket(e));
        }
    }
    let next = match next {
        Ok(p) => p,
        Err(e) => {
            return Err(Refusal::Bracket(e));
        },
    };
    let current = match current {
        Ok(t) => t,
        Err(e) => {
            return Err(Refusal::Bracket(e));
        },
    };
    Ok((next, current))
}

/// What editing a player's name does: an empty name removes the player.
#[derive(Clone, Copy, Debug, PartialEq, Eq, Structural)]
pub enum PlayerUpdate {
    Remove,
    Rename,
}

/// The update that a new player name asks for: removal when it is empty, a
/// rename otherwise.
pub fn player_update(name: &String) -> (u: PlayerUpdate)
    ensures
        u == (if name@.len() == 0 { PlayerUpdate::Remove } else { PlayerUpdate::Rename }),
{
    if name.as_str().is_empty() {
        PlayerUpdate::Remove
    } else {
        PlayerUpdate::Rename
    }
}

/// Declaring a winner stores, as the current bracket's winner, the winner of
/// the bracket that the chosen side names; once that winner is decided, the
/// round may move on without being refused for want of a winner.
pub proof fn lemma_declared_winner_lets_round_move_on(st: StoreView, c: ConfigView, team: Seq<char>)
    requires
        declare_winner(st, c, team).1 is Ok,
    ensures
        ({
            let m = c.current_match;
            let b = stored_at(st.brackets, c.current_bracket_set, c.current_bracket, m).unwrap();
            let side = if team == "team1"@ { b.team1 } else { b.team2 };
            let f = stored_at(st.brackets, (c.current_bracket_set - 1) as u32, side as u32, m).unwrap();
            let st1 = declare_winner(st, c, team).0;
            &&& stored_at(st1.brackets, c.current_bracket_set, c.current_bracket, m) == Some(BracketView { winner: f.winner, ..b })
            &&& f.winner != -1 ==> next_round(st1, c).1 != Err::<(u32, u32), Refusal>(Refusal::WinnerNeeded)
        }),
{
    let m = c.current_match;
    let b = stored_at(st.brackets, c.current_bracket_set, c.current_bracket, m).unwrap();
    let side = if team == "team1"@ { b.team1 } else { b.team2 };
    let f = stored_at(st.brackets, (c.current_bracket_set - 1) as u32, side as u32, m).unwrap();
    let id = bracket_id_text(c.current_bracket_set as nat, c.current_bracket as nat, m);
    let st1 = write_winner(st, id, f.winner, (f.winner as u32) as int);
    lemma_write_keeps_ids(st, id, f.winner, (f.winner as u32) as int);
    lemma_same_ids_same_first(st.brackets, st1.brackets, id);
    let i = crate::store::first_with_id(st.brackets, id).unwrap();
    assert(st1.brackets[i] == BracketView { winner: f.winner, ..b });
}

/// In play, with the current bracket in a set after the first and the
/// bracket of the set before that the chosen side names both stored,
/// declaring `"team1"` or `"team2"` is never refused: the current bracket's
/// winner becomes that bracket's winner, and the write is logged.
pub proof fn lemma_declaring_a_stored_side_succeeds(st: StoreView, c: ConfigView, team: Seq<char>)
    requires
        c.current_state == AppState::PLAYING,
        c.current_bracket_set >= 1,
        team == "team1"@ || team == "team2"@,
        stored_at(st.brackets, c.current_bracket_set, c.current_bracket, c.current_match) matches Some(b)
            ==> stored_at(
                st.brackets,
                (c.current_bracket_set - 1) as u32,
                (if team == "team1"@ { b.team1 } else { b.team2 }) as u32,
                c.current_match,
            ) is Some,
        stored_at(st.brackets, c.current_bracket_set, c.current_bracket, c.current_match) is Some,
    ensures
        declare_winner(st, c, team).1 is Ok,
        ({
            let m = c.current_match;
            let b = stored_at(st.brackets, c.current_bracket_set, c.current_bracket, m)->0;
            let side = if team == "team1"@ { b.team1 } else { b.team2 };
            let f = stored_at(st.brackets, (c.current_bracket_set - 1) as u32, side as u32, m)->0;
            let st1 = declare_winner(st, c, team).0;
            &&& stored_at(st1.brackets, c.current_bracket_set, c.current_bracket, m) == Some(BracketView { winner: f.winner, ..b })
            &&& st1.writes == st.writes.push(crate::store::WinnerWriteView {
                id: bracket_id_text(c.current_bracket_set as nat, c.current_bracket as nat, m),
                winner: (f.winner as u32) as int,
            })
        }),
{
    lemma_declared_winner_lets_round_move_on(st, c, team);
}

/// In play, a round whose current bracket is stored without a winner cannot
/// move on: the answer is `WinnerNeeded`, and nothing is written.
pub proof fn lemma_undecided_round_stays(st: StoreView, c: ConfigView)
    requires
        c.current_state == AppState::PLAYING,
        stored_at(st.brackets, c.current_bracket_set, c.current_bracket, c.current_match) matches Some(b) && b.winner == -1,
    ensures
        next_round(st, c) == (st, Err::<(u32, u32), Refusal>(Refusal::WinnerNeeded)),
{
}

/// In play, once the current bracket is stored with a winner, the round
/// moves to the two-team bracket that the walk finds, keeping the store the
/// walk leaves; with no such bracket ahead it answers `NoRoundLeft`.
pub proof fn lemma_decided_round_moves_on(st: StoreView, c: ConfigView)
    requires
        c.current_state == AppState::PLAYING,
        stored_at(st.brackets, c.current_bracket_set, c.current_bracket, c.current_match) matches Some(b) && b.winner != -1,
    ensures
        walk_from(st, c).1 matches Ok((ns, ni, _)) ==> next_round(st, c) == (walk_from(st, c).0, Ok::<(u32, u32), Refusal>((ns, ni))),
        walk_from(st, c).1 == Err::<(u32, u32, BracketView), BracketError>(BracketError::NoNextBracket)
            ==> next_round(st, c) == (walk_from(st, c).0, Err::<(u32, u32), Refusal>(Refusal::NoRoundLeft)),
{
}

/// Cancelling clears the winner of every bracket of the match whose id does
/// not start with `"0:"`, and leaves every other bracket, and the order and
/// number of brackets, as they were.
pub proof fn lemma_cancel_clears_all_but_first_set(s: Seq<BracketView>, m: Seq<char>, k: int)
    requires
        0 <= k < s.len(),
    ensures
        reset_brackets(s, m).len() == s.len(),
        (s[k].match_id == m && !(s[k].id.len() >= 2 && s[k].id[0] == '0' && s[k].id[1] == ':'))
            ==> reset_brackets(s, m)[k] == (BracketView { winner: -1, ..s[k] }),
        (s[k].match_id != m || (s[k].id.len() >= 2 && s[k].id[0] == '0' && s[k].id[1] == ':'))
            ==> reset_brackets(s, m)[k] == s[k],
{
}

/// Declaring a winner changes nothing when refused: outside play it is
/// refused as not playing, and in play, with the current bracket stored, any
/// team value other than `"team1"` and `"team2"` is refused as invalid.
pub proof fn lemma_declare_refusals(st: StoreView, c: ConfigView, team: Seq<char>)
    ensures
        declare_winner(st, c, team).1 is Err ==> declare_winner(st, c, team).0 == st,
        c.current_state != AppState::PLAYING
            ==> declare_winner(st, c, team) == (st, Err::<(), Refusal>(Refusal::NotInPlayingMode)),
        (c.current_state == AppState::PLAYING && team != "team1"@ && team != "team2"@
            && stored_at(st.brackets, c.current_bracket_set, c.current_bracket, c.current_match) is Some)
            ==> declare_winner(st, c, team) == (st, Err::<(), Refusal>(Refusal::InvalidTeam)),
{
}

/// Outside play the round does not move and nothing is written.
pub proof fn lemma_round_needs_play(st: StoreView, c: ConfigView)
    requires
        c.current_state != AppState::PLAYING,
    ensures
        next_round(st, c) == (st, Err::<(u32, u32), Refusal>(Refusal::NotInPlayModeStartFirst)),
{
}

} // verus!
