use estm::auth::{
    bearer_token, check_session, check_session_now, generate_auth_code, login, session_cutoff, session_cutoff_at,
    verify_code, LoginError, SessionCheck,
};
use estm::db::{DBController, DB_PORT};
use estm::ids::new_id;
use estm::live::{classify_text, live_step, parse_live_message, read_first_message, LiveAction, LiveEvent, LiveState};
use estm::model::{AppState, Config, Match, Player, Session, Team};
use estm::text::{bracket_id, decimal_string};

fn session(expires_on: u64) -> Session {
    Session { _id: "s".to_string(), token: "tok".to_string(), expires_on }
}

#[test]
fn connection_uri_names_the_port() {
    assert_eq!(DBController::on_port(DB_PORT).get_connection_uri(), "mongodb://127.0.0.1:27021/estm");
    assert_eq!(DBController::on_port(0).get_connection_uri(), "mongodb://127.0.0.1:0/estm");
}

#[test]
fn bracket_ids_are_set_index_match() {
    assert_eq!(bracket_id(0, 12, "abc"), "0:12:abc");
    assert_eq!(bracket_id(305, 0, ""), "305:0:");
}

#[test]
fn auth_codes_are_six_letters_or_digits() {
    let code = generate_auth_code();
    assert_eq!(code.chars().count(), 6);
    assert!(code.chars().all(|c| c.is_ascii_alphanumeric()));
    assert!(verify_code(&code, &code.clone()));
    assert!(!verify_code(&code, &format!("{}x", code)));
}

#[test]
fn login_needs_the_right_code() {
    let code = "abc123".to_string();
    assert_eq!(login(None, &code).err(), Some(LoginError::BadBody));
    assert_eq!(LoginError::BadBody.message(), "Cannot validate request body");
    assert_eq!(login(Some("abc124".to_string()), &code).err(), Some(LoginError::IncorrectCode));
    assert_eq!(LoginError::IncorrectCode.message(), "Incorrect code");
    let (s, now) = login(Some("abc123".to_string()), &code).ok().unwrap();
    assert_eq!(s.token.chars().count(), 128);
    assert!(s.token.chars().all(|c| c.is_ascii_alphanumeric()));
    assert_eq!(s._id.chars().count(), 21);
    assert_eq!(s.expires_on, now + 86400);
    assert_eq!(LoginError::ClockUnavailable.message(), "The system clock is unavailable");
}

#[test]
fn issued_sessions_last_one_day() {
    let (s, issued_at) = Session::issue().unwrap();
    assert_eq!(s.expires_on, issued_at + 86400);
    let (check, now) = check_session_now(Some(s)).unwrap();
    assert!(now >= issued_at);
    assert!(matches!(check, SessionCheck::Valid(_)));
    let s = Session::starting_at("id".to_string(), "t".to_string(), now);
    assert_eq!(s.expires_on, now + 86400);
    assert!(matches!(check_session(Some(s), now + 86400), SessionCheck::Valid(_)));
    let s = Session::starting_at("id".to_string(), "t".to_string(), now);
    assert!(matches!(check_session(Some(s), now + 86401), SessionCheck::Expired(_)));
}

#[test]
fn session_checks() {
    assert!(matches!(check_session(None, 5), SessionCheck::Unknown));
    match check_session(Some(session(10)), 10) {
        SessionCheck::Valid(s) => assert_eq!(s._id, "s"),
        _ => panic!("valid expected"),
    }
    assert!(matches!(check_session(Some(session(10)), 11), SessionCheck::Expired(_)));
    assert!(!session(10).is_expired(10));
    assert!(session(10).is_expired(11));
}

#[test]
fn bearer_prefix_is_removed_everywhere() {
    assert_eq!(bearer_token("Bearer abc"), "abc");
    assert_eq!(bearer_token("abc"), "abc");
    assert_eq!(bearer_token("Bearer Bearer x"), "x");
    assert_eq!(bearer_token("xBearer y"), "xy");
    assert_eq!(bearer_token("BearerBearer z"), "Bearerz");
    assert_eq!(bearer_token(""), "");
    assert_eq!(bearer_token("Bearer é"), "é");
}

#[test]
fn a_login_token_reads_back_from_its_header() {
    let (s, _) = Session::issue().unwrap();
    assert_eq!(bearer_token(&format!("Bearer {}", s.token)), s.token);
}

#[test]
fn session_cutoff_keeps_the_low_bits() {
    assert_eq!(session_cutoff_at(5), 5);
    assert_eq!(session_cutoff_at(0x1_0000_0005), 5);
    assert_eq!(session_cutoff_at(u64::MAX), u32::MAX);
    let (c, now) = session_cutoff().unwrap();
    assert_eq!(c as u64, now % 0x1_0000_0000);
}

#[test]
fn records_are_created_with_fresh_ids() {
    let t = Team::create("Reds".to_string(), "m1".to_string());
    assert_eq!(t.name, "Reds");
    assert_eq!(t.match_id, "m1");
    assert_eq!(t.colour, "#000000");
    assert!(t.players.is_empty());
    assert_eq!(t._id.chars().count(), 21);
    let m = Match::create("Cup".to_string());
    assert_eq!(m.name, "Cup");
    let p = Player::create("Ann".to_string());
    assert_eq!(p.name, "Ann");
    assert_ne!(p._id, m._id);
    let id = new_id();
    assert!(id.chars().all(|c| c.is_ascii_alphanumeric() || c == '_' || c == '-'));
}

#[test]
fn initial_config_is_editing_with_no_match() {
    let c = Config::initial();
    assert_eq!(c._id, "config");
    assert_eq!(c.current_match, "");
    assert_eq!(c.current_state, AppState::EDITING);
    assert_eq!((c.current_bracket_set, c.current_bracket, c.round_winner), (0, 0, 0));
}

#[test]
fn team_clone_keeps_players() {
    let mut t = Team::create("Reds".to_string(), "m1".to_string());
    t.players.push(Player { _id: "p".to_string(), name: "Ann".to_string() });
    let c = t.clone();
    assert_eq!(c.players.len(), 1);
    assert_eq!(c.players[0].name, "Ann");
    assert_eq!(c._id, t._id);
}

#[test]
fn live_connection_authenticates_then_listens() {
    let (s, a) = live_step(LiveState::AwaitingAuth, &LiveEvent::Auth("tok".to_string()));
    assert_eq!((s, a), (LiveState::AwaitingVerdict, LiveAction::VerifyToken));
    let (s, a) = live_step(s, &LiveEvent::TokenAccepted);
    assert_eq!((s, a), (LiveState::Listening, LiveAction::Subscribe));
    let (s, a) = live_step(s, &LiveEvent::OtherText);
    assert_eq!((s, a), (LiveState::Listening, LiveAction::Wait));
    let (s, a) = live_step(s, &LiveEvent::OtherFrame);
    assert_eq!((s, a), (LiveState::Listening, LiveAction::Wait));
    let (s, a) = live_step(s, &LiveEvent::CloseFrame);
    assert_eq!((s, a), (LiveState::Closed, LiveAction::Disconnect));
    assert_eq!(live_step(s, &LiveEvent::TokenAccepted), (LiveState::Closed, LiveAction::Disconnect));
}

#[test]
fn live_connection_rejections() {
    assert_eq!(
        live_step(LiveState::AwaitingAuth, &LiveEvent::OtherText),
        (LiveState::Closed, LiveAction::Disconnect)
    );
    assert_eq!(
        live_step(LiveState::AwaitingAuth, &LiveEvent::Malformed),
        (LiveState::Closed, LiveAction::Abort)
    );
    assert_eq!(
        live_step(LiveState::AwaitingAuth, &LiveEvent::StreamEnded),
        (LiveState::Closed, LiveAction::Abort)
    );
    assert_eq!(
        live_step(LiveState::AwaitingAuth, &LiveEvent::ReceiveError),
        (LiveState::Closed, LiveAction::Disconnect)
    );
    assert_eq!(
        live_step(LiveState::AwaitingVerdict, &LiveEvent::TokenRejected),
        (LiveState::Closed, LiveAction::Disconnect)
    );
    assert_eq!(
        live_step(LiveState::Listening, &LiveEvent::StreamEnded),
        (LiveState::Closed, LiveAction::Disconnect)
    );
}

#[test]
fn numbers_are_written_in_decimal() {
    assert_eq!(decimal_string(0), "0");
    assert_eq!(decimal_string(7), "7");
    assert_eq!(decimal_string(10), "10");
    assert_eq!(decimal_string(27021), "27021");
    assert_eq!(decimal_string(u64::MAX), "18446744073709551615");
}

#[test]
fn first_messages_are_read_as_json() {
    assert_eq!(
        parse_live_message(r#"{"type":"auth","token":"abc"}"#),
        Some((Some("auth".to_string()), Some("abc".to_string())))
    );
    assert_eq!(parse_live_message(r#"{"type":3}"#), Some((None, None)));
    assert_eq!(parse_live_message("not json"), None);
    assert!(matches!(read_first_message(r#"{"type":"auth","token":"abc"}"#), LiveEvent::Auth(t) if t == "abc"));
    assert!(matches!(read_first_message(r#"{"type":"ping"}"#), LiveEvent::OtherText));
    assert!(matches!(read_first_message(r#"{"type":"auth"}"#), LiveEvent::Malformed));
    assert!(matches!(read_first_message(r#"{"token":"abc"}"#), LiveEvent::Malformed));
    assert!(matches!(read_first_message("{"), LiveEvent::Malformed));
    assert!(matches!(classify_text(None), LiveEvent::Malformed));
    assert!(matches!(classify_text(Some((Some("auth".to_string()), None))), LiveEvent::Malformed));
}

#[test]
fn sessions_are_issued_unless_a_day_cannot_be_counted() {
    let s = Session::issue_at("id".to_string(), "tok".to_string(), 1_700_000_000).unwrap();
    assert_eq!(s._id, "id");
    assert_eq!(s.token, "tok");
    assert_eq!(s.expires_on, 1_700_086_400);
    let last = u64::MAX - 86400;
    assert_eq!(Session::issue_at("id".to_string(), "tok".to_string(), last).unwrap().expires_on, u64::MAX);
    assert!(Session::issue_at("id".to_string(), "tok".to_string(), last + 1).is_none());
    assert!(Session::issue_at("id".to_string(), "tok".to_string(), u64::MAX).is_none());
}
