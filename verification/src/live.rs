//! The live-update connection: a client must first authenticate with a
//! valid session token; then it receives every broadcast until it closes.

use vstd::prelude::*;

verus! {

/// Where a live connection stands.
#[derive(Clone, Copy, Debug, PartialEq, Eq, Structural)]
pub enum LiveState {
    /// Waiting for the first message, which must ask to authenticate.
    AwaitingAuth,
    /// The token of an authentication request is being checked.
    AwaitingVerdict,
    /// Authenticated: broadcasts are forwarded until the client leaves.
    Listening,
    /// The connection is over.
    Closed,
}

/// What happened on a live connection.
pub enum LiveEvent {
    /// The client's stream ended.
    StreamEnded,
    /// Receiving from the client failed.
    ReceiveError,
    /// A text message asking to authenticate, with its session token.
    Auth(String),
    /// A text message of another type.
    OtherText,
    /// A first text message that is not JSON with a text `type`, or an
    /// authentication request without a text `token`.
    Malformed,
    /// A close frame.
    CloseFrame,
    /// Any other frame.
    OtherFrame,
    /// The session token was found valid.
    TokenAccepted,
    /// The session token was not found valid.
    TokenRejected,
}

/// What the connection's owner does next.
#[derive(Clone, Copy, Debug, PartialEq, Eq, Structural)]
pub enum LiveAction {
    /// Wait for the next message.
    Wait,
    /// Check the token of the authentication request.
    VerifyToken,
    /// Start forwarding broadcasts to the client, then wait.
    Subscribe,
    /// Stop serving the connection.
    Disconnect,
    /// The first message never came or is malformed: the connection cannot
    /// be served at all.
    Abort,
}

/// The spec view of an event, with the token as characters.
pub enum LiveEventView {
    StreamEnded,
    ReceiveError,
    Auth(Seq<char>),
    OtherText,
    Malformed,
    CloseFrame,
    OtherFrame,
    TokenAccepted,
    TokenRejected,
}

impl View for LiveEvent {
    type V = LiveEventView;

    open spec fn view(&self) -> LiveEventView {
        match self {
            LiveEvent::StreamEnded => LiveEventView::StreamEnded,
            LiveEvent::ReceiveError => LiveEventView::ReceiveError,
            LiveEvent::Auth(t) => LiveEventView::Auth(t@),
            LiveEvent::OtherText => LiveEventView::OtherText,
            LiveEvent::Malformed => LiveEventView::Malformed,
            LiveEvent::CloseFrame => LiveEventView::CloseFrame,
            LiveEvent::OtherFrame => LiveEventView::OtherFrame,
            LiveEvent::TokenAccepted => LiveEventView::TokenAccepted,
            LiveEvent::TokenRejected => LiveEventView::TokenRejected,
        }
    }
}

/// What a text message holds, as JSON: `None` when it is not JSON;
/// otherwise its `type` and `token` members, each when it is a string.
pub uninterp spec fn live_message_fields(text: Seq<char>) -> Option<(Option<Seq<char>>, Option<Seq<char>>)>;

pub open spec fn fields_view(p: Option<(Option<String>, Option<String>)>) -> Option<(Option<Seq<char>>, Option<Seq<char>>)> {
    match p {
        None => None,
        Some((kind, token)) => Some((
            match kind { Some(k) => Some(k@), None => None },
            match token { Some(t) => Some(t@), None => None },
        )),
    }
}

/// Reads a text message as JSON: `None` when it is not JSON, otherwise its
/// `type` and `token` members, each when it is a string.
/// Trusted: `serde_json::from_str` into a `serde_json::Value`, whose result
/// rests on the text alone; indexing a `Value` by a key gives `Null` for a
/// missing member or a non-object, and `as_str` gives the text of a string.
/// The contract names the result rather than stating JSON's grammar.
#[verifier::external_body]
pub fn parse_live_message(text: &str) -> (r: Option<(Option<String>, Option<String>)>)
    ensures
        fields_view(r) == live_message_fields(text@),
{
    match serde_json::from_str::<serde_json::Value>(text) {
        Ok(msg) => Some((msg["type"].as_str().map(String::from), msg["token"].as_str().map(String::from))),
        Err(_) => None,
    }
}

/// The event that a first text message is, from its JSON fields.
pub open spec fn first_message_event(fields: Option<(Option<Seq<char>>, Option<Seq<char>>)>) -> LiveEventView {
    match fields {
        None => LiveEventView::Malformed,
        Some((None, _)) => LiveEventView::Malformed,
        Some((Some(kind), token)) => if kind == "auth"@ {
            match token {
                Some(t) => LiveEventView::Auth(t),
                None => LiveEventView::Malformed,
            }
        } else {
            LiveEventView::OtherText
        },
    }
}

/// The event that a first text message is, from its JSON fields: an
/// authentication request with its token, another type, or malformed.
pub fn classify_text(parsed: Option<(Option<String>, Option<String>)>) -> (e: LiveEvent)
    ensures
        e@ == first_message_event(fields_view(parsed)),
{
    proof {
        reveal_strlit("auth");
    }
    match parsed {
        None => LiveEvent::Malformed,
        Some((None, _)) => LiveEvent::Malformed,
        Some((Some(kind), token)) => {
            let auth = String::from_str("auth");
            if kind == auth {
                match token {
                    Some(t) => LiveEvent::Auth(t),
                    None => LiveEvent::Malformed,
                }
            } else {
                LiveEvent::OtherText
            }
        },
    }
}

/// The event that the first text message of a connection is.
pub fn read_first_message(text: &str) -> (e: LiveEvent)
    ensures
        e@ == first_message_event(live_message_fields(text@)),
{
    classify_text(parse_live_message(text))
}

/// The transition of a live connection on an event.
pub open spec fn live_transition(state: LiveState, event: LiveEventView) -> (LiveState, LiveAction) {
    match state {
        LiveState::AwaitingAuth => match event {
            LiveEventView::StreamEnded => (LiveState::Closed, LiveAction::Abort),
            LiveEventView::Malformed => (LiveState::Closed, LiveAction::Abort),
            LiveEventView::Auth(_) => (LiveState::AwaitingVerdict, LiveAction::VerifyToken),
            _ => (LiveState::Closed, LiveAction::Disconnect),
        },
        LiveState::AwaitingVerdict => match event {
            LiveEventView::TokenAccepted => (LiveState::Listening, LiveAction::Subscribe),
            _ => (LiveState::Closed, LiveAction::Disconnect),
        },
        LiveState::Listening => match event {
            LiveEventView::StreamEnded => (LiveState::Closed, LiveAction::Disconnect),
            LiveEventView::ReceiveError => (LiveState::Closed, LiveAction::Disconnect),
            LiveEventView::CloseFrame => (LiveState::Closed, LiveAction::Disconnect),
            _ => (LiveState::Listening, LiveAction::Wait),
        },
        LiveState::Closed => (LiveState::Closed, LiveAction::Disconnect),
    }
}

/// The next state and action of a live connection.
pub fn live_step(state: LiveState, event: &LiveEvent) -> (r: (LiveState, LiveAction))
    ensures
        r == live_transition(state, event@),
{
    match state {
        LiveState::AwaitingAuth => match event {
            LiveEvent::StreamEnded => (LiveState::Closed, LiveAction::Abort),
            LiveEvent::Malformed => (LiveState::Closed, LiveAction::Abort),
            LiveEvent::Auth(_) => (LiveState::AwaitingVerdict, LiveAction::VerifyToken),
            _ => (LiveState::Closed, LiveAction::Disconnect),
        },
        LiveState::AwaitingVerdict => match event {
            LiveEvent::TokenAccepted => (LiveState::Listening, LiveAction::Subscribe),
            _ => (LiveState::Closed, LiveAction::Disconnect),
        },
        LiveState::Listening => match event {
            LiveEvent::StreamEnded => (LiveState::Closed, LiveAction::Disconnect),
            LiveEvent::ReceiveError => (LiveState::Closed, LiveAction::Disconnect),
            LiveEvent::CloseFrame => (LiveState::Closed, LiveAction::Disconnect),
            _ => (LiveState::Listening, LiveAction::Wait),
        },
        LiveState::Closed => (LiveState::Closed, LiveAction::Disconnect),
    }
}

/// A client is subscribed to broadcasts only when its token was accepted
/// right after it asked to authenticate.
pub proof fn lemma_subscribe_needs_accepted_token(state: LiveState, event: LiveEventView)
    ensures
        live_transition(state, event).1 == LiveAction::Subscribe
            <==> (state == LiveState::AwaitingVerdict && event == LiveEventView::TokenAccepted),
{
}

/// Only an authentication request leads to a token check, and only as the
/// first message.
pub proof fn lemma_verify_only_first_auth(state: LiveState, event: LiveEventView)
    ensures
        live_transition(state, event).1 == LiveAction::VerifyToken
            <==> (state == LiveState::AwaitingAuth && event is Auth),
{
}

/// The connection is given up only when its first message never comes or
/// is malformed.
pub proof fn lemma_abort_only_on_bad_first_message(state: LiveState, event: LiveEventView)
    ensures
        live_transition(state, event).1 == LiveAction::Abort
            <==> (state == LiveState::AwaitingAuth && (event == LiveEventView::StreamEnded || event == LiveEventView::Malformed)),
{
}

/// A closed connection stays closed and does nothing more.
pub proof fn lemma_closed_is_final(event: LiveEventView)
    ensures
        live_transition(LiveState::Closed, event) == (LiveState::Closed, LiveAction::Disconnect),
{
}

/// Once listening, the client keeps listening until its stream ends, fails
/// or is closed.
pub proof fn lemma_listening_until_close(event: LiveEventView)
    ensures
        live_transition(LiveState::Listening, event).0 == LiveState::Listening
            <==> !(event == LiveEventView::StreamEnded || event == LiveEventView::ReceiveError || event == LiveEventView::CloseFrame),
{
}

} // verus!
