//! Logging in and checking sessions: the start-up code, bearer tokens,
//! expiry and the clean-up of old sessions.

use vstd::prelude::*;
use crate::ids::{is_alphanumeric, random_alphanumeric, unix_timestamp};
use crate::model::{Session, SESSION_LIFETIME, TOKEN_LEN};

verus! {

/// Length of the code that a user types to log in.
pub const AUTH_CODE_LEN: usize = 6;

/// A fresh random login code of six ASCII letters and digits.
pub fn generate_auth_code() -> (code: String)
    ensures
        code@.len() == AUTH_CODE_LEN,
        forall|i: int| 0 <= i < code@.len() ==> is_alphanumeric(#[trigger] code@[i]),
{
    random_alphanumeric(AUTH_CODE_LEN)
}

/// Whether `code` is the login code.
pub fn verify_code(auth_code: &String, code: &String) -> (b: bool)
    ensures
        b == (auth_code@ == code@),
{
    *auth_code == *code
}

/// Why a login is refused.
#[derive(Clone, Copy, Debug, PartialEq, Eq, Structural)]
pub enum LoginError {
    /// The request carries no code as text: answered with status 400.
    BadBody,
    /// The code is not the login code: answered with status 401.
    IncorrectCode,
    /// The clock gives no time to start a session from: the login cannot go on.
    ClockUnavailable,
}

impl LoginError {
    pub fn message(&self) -> (s: &'static str)
        ensures
            *self == LoginError::BadBody ==> s@ == "Cannot validate request body"@,
            *self == LoginError::IncorrectCode ==> s@ == "Incorrect code"@,
            *self == LoginError::ClockUnavailable ==> s@ == "The system clock is unavailable"@,
    {
        match self {
            LoginError::BadBody => "Cannot validate request body",
            LoginError::IncorrectCode => "Incorrect code",
            LoginError::ClockUnavailable => "The system clock is unavailable",
        }
    }
}

/// A login with the code of the request body (`None` when the body has no
/// code as text): refused without a code or with a wrong one, otherwise a new
/// session for one day from the time given with it (unless the clock gives
/// no usable time).
pub fn login(code: Option<String>, auth_code: &String) -> (r: Result<(Session, u64), LoginError>)
    ensures
        code is None ==> r == Err::<(Session, u64), LoginError>(LoginError::BadBody),
        code matches Some(c) && c@ != auth_code@ ==> r == Err::<(Session, u64), LoginError>(LoginError::IncorrectCode),
        code matches Some(c) && c@ == auth_code@ ==> (r == Err::<(Session, u64), LoginError>(LoginError::ClockUnavailable) || r matches Ok(_)),
        r matches Ok((s, now)) ==> {
            &&& code matches Some(c) && c@ == auth_code@
            &&& s.token@.len() == TOKEN_LEN
            &&& forall|i: int| 0 <= i < s.token@.len() ==> is_alphanumeric(#[trigger] s.token@[i])
            &&& s._id@.len() == crate::ids::ID_LEN
            &&& s.expires_on == now + SESSION_LIFETIME
        },
{
    match code {
        None => Err(LoginError::BadBody),
        Some(c) => {
            if !verify_code(auth_code, &c) {
                Err(LoginError::IncorrectCode)
            } else {
                match Session::issue() {
                    Some(issued) => Ok(issued),
                    None => Err(LoginError::ClockUnavailable),
                }
            }
        },
    }
}

/// `s` with every occurrence of `p` removed, scanning from the left for
/// occurrences that do not overlap.
pub open spec fn strip_all(s: Seq<char>, p: Seq<char>) -> Seq<char>
    decreases s.len(),
{
    if s.len() == 0 {
        s
    } else if p.len() > 0 && p.len() <= s.len() && s.subrange(0, p.len() as int) == p {
        strip_all(s.subrange(p.len() as int, s.len() as int), p)
    } else {
        seq![s[0]] + strip_all(s.subrange(1, s.len() as int), p)
    }
}

/// Whether `p` occurs in `s` at character position `i`.
fn occurs_at(s: &str, s_len: usize, i: usize, p: &str, p_len: usize) -> (b: bool)
    requires
        s_len == s@.len(),
        p_len == p@.len(),
        i <= s_len,
    ensures
        b == (p_len <= s_len - i && s@.subrange(i as int, i + p_len) == p@),
{
    if p_len > s_len - i {
        return false;
    }
    let mut k: usize = 0;
    while k < p_len
        invariant
            s_len == s@.len(),
            p_len == p@.len(),
            i + p_len <= s_len,
            k <= p_len,
            forall|j: int| 0 <= j < k ==> s@[i + j] == p@[j],
        decreases p_len - k,
    {
        if s.get_char(i + k) != p.get_char(k) {
            proof {
                assert(s@.subrange(i as int, i + p_len)[k as int] != p@[k as int]);
            }
            return false;
        }
        k = k + 1;
    }
    proof {
        assert(s@.subrange(i as int, i + p_len) =~= p@);
    }
    true
}

/// The bearer token of an `Authorization` header: the header with every
/// `"Bearer "` removed.
pub fn bearer_token(header: &str) -> (token: String)
    ensures
        token@ == strip_all(header@, "Bearer "@),
{
    let p = "Bearer ";
    let p_len = p.unicode_len();
    let n = header.unicode_len();
    let ghost s = header@;
    let mut token = String::new();
    let mut i: usize = 0;
    proof {
        assert(s.subrange(0, s.len() as int) =~= s);
    }
    while i < n
        invariant
            n == s.len(),
            s == header@,
            p_len == p@.len(),
            p@ == "Bearer "@,
            i <= n,
            token@ + strip_all(s.subrange(i as int, n as int), p@) == strip_all(s, p@),
        decreases n - i,
    {
        let ghost rest = s.subrange(i as int, n as int);
        if p_len > 0 && occurs_at(header, n, i, p, p_len) {
            proof {
                assert(rest.subrange(0, p_len as int) =~= s.subrange(i as int, i + p_len));
                assert(rest.subrange(p_len as int, rest.len() as int) =~= s.subrange(i + p_len, n as int));
            }
            i = i + p_len;
        } else {
            let c = header.substring_char(i, i + 1);
            proof {
                if p_len > 0 && p_len <= rest.len() {
                    assert(rest.subrange(0, p_len as int) =~= s.subrange(i as int, i + p_len));
                }
                assert(rest.subrange(1, rest.len() as int) =~= s.subrange(i + 1, n as int));
                assert(c@ =~= seq![rest[0]]);
            }
            token.append(c);
            proof {
                assert(token@ + strip_all(s.subrange(i + 1, n as int), p@) =~= (token@.subrange(0, token@.len() - 1)) + (seq![rest[0]] + strip_all(rest.subrange(1, rest.len() as int), p@)));
            }
            i = i + 1;
        }
    }
    proof {
        assert(s.subrange(n as int, n as int) =~= Seq::<char>::empty());
        assert(token@ + Seq::<char>::empty() =~= token@);
    }
    token
}

/// What a token lookup found: nothing, an expired session (to delete), or a
/// valid one.
pub enum SessionCheck {
    Unknown,
    Expired(Session),
    Valid(Session),
}

/// The check of a looked-up session at time `now`: expired once `now` is past
/// `expires_on`.
pub open spec fn session_check(found: Option<Session>, now: u64) -> SessionCheck {
    match found {
        None => SessionCheck::Unknown,
        Some(s) => if now > s.expires_on { SessionCheck::Expired(s) } else { SessionCheck::Valid(s) },
    }
}

/// Checks a looked-up session at time `now`.
pub fn check_session(found: Option<Session>, now: u64) -> (r: SessionCheck)
    ensures
        r == session_check(found, now),
{
    match found {
        None => SessionCheck::Unknown,
        Some(s) => if s.is_expired(now) { SessionCheck::Expired(s) } else { SessionCheck::Valid(s) },
    }
}

/// Checks a looked-up session at the current time; gives the time used
/// too. `None` when the clock reads a time before the Unix epoch.
pub fn check_session_now(found: Option<Session>) -> (r: Option<(SessionCheck, u64)>)
    ensures
        r matches Some((check, now)) ==> check == session_check(found, now),
{
    match unix_timestamp() {
        Some(now) => Some((check_session(found, now), now)),
        None => None,
    }
}

/// The cut-off below which stored sessions are deleted: the time `now` kept
/// to its low 32 bits (the store compares with a 32-bit number).
pub fn session_cutoff_at(now: u64) -> (c: u32)
    ensures
        c as int == now as int % 0x1_0000_0000,
{
    let c = now as u32;
    assert(c == now % 0x1_0000_0000) by (bit_vector)
        requires
            c == now as u32,
    ;
    c
}

/// The cut-off for deleting sessions at the current time, with the time
/// used. `None` when the clock reads a time before the Unix epoch.
pub fn session_cutoff() -> (r: Option<(u32, u64)>)
    ensures
        r matches Some((c, now)) ==> c as int == now as int % 0x1_0000_0000,
{
    match unix_timestamp() {
        Some(now) => Some((session_cutoff_at(now), now)),
        None => None,
    }
}

/// A session is valid up to and including its expiry second, and expired
/// from the next one on; so a session issued at `now` is valid for exactly
/// one day.
pub proof fn lemma_session_valid_until_expiry(s: Session, now: u64, t: u64)
    requires
        s.expires_on == now + SESSION_LIFETIME,
    ensures
        session_check(Some(s), t) matches SessionCheck::Valid(v) ==> v == s,
        (session_check(Some(s), t) is Valid) <==> t <= now + SESSION_LIFETIME,
        (session_check(Some(s), t) is Expired) <==> t > now + SESSION_LIFETIME,
{
}

/// Text without a space holds no `"Bearer "`, so stripping leaves it as it is.
proof fn lemma_strip_spaceless(t: Seq<char>)
    requires
        forall|i: int| 0 <= i < t.len() ==> #[trigger] t[i] != ' ',
    ensures
        strip_all(t, "Bearer "@) == t,
    decreases t.len(),
{
    reveal_strlit("Bearer ");
    let p = "Bearer "@;
    if t.len() > 0 {
        if p.len() <= t.len() && t.subrange(0, p.len() as int) == p {
            assert(t.subrange(0, p.len() as int)[6] == ' ');
            assert(t[6] == ' ');
        }
        let rest = t.subrange(1, t.len() as int);
        assert forall|i: int| 0 <= i < rest.len() implies #[trigger] rest[i] != ' ' by {
            assert(rest[i] == t[i + 1]);
        }
        lemma_strip_spaceless(rest);
        assert(seq![t[0]] + rest =~= t);
    }
}

/// A token of letters and digits sent as `"Bearer <token>"` is read back as
/// the token itself: what a login hands out is what a request presents.
pub proof fn lemma_bearer_round_trip(token: Seq<char>)
    requires
        forall|i: int| 0 <= i < token.len() ==> is_alphanumeric(#[trigger] token[i]),
    ensures
        strip_all("Bearer "@ + token, "Bearer "@) == token,
{
    reveal_strlit("Bearer ");
    let p = "Bearer "@;
    let h = p + token;
    assert(h.subrange(0, p.len() as int) =~= p);
    assert(h.subrange(p.len() as int, h.len() as int) =~= token);
    assert forall|i: int| 0 <= i < token.len() implies #[trigger] token[i] != ' ' by {
        assert(is_alphanumeric(token[i]));
    }
    lemma_strip_spaceless(token);
}

} // verus!
