use vstd::prelude::*;
use crate::text::{decimal, i64_to_decimal, push_str, same_text, signed_decimal, u64_to_decimal};

verus! {

/// The administrator's user name.
pub const USERNAME: &'static str = "admin";

/// The administrator's password.
pub const PASSWORD: &'static str = "1234";

/// Failed attempts after which logging in is locked.
pub const MAX_ATTEMPTS: i32 = 3;

/// How long a lock lasts, in seconds (thirty minutes).
pub const LOCK_SECONDS: u64 = 1800;

/// What a session holds: whether its user is logged in, how many logins
/// failed, and until when (in seconds since the Unix epoch) logging in is
/// locked. A key that the session does not hold is `false` or `None`.
#[derive(Clone, Copy, Debug, PartialEq, Eq, Structural)]
pub struct SessionState {
    pub logged_in: bool,
    pub failed_attempts: Option<i32>,
    pub lock_until: Option<u64>,
}

/// How a login attempt ended.
#[derive(Clone, Copy, Debug, PartialEq, Eq, Structural)]
pub enum LoginOutcome {
    /// Logging in is locked; the lock ends in `minutes_left` whole minutes.
    StillLocked { minutes_left: u64 },
    /// The credentials were right; the user is logged in.
    Accepted,
    /// The credentials were wrong once too often; logging in is now locked.
    LockedNow,
    /// The credentials were wrong; `attempts_left` tries remain.
    Rejected { attempts_left: i32 },
}

impl SessionState {
    /// A session that holds nothing.
    pub open spec fn spec_empty() -> SessionState {
        SessionState { logged_in: false, failed_attempts: None, lock_until: None }
    }

    /// A session that holds nothing, as a new or purged one.
    pub fn empty() -> (res: SessionState)
        ensures
            res == SessionState::spec_empty(),
    {
        SessionState { logged_in: false, failed_attempts: None, lock_until: None }
    }
}

/// Whether the given user name and password are the administrator's.
pub open spec fn credentials_ok(username: Seq<char>, password: Seq<char>) -> bool {
    username == USERNAME@ && password == PASSWORD@
}

/// Whether a lock is in force at `now`.
pub open spec fn locked_at(state: SessionState, now: u64) -> bool {
    state.lock_until matches Some(t) && now < t
}

/// The failed attempts that the session counts, none being zero.
pub open spec fn attempts(state: SessionState) -> int {
    match state.failed_attempts {
        Some(k) => k as int,
        None => 0,
    }
}

/// One login attempt at time `now` (seconds since the Unix epoch) with
/// credentials that are right or not: the new session and the outcome.
///
/// While a lock is in force nothing changes and the attempt is refused with
/// the whole minutes left. Otherwise right credentials log the user in and
/// clear the count and the lock; wrong ones count one more failure, and from
/// the third failure on lock logging in for thirty minutes from `now`.
pub open spec fn login_step(state: SessionState, ok: bool, now: u64) -> (SessionState, LoginOutcome) {
    if locked_at(state, now) {
        (state, LoginOutcome::StillLocked { minutes_left: ((state.lock_until->0 - now) / 60) as u64 })
    } else if ok {
        (SessionState { logged_in: true, failed_attempts: None, lock_until: None }, LoginOutcome::Accepted)
    } else {
        let count: int = attempts(state) + 1;
        if count >= MAX_ATTEMPTS {
            (
                SessionState {
                    failed_attempts: Some(count as i32),
                    lock_until: Some((now + LOCK_SECONDS) as u64),
                    ..state
                },
                LoginOutcome::LockedNow,
            )
        } else {
            (
                SessionState { failed_attempts: Some(count as i32), ..state },
                LoginOutcome::Rejected { attempts_left: (MAX_ATTEMPTS - count) as i32 },
            )
        }
    }
}

/// The attempts on which `login_step` stays within the machine's integers:
/// a failure is counted in an `i32`, the tries left are an `i32`, and the
/// end of a new lock is a `u64`.
pub open spec fn login_defined(state: SessionState, ok: bool, now: u64) -> bool {
    !locked_at(state, now) && !ok ==> {
        let count: int = attempts(state) + 1;
        &&& count <= i32::MAX
        &&& count < MAX_ATTEMPTS ==> MAX_ATTEMPTS - count <= i32::MAX
        &&& count >= MAX_ATTEMPTS ==> now + LOCK_SECONDS <= u64::MAX
    }
}

/// Whether a stored `logged_in` flag says that the user is logged in: a
/// flag that cannot be read, or is missing, says no.
pub fn is_logged_in(stored: Result<Option<bool>, ()>) -> (res: bool)
    ensures
        res == (stored == Ok::<Option<bool>, ()>(Some(true))),
{
    match stored {
        Ok(Some(flag)) => flag,
        _ => false,
    }
}

/// Whether the given user name and password are the administrator's.
pub fn credentials_match(username: &str, password: &str) -> (res: bool)
    ensures
        res == credentials_ok(username@, password@),
{
    same_text(username, USERNAME) && same_text(password, PASSWORD)
}

/// Whether a login attempt stays within the machine's integers, so that
/// `login` may handle it.
pub fn login_within_limits(state: SessionState, username: &str, password: &str, now: u64) -> (res:
    bool)
    ensures
        res == login_defined(state, credentials_ok(username@, password@), now),
{
    if let Some(until) = state.lock_until {
        if now < until {
            return true;
        }
    }
    if credentials_match(username, password) {
        return true;
    }
    match state.failed_attempts {
        Some(k) => {
            if k == i32::MAX {
                false
            } else if k + 1 >= MAX_ATTEMPTS {
                now <= u64::MAX - LOCK_SECONDS
            } else {
                k + 1 >= MAX_ATTEMPTS - i32::MAX
            }
        },
        None => true,
    }
}

/// Handles a login attempt at time `now` (seconds since the Unix epoch):
/// the session afterwards, and how the attempt ended.
pub fn login(state: SessionState, username: &str, password: &str, now: u64) -> (res: (
    SessionState,
    LoginOutcome,
))
    requires
        login_defined(state, credentials_ok(username@, password@), now),
    ensures
        res == login_step(state, credentials_ok(username@, password@), now),
{
    if let Some(until) = state.lock_until {
        if now < until {
            return (state, LoginOutcome::StillLocked { minutes_left: (until - now) / 60 });
        }
    }
    if credentials_match(username, password) {
        return (
            SessionState { logged_in: true, failed_attempts: None, lock_until: None },
            LoginOutcome::Accepted,
        );
    }
    let count: i32 = match state.failed_attempts {
        Some(k) => k + 1,
        None => 1,
    };
    if count >= MAX_ATTEMPTS {
        (
            SessionState {
                logged_in: state.logged_in,
                failed_attempts: Some(count),
                lock_until: Some(now + LOCK_SECONDS),
            },
            LoginOutcome::LockedNow,
        )
    } else {
        (
            SessionState {
                logged_in: state.logged_in,
                failed_attempts: Some(count),
                lock_until: state.lock_until,
            },
            LoginOutcome::Rejected { attempts_left: MAX_ATTEMPTS - count },
        )
    }
}

/// The HTTP status that answers a login attempt.
pub open spec fn login_status_of(outcome: LoginOutcome) -> u16 {
    match outcome {
        LoginOutcome::Accepted => 303,
        LoginOutcome::Rejected { .. } => 401,
        _ => 200,
    }
}

/// The HTTP status that answers a login attempt: a redirect (303) to the
/// listing when it was accepted, 401 when it was rejected, else 200.
pub fn login_status(outcome: LoginOutcome) -> (res: u16)
    ensures
        res == login_status_of(outcome),
{
    match outcome {
        LoginOutcome::Accepted => 303,
        LoginOutcome::Rejected { .. } => 401,
        _ => 200,
    }
}

/// The body that answers a login attempt.
pub open spec fn login_body_of(outcome: LoginOutcome) -> Seq<char> {
    match outcome {
        LoginOutcome::StillLocked { minutes_left } => "Too many attempts. Try again in "@ + decimal(
            minutes_left as nat,
        ) + " minutes"@,
        LoginOutcome::Accepted => Seq::empty(),
        LoginOutcome::LockedNow => "Too many attempts. Account locked for 30 minutes."@,
        LoginOutcome::Rejected { attempts_left } => "Invalid credentials. "@ + signed_decimal(
            attempts_left as int,
        ) + " attempts remaining."@,
    }
}

/// The body that answers a login attempt.
pub fn login_body(outcome: LoginOutcome) -> (res: String)
    ensures
        res@ == login_body_of(outcome),
{
    let mut body = String::new();
    match outcome {
        LoginOutcome::StillLocked { minutes_left } => {
            push_str(&mut body, "Too many attempts. Try again in ");
            let n = u64_to_decimal(minutes_left);
            push_str(&mut body, n.as_str());
            push_str(&mut body, " minutes");
        },
        LoginOutcome::Accepted => {},
        LoginOutcome::LockedNow => {
            push_str(&mut body, "Too many attempts. Account locked for 30 minutes.");
        },
        LoginOutcome::Rejected { attempts_left } => {
            push_str(&mut body, "Invalid credentials. ");
            let n = i64_to_decimal(attempts_left as i64);
            push_str(&mut body, n.as_str());
            push_str(&mut body, " attempts remaining.");
        },
    }
    body
}

/// Where a successful login and a logout send the browser.
pub fn login_location(outcome: LoginOutcome) -> (res: Option<&'static str>)
    ensures
        outcome == LoginOutcome::Accepted ==> res == Some("/"),
        outcome != LoginOutcome::Accepted ==> res is None,
{
    match outcome {
        LoginOutcome::Accepted => Some("/"),
        _ => None,
    }
}

/// Logs out: the session is purged of everything it held, and the browser
/// is sent to the login page.
pub fn logout(state: SessionState) -> (res: (SessionState, &'static str))
    ensures
        res.0 == SessionState::spec_empty(),
        res.1 == "/login",
{
    (SessionState::empty(), "/login")
}


/// Three wrong logins in a row on a session that counted no failure and
/// held no lock are refused with two and then one tries left, and the third
/// locks logging in for thirty minutes from its own time; none of the three
/// leaves the machine's integers.
pub proof fn law_third_failure_locks(start: SessionState, t1: u64, t2: u64, t3: u64)
    requires
        start.failed_attempts is None,
        start.lock_until is None,
        t3 + LOCK_SECONDS <= u64::MAX,
    ensures
        ({
            let (s1, o1) = login_step(start, false, t1);
            let (s2, o2) = login_step(s1, false, t2);
            let (s3, o3) = login_step(s2, false, t3);
            &&& login_defined(start, false, t1)
            &&& login_defined(s1, false, t2)
            &&& login_defined(s2, false, t3)
            &&& o1 == LoginOutcome::Rejected { attempts_left: 2 }
            &&& o2 == LoginOutcome::Rejected { attempts_left: 1 }
            &&& o3 == LoginOutcome::LockedNow
            &&& s3.failed_attempts == Some(3i32)
            &&& s3.lock_until == Some((t3 + LOCK_SECONDS) as u64)
        }),
{
}

/// While a lock is in force, every login attempt, with right credentials
/// or wrong ones, is refused with the whole minutes left, and the session is
/// left as it was.
pub proof fn law_lock_refuses_every_attempt(state: SessionState, ok: bool, now: u64)
    requires
        locked_at(state, now),
    ensures
        login_defined(state, ok, now),
        login_step(state, ok, now) == (
            state,
            LoginOutcome::StillLocked {
                minutes_left: ((state.lock_until->0 - now) / 60) as u64,
            },
        ),
{
}

/// A lock lasts thirty minutes: after the attempt that locks at `now`,
/// every attempt before `now` plus thirty minutes is refused, and from then
/// on the right credentials log in.
pub proof fn law_lock_lasts_thirty_minutes(state: SessionState, now: u64, later: u64, ok: bool)
    requires
        login_defined(state, false, now),
        login_step(state, false, now).1 == LoginOutcome::LockedNow,
    ensures
        now <= later < now + LOCK_SECONDS ==> login_step(login_step(state, false, now).0, ok, later).1
            is StillLocked,
        later >= now + LOCK_SECONDS ==> login_step(login_step(state, false, now).0, true, later).1
            == LoginOutcome::Accepted,
{
}

/// Right credentials, where no lock is in force, log the user in and clear
/// the failure count and the lock.
pub proof fn law_success_clears_failures(state: SessionState, now: u64)
    requires
        !locked_at(state, now),
    ensures
        login_step(state, true, now) == (
            SessionState { logged_in: true, failed_attempts: None, lock_until: None },
            LoginOutcome::Accepted,
        ),
{
}

/// A wrong login where no lock is in force counts exactly one more failure
/// and leaves the logged-in flag as it was.
pub proof fn law_failure_counts_one(state: SessionState, now: u64)
    requires
        !locked_at(state, now),
        login_defined(state, false, now),
    ensures
        login_step(state, false, now).0.failed_attempts == Some((attempts(state) + 1) as i32),
        login_step(state, false, now).0.logged_in == state.logged_in,
{
}


/// The session after a run of login attempts from `start`, each with
/// credentials that are right or not, at its own time.
pub open spec fn run_logins(start: SessionState, tries: Seq<(bool, u64)>) -> SessionState
    decreases tries.len(),
{
    if tries.len() == 0 {
        start
    } else {
        login_step(run_logins(start, tries.drop_last()), tries.last().0, tries.last().1).0
    }
}

/// The wrong attempts of a run that no lock refused, since its last
/// successful login, counted from the failures that `start` holds.
pub open spec fn unblocked_failures(start: SessionState, tries: Seq<(bool, u64)>) -> int
    decreases tries.len(),
{
    if tries.len() == 0 {
        attempts(start)
    } else if locked_at(run_logins(start, tries.drop_last()), tries.last().1) {
        unblocked_failures(start, tries.drop_last())
    } else if tries.last().0 {
        0
    } else {
        unblocked_failures(start, tries.drop_last()) + 1
    }
}

proof fn lemma_run_from_empty(tries: Seq<(bool, u64)>)
    requires
        tries.len() < i32::MAX,
        forall|i: int| 0 <= i < tries.len() ==> #[trigger] tries[i].1 + LOCK_SECONDS <= u64::MAX,
    ensures
        ({
            let s = run_logins(SessionState::spec_empty(), tries);
            &&& attempts(s) == unblocked_failures(SessionState::spec_empty(), tries)
            &&& 0 <= attempts(s) <= tries.len()
            &&& s.failed_attempts matches Some(k) ==> k >= 1
            &&& (s.lock_until is Some <==> attempts(s) >= MAX_ATTEMPTS)
        }),
    decreases tries.len(),
{
    if tries.len() > 0 {
        let prefix = tries.drop_last();
        assert forall|i: int| 0 <= i < prefix.len() implies #[trigger] prefix[i].1 + LOCK_SECONDS
            <= u64::MAX by {
            assert(prefix[i] == tries[i]);
        }
        lemma_run_from_empty(prefix);
        assert(tries.last() == tries[tries.len() - 1]);
    }
}

/// Every attempt of the run stays within the machine's integers.
pub open spec fn run_within_limits(start: SessionState, tries: Seq<(bool, u64)>) -> bool {
    forall|k: int|
        0 <= k < tries.len() ==> login_defined(
            run_logins(start, #[trigger] tries.take(k)),
            tries[k].0,
            tries[k].1,
        )
}

proof fn lemma_run_invariant(tries: Seq<(bool, u64)>)
    requires
        run_within_limits(SessionState::spec_empty(), tries),
    ensures
        ({
            let s = run_logins(SessionState::spec_empty(), tries);
            &&& attempts(s) == unblocked_failures(SessionState::spec_empty(), tries)
            &&& attempts(s) >= 0
            &&& s.failed_attempts matches Some(k) ==> k >= 1
            &&& (s.lock_until is Some <==> attempts(s) >= MAX_ATTEMPTS)
        }),
    decreases tries.len(),
{
    if tries.len() > 0 {
        let n = tries.len() - 1;
        let prefix = tries.drop_last();
        assert forall|k: int| 0 <= k < prefix.len() implies login_defined(
            run_logins(SessionState::spec_empty(), #[trigger] prefix.take(k)),
            prefix[k].0,
            prefix[k].1,
        ) by {
            assert(prefix.take(k) =~= tries.take(k));
            assert(prefix[k] == tries[k]);
        }
        lemma_run_invariant(prefix);
        assert(tries.take(n) =~= prefix);
        assert(login_defined(run_logins(SessionState::spec_empty(), tries.take(n)), tries[n].0, tries[n].1));
        assert(tries.last() == tries[n]);
    }
}

/// Over any run of logins from an empty session in which every attempt
/// stays within the machine's integers, the session afterwards counts
/// exactly the wrong attempts that no lock refused since the last successful
/// login, and holds a lock exactly when that count is three or more.
pub proof fn law_run_counts_unblocked_failures(tries: Seq<(bool, u64)>)
    requires
        run_within_limits(SessionState::spec_empty(), tries),
    ensures
        attempts(run_logins(SessionState::spec_empty(), tries)) == unblocked_failures(
            SessionState::spec_empty(),
            tries,
        ),
        run_logins(SessionState::spec_empty(), tries).lock_until is Some <==> unblocked_failures(
            SessionState::spec_empty(),
            tries,
        ) >= MAX_ATTEMPTS,
{
    lemma_run_invariant(tries);
}

/// A run of logins from an empty session stays within the machine's
/// integers when it has fewer attempts than an `i32` holds and none of its
/// times is within thirty minutes of the largest `u64`.
pub proof fn law_short_runs_stay_within_limits(tries: Seq<(bool, u64)>)
    requires
        tries.len() < i32::MAX,
        forall|i: int| 0 <= i < tries.len() ==> #[trigger] tries[i].1 + LOCK_SECONDS <= u64::MAX,
    ensures
        run_within_limits(SessionState::spec_empty(), tries),
{
    assert forall|k: int| 0 <= k < tries.len() implies login_defined(
        run_logins(SessionState::spec_empty(), #[trigger] tries.take(k)),
        tries[k].0,
        tries[k].1,
    ) by {
        let prefix = tries.take(k);
        assert forall|i: int| 0 <= i < prefix.len() implies #[trigger] prefix[i].1 + LOCK_SECONDS
            <= u64::MAX by {
            assert(prefix[i] == tries[i]);
        }
        lemma_run_from_empty(prefix);
        assert(tries[k].1 + LOCK_SECONDS <= u64::MAX);
    }
}

}
