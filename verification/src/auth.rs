//! Who may change the league's records.

use vstd::prelude::*;

verus! {

/// What a page needs to know about access: whether a password guards the
/// league at all, and whether the visitor has presented it.
#[derive(Clone, Copy, Debug, PartialEq, Eq, Structural)]
pub struct AuthState {
    pub enabled: bool,
    pub logged_in: bool,
}

impl AuthState {
    pub fn new(enabled: bool, logged_in: bool) -> (r: Self)
        ensures
            r.enabled == enabled,
            r.logged_in == logged_in,
    {
        Self { enabled, logged_in }
    }
}

/// What the login form holds.
pub struct LoginForm {
    pub password: String,
}

/// What becomes of an attempt to log in.
#[derive(Clone, Copy, Debug, PartialEq, Eq, Structural)]
pub enum LoginOutcome {
    /// No password guards the league; there is nothing to log in to.
    Open,
    /// The password was right.
    Granted,
    /// The password was wrong.
    Denied,
}

/// Whether a visitor who presents `token` may change records. Without a
/// password everyone may; with one, only who presents exactly it.
pub open spec fn grants_access(password: Option<Seq<char>>, token: Option<Seq<char>>) -> bool {
    match password {
        None => true,
        Some(p) => token == Some(p),
    }
}

/// Whether a visitor who presents `token` may change records.
pub fn is_authenticated(password: Option<&String>, token: Option<&String>) -> (r: bool)
    ensures
        r == grants_access(
            match password {
                Some(p) => Some(p@),
                None => None,
            },
            match token {
                Some(t) => Some(t@),
                None => None,
            },
        ),
{
    match password {
        None => true,
        Some(p) => match token {
            Some(t) => *t == *p,
            None => false,
        },
    }
}

/// Judges an attempt to log in with what `form` holds.
pub fn login(password: Option<&String>, form: &LoginForm) -> (r: LoginOutcome)
    ensures
        password is None ==> r == LoginOutcome::Open,
        password matches Some(p) ==> r == if form.password@ == p@ {
            LoginOutcome::Granted
        } else {
            LoginOutcome::Denied
        },
{
    match password {
        None => LoginOutcome::Open,
        Some(p) => if form.password == *p {
            LoginOutcome::Granted
        } else {
            LoginOutcome::Denied
        },
    }
}

} // verus!
