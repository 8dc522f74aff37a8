//! The state of the login form, and what each outcome of a login attempt
//! does to it.
use vstd::prelude::*;
use crate::text::route_url;

verus! {

/// What the form holds: the server's address, the credentials typed in,
/// and the last message shown to the user.
#[derive(Debug, Clone)]
pub struct LoginScreen {
    pub endpoint: String,
    pub username: String,
    pub password: String,
    pub message: String,
}

impl Default for LoginScreen {
    fn default() -> (r: LoginScreen)
        ensures
            r.endpoint@ == Seq::<char>::empty(),
            r.username@ == Seq::<char>::empty(),
            r.password@ == Seq::<char>::empty(),
            r.message@ == Seq::<char>::empty(),
    {
        LoginScreen {
            endpoint: String::new(),
            username: String::new(),
            password: String::new(),
            message: String::new(),
        }
    }
}

/// How an attempt to log in ended.
#[derive(PartialEq, Eq, Structural, Debug, Clone, Copy)]
pub enum LoginOutcome {
    /// The endpoint does not make a URL.
    InvalidUrl,
    /// The request could not be sent.
    SendFailed,
    /// The server turned the credentials down.
    Rejected,
    /// The server accepted the credentials.
    Accepted,
}

/// The message shown after an attempt that ended in `outcome`.
pub open spec fn outcome_message(outcome: LoginOutcome, before: Seq<char>) -> Seq<char> {
    match outcome {
        LoginOutcome::InvalidUrl => "Invalid URL"@,
        LoginOutcome::SendFailed => "Sending request failed"@,
        LoginOutcome::Rejected => "Invalid credentials"@,
        LoginOutcome::Accepted => before,
    }
}

impl LoginScreen {
    /// An empty form on the heap.
    pub fn boxed() -> (r: Box<LoginScreen>)
        ensures
            r.endpoint@ == Seq::<char>::empty(),
            r.username@ == Seq::<char>::empty(),
            r.password@ == Seq::<char>::empty(),
            r.message@ == Seq::<char>::empty(),
    {
        Box::new(LoginScreen::default())
    }

    /// The address of the server's login route.
    pub fn login_url(&self) -> (r: String)
        ensures
            r@ == self.endpoint@ + "/api/login"@,
    {
        route_url(self.endpoint.as_str(), "/api/login")
    }

    /// Shows what became of an attempt; `true` where the user may go on to
    /// the next screen.
    pub fn record_outcome(&mut self, outcome: LoginOutcome) -> (r: bool)
        ensures
            r == (outcome == LoginOutcome::Accepted),
            final(self).message@ == outcome_message(outcome, old(self).message@),
            final(self).endpoint == old(self).endpoint,
            final(self).username == old(self).username,
            final(self).password == old(self).password,
    {
        match outcome {
            LoginOutcome::InvalidUrl => {
                self.message = "Invalid URL".to_owned();
                false
            },
            LoginOutcome::SendFailed => {
                self.message = "Sending request failed".to_owned();
                false
            },
            LoginOutcome::Rejected => {
                self.message = "Invalid credentials".to_owned();
                false
            },
            LoginOutcome::Accepted => true,
        }
    }
}

} // verus!
