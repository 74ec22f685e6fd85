//! State of the login window, and how it reacts to its messages.
use vstd::prelude::*;
use vstd::string::StringExecFns;

verus! {

/// How a login attempt ended.
pub enum LoginOutcome {
    /// The server accepted the credentials.
    Success,
    /// The server refused the request; the text is the error code it sent.
    Refused(String),
    /// Any other failure, with its description.
    Failed(String),
}

/// A message to the login window.
pub enum AppMsg {
    /// The user asked to log in with the credentials in the form.
    Login,
    /// A login attempt ended.
    LoginResult(LoginOutcome),
}

/// The text shown to the user once a login attempt has ended.
pub open spec fn login_message(outcome: LoginOutcome) -> Seq<char> {
    match outcome {
        LoginOutcome::Success => "Login successful!"@,
        LoginOutcome::Refused(code) => "Computer said no: "@ + code@,
        LoginOutcome::Failed(text) => text@,
    }
}

/// The login window's state: the message shown under the form, and whether it
/// changed since the last update.
pub struct AppModel {
    pub login_user_message: String,
    pub message_changed: bool,
}

impl AppModel {
    /// A window with no message.
    pub fn new() -> (m: AppModel)
        ensures
            m.login_user_message@ == Seq::<char>::empty(),
            !m.message_changed,
    {
        AppModel { login_user_message: String::new(), message_changed: false }
    }

    /// Replaces the message and records that it changed.
    pub fn set_login_user_message(&mut self, message: String)
        ensures
            final(self).login_user_message@ == message@,
            final(self).message_changed,
    {
        self.login_user_message = message;
        self.message_changed = true;
    }

    /// Forgets that the message changed.
    pub fn reset(&mut self)
        ensures
            final(self).login_user_message@ == old(self).login_user_message@,
            !final(self).message_changed,
    {
        self.message_changed = false;
    }

    /// Handles one message; returns whether a login attempt must be started.
    pub fn update(&mut self, msg: AppMsg) -> (start_login: bool)
        ensures
            msg is Login ==> start_login && !final(self).message_changed
                && final(self).login_user_message@ == old(self).login_user_message@,
            msg matches AppMsg::LoginResult(outcome) ==> !start_login && final(self).message_changed
                && final(self).login_user_message@ == login_message(outcome),
    {
        self.reset();
        match msg {
            AppMsg::Login => true,
            AppMsg::LoginResult(outcome) => {
                let message = match outcome {
                    LoginOutcome::Success => String::from_str("Login successful!"),
                    LoginOutcome::Refused(code) => String::from_str("Computer said no: ").concat(code.as_str()),
                    LoginOutcome::Failed(text) => text,
                };
                self.set_login_user_message(message);
                false
            },
        }
    }
}

} // verus!
