use maruc::app_model::{AppModel, AppMsg, LoginOutcome};
use maruc::room::RoomType;
use maruc::secrecy::ExposeSecret;

#[test]
fn new_model_has_no_message() {
    let m = AppModel::new();
    assert_eq!(m.login_user_message, "");
    assert!(!m.message_changed);
}

#[test]
fn login_request_starts_a_login() {
    let mut m = AppModel::new();
    m.set_login_user_message("old".to_string());
    assert!(m.update(AppMsg::Login));
    assert_eq!(m.login_user_message, "old");
    assert!(!m.message_changed);
}

#[test]
fn login_results_set_the_message() {
    let mut m = AppModel::new();
    assert!(!m.update(AppMsg::LoginResult(LoginOutcome::Success)));
    assert_eq!(m.login_user_message, "Login successful!");
    assert!(m.message_changed);
    assert!(!m.update(AppMsg::LoginResult(LoginOutcome::Refused("M_FORBIDDEN".to_string()))));
    assert_eq!(m.login_user_message, "Computer said no: M_FORBIDDEN");
    assert!(!m.update(AppMsg::LoginResult(LoginOutcome::Failed("timed out".to_string()))));
    assert_eq!(m.login_user_message, "timed out");
    m.reset();
    assert!(!m.message_changed);
    assert_eq!(m.login_user_message, "timed out");
}

struct Hidden(String);

impl ExposeSecret<String> for Hidden {
    fn expose_secret(&self) -> &String {
        &self.0
    }
}

#[test]
fn expose_secret_gives_the_value() {
    let h = Hidden("hunter2".to_string());
    assert_eq!(h.expose_secret(), "hunter2");
}

#[test]
fn room_types() {
    assert_eq!(RoomType::classify(true, false), RoomType::Space);
    assert_eq!(RoomType::classify(true, true), RoomType::Space);
    assert_eq!(RoomType::classify(false, true), RoomType::DirectMessage);
    assert_eq!(RoomType::classify(false, false), RoomType::Room);
}
