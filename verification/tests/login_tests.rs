use my_sigs::local_messager::LocalMessager;
use my_sigs::login_machine::Login;
use my_sigs::login_machine::LoginPasswordResult;
use my_sigs::login_machine::TwoFactorResult;
use my_sigs::login_machine::UserResult;
use my_sigs::messager_things::DummyMessager;
use my_sigs::messager_things::Messager;
use my_sigs::messager_things::PasswordResult;
use my_sigs::messager_things::UserData;

#[test]
fn dummy_login_goes_straight_through() {
    let dummy = DummyMessager::default();
    let login = Login::new();
    let login = match login.go_to_password(&dummy, "user".to_string()) {
        UserResult::Valid(l) => l,
        UserResult::InvalidUser(_) => panic!("user should be accepted"),
    };
    match login.login(&dummy, "password".to_string()) {
        LoginPasswordResult::LoggedIn(l) => {
            assert_eq!(l.user(), "user");
        }
        _ => panic!("password should log in"),
    }
}

#[test]
fn dummy_two_factor_path() {
    let mut dummy = DummyMessager::default();
    dummy.password_answer = PasswordResult::TwoFactorRequired;
    let login = Login::new();
    let login = match login.go_to_password(&dummy, "user".to_string()) {
        UserResult::Valid(l) => l,
        UserResult::InvalidUser(_) => panic!("user should be accepted"),
    };
    let login = match login.login(&dummy, "password".to_string()) {
        LoginPasswordResult::TwoFactor(l) => l,
        _ => panic!("a second factor should be required"),
    };
    match login.login(&dummy, "123".to_string()) {
        TwoFactorResult::Valid(l) => {
            assert_eq!(l.user(), "user");
        }
        TwoFactorResult::WrongCode(_) => panic!("the code should pass"),
    }
}

#[test]
fn unknown_user_is_rejected() {
    let mut dummy = DummyMessager::default();
    dummy.user_answer = false;
    match Login::new().go_to_password(&dummy, "nobody".to_string()) {
        UserResult::Valid(_) => panic!("user should be rejected"),
        UserResult::InvalidUser(_) => {}
    }
}

#[test]
fn local_messager_checks_the_store() {
    let m = LocalMessager::new();
    let known = UserData {
        user: "gabriel".to_string(),
        password: Some("123".to_string()),
        two_factor_code: None,
    };
    assert!(m.verify_user(&known));
    assert_eq!(m.verify_password(&known), PasswordResult::Correct);
    let wrong = UserData {
        user: "gabriel".to_string(),
        password: Some("456".to_string()),
        two_factor_code: None,
    };
    assert_eq!(m.verify_password(&wrong), PasswordResult::WrongPassword);
    let stranger = UserData {
        user: "nobody".to_string(),
        password: Some("123".to_string()),
        two_factor_code: None,
    };
    assert!(!m.verify_user(&stranger));
    assert_eq!(m.verify_password(&stranger), PasswordResult::WrongPassword);
}

#[test]
fn local_messager_second_factor_and_signup() {
    let mut m = LocalMessager::new();
    let with_code = UserData {
        user: "gabriel".to_string(),
        password: None,
        two_factor_code: Some("123".to_string()),
    };
    assert!(m.verify_2fa(&with_code));
    let bad_code = UserData {
        user: "gabriel".to_string(),
        password: None,
        two_factor_code: Some("124".to_string()),
    };
    assert!(!m.verify_2fa(&bad_code));
    let newcomer = UserData {
        user: "ada".to_string(),
        password: Some("pw".to_string()),
        two_factor_code: None,
    };
    assert!(m.sign_up(&newcomer));
    m.add_user("ada".to_string(), "pw".to_string());
    assert!(!m.sign_up(&newcomer));
    assert_eq!(m.verify_password(&newcomer), PasswordResult::Correct);
}

#[test]
fn local_messager_drives_the_machine() {
    let m = LocalMessager::new();
    let login = Login::new();
    let login = match login.go_to_password(&m, "gabriel".to_string()) {
        UserResult::Valid(l) => l,
        UserResult::InvalidUser(_) => panic!("gabriel is a known user"),
    };
    match login.login(&m, "123".to_string()) {
        LoginPasswordResult::LoggedIn(l) => {
            assert_eq!(l.user(), "gabriel");
        }
        _ => panic!("the stored password should log in"),
    }
}
