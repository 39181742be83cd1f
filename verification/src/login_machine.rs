//! A login workflow as a typestate machine: each state is its own type, and
//! each transition consumes the machine, asks the [`Messager`] port, and
//! returns the machine in exactly the state the answer dictates.

use vstd::prelude::*;

verus! {

use crate::messager_things::Messager;
use crate::messager_things::PasswordResult;
use crate::messager_things::UserData;

/// The login machine, parameterised by its current state marker.
pub struct Login<T> {
    state: T,
    user_data: UserData,
}

/// Waiting for a user name.
pub struct FillUser;

/// The user exists; waiting for a password.
pub struct FillPassword {}

/// The password was right but a second factor is required.
pub struct TwoFactor {}

/// Fully authenticated.
pub struct LoggedIn {}

impl<T> Login<T> {
    /// The identity data gathered so far.
    pub closed spec fn data(&self) -> UserData {
        self.user_data
    }
}

/// Outcome of submitting a user name.
pub enum UserResult {
    Valid(Login<FillPassword>),
    InvalidUser(Login<FillUser>),
}

impl Login<FillUser> {
    /// A fresh machine: no user, no password, no code.
    pub fn new() -> (l: Login<FillUser>)
        ensures
            l.data().user@ == Seq::<char>::empty(),
            l.data().password == None::<String>,
            l.data().two_factor_code == None::<String>,
    {
        Login {
            state: FillUser,
            user_data: UserData { user: String::new(), password: None, two_factor_code: None },
        }
    }

    /// Submits a user name: if the messager knows it, the machine advances
    /// to the password prompt carrying that name; otherwise it stays where
    /// it is, carrying the name that was tried.
    pub fn go_to_password<M: Messager>(self, messager: &M, user: String) -> (r: UserResult)
        ensures
            ({
                let d = (UserData { user: user, password: None, two_factor_code: None });
                match r {
                    UserResult::Valid(l) => messager.user_ok(d) && l.data() == d,
                    UserResult::InvalidUser(l) => !messager.user_ok(d) && l.data() == d,
                }
            }),
    {
        let user_data = UserData { user, password: None, two_factor_code: None };
        if messager.verify_user(&user_data) {
            UserResult::Valid(Login { state: FillPassword {}, user_data })
        } else {
            UserResult::InvalidUser(Login { state: FillUser, user_data })
        }
    }
}

/// Outcome of submitting a password.
pub enum LoginPasswordResult {
    TwoFactor(Login<TwoFactor>),
    LoggedIn(Login<LoggedIn>),
    WrongPassword(Login<FillPassword>),
}

impl Login<FillPassword> {
    /// Submits a password for the user name gathered so far: the machine
    /// either logs in, advances to the second-factor prompt, or stays at the
    /// password prompt — exactly as the messager answers.
    pub fn login<M: Messager>(self, messager: &M, password: String) -> (r: LoginPasswordResult)
        ensures
            ({
                let d = (UserData {
                    user: self.data().user,
                    password: Some(password),
                    two_factor_code: None,
                });
                match r {
                    LoginPasswordResult::LoggedIn(l) => messager.password_res(d)
                        == PasswordResult::Correct && l.data() == d,
                    LoginPasswordResult::TwoFactor(l) => messager.password_res(d)
                        == PasswordResult::TwoFactorRequired && l.data() == d,
                    LoginPasswordResult::WrongPassword(l) => messager.password_res(d)
                        == PasswordResult::WrongPassword && l.data() == d,
                }
            }),
    {
        let user_data = UserData {
            user: self.user_data.user,
            password: Some(password),
            two_factor_code: None,
        };
        match messager.verify_password(&user_data) {
            PasswordResult::Correct => LoginPasswordResult::LoggedIn(
                Login { state: LoggedIn {}, user_data },
            ),
            PasswordResult::TwoFactorRequired => LoginPasswordResult::TwoFactor(
                Login { state: TwoFactor {}, user_data },
            ),
            PasswordResult::WrongPassword => LoginPasswordResult::WrongPassword(
                Login { state: FillPassword {}, user_data },
            ),
        }
    }
}

/// Outcome of submitting a second-factor code.
pub enum TwoFactorResult {
    Valid(Login<LoggedIn>),
    WrongCode(Login<TwoFactor>),
}

impl Login<TwoFactor> {
    /// Submits a second-factor code: a right code completes the login, a
    /// wrong one leaves the machine at the second-factor prompt with the
    /// code it had before.
    pub fn login<M: Messager>(self, messager: &M, code: String) -> (r: TwoFactorResult)
        ensures
            ({
                let d = (UserData {
                    user: self.data().user,
                    password: self.data().password,
                    two_factor_code: Some(code),
                });
                match r {
                    TwoFactorResult::Valid(l) => messager.two_factor_ok(d) && l.data() == d,
                    TwoFactorResult::WrongCode(l) => !messager.two_factor_ok(d) && l.data()
                        == (UserData {
                        user: self.data().user,
                        password: self.data().password,
                        two_factor_code: self.data().two_factor_code,
                    }),
                }
            }),
    {
        let prev_code = self.user_data.two_factor_code;
        let user_data = UserData {
            user: self.user_data.user,
            password: self.user_data.password,
            two_factor_code: Some(code),
        };
        if messager.verify_2fa(&user_data) {
            TwoFactorResult::Valid(Login { state: LoggedIn {}, user_data })
        } else {
            TwoFactorResult::WrongCode(
                Login {
                    state: TwoFactor {},
                    user_data: UserData {
                        user: user_data.user,
                        password: user_data.password,
                        two_factor_code: prev_code,
                    },
                },
            )
        }
    }
}

impl Login<LoggedIn> {
    /// The name this session is logged in as.
    pub fn user(&self) -> (u: &String)
        ensures
            u == self.data().user,
    {
        &self.user_data.user
    }
}

} // verus!
