//! The verification port a login flow talks to: a [`Messager`] answers
//! whether a user exists, whether a password is right, and whether a
//! second-factor code checks out.  Implementations live with the
//! application; [`DummyMessager`] is the canned one used for tests.

use vstd::prelude::*;

verus! {

/// Outcome of a password check.
#[derive(Clone, Copy, PartialEq, Eq, Structural, Debug)]
pub enum PasswordResult {
    Correct,
    TwoFactorRequired,
    WrongPassword,
}

/// The identity data accumulated while logging in.
pub struct UserData {
    pub user: String,
    pub password: Option<String>,
    pub two_factor_code: Option<String>,
}

/// A verification port.  Each exec method answers exactly what its spec
/// counterpart says of the same data, so a login flow driven through any
/// implementation has exact transition contracts.
pub trait Messager: Sized {
    /// Whether `data.user` names a known user.
    spec fn user_ok(&self, data: UserData) -> bool;

    /// The outcome of checking `data.password` for `data.user`.
    spec fn password_res(&self, data: UserData) -> PasswordResult;

    /// Whether `data.two_factor_code` is the right second factor.
    spec fn two_factor_ok(&self, data: UserData) -> bool;

    /// Whether `data` can be registered as a new account.
    spec fn signup_ok(&self, data: UserData) -> bool;

    fn verify_user(&self, data: &UserData) -> (r: bool)
        ensures
            r == self.user_ok(*data),
    ;

    fn verify_password(&self, data: &UserData) -> (r: PasswordResult)
        ensures
            r == self.password_res(*data),
    ;

    fn verify_2fa(&self, data: &UserData) -> (r: bool)
        ensures
            r == self.two_factor_ok(*data),
    ;

    fn sign_up(&self, data: &UserData) -> (r: bool)
        ensures
            r == self.signup_ok(*data),
    ;
}

/// A messager with canned answers, for wiring a login flow without a real
/// account service behind it.
pub struct DummyMessager {
    pub user_answer: bool,
    pub password_answer: PasswordResult,
    pub two_factor_answer: bool,
}

impl Default for DummyMessager {
    /// Everything checks out: users exist, passwords are right, codes pass.
    fn default() -> (d: DummyMessager)
        ensures
            d.user_answer,
            d.password_answer == PasswordResult::Correct,
            d.two_factor_answer,
    {
        DummyMessager { user_answer: true, password_answer: PasswordResult::Correct, two_factor_answer: true }
    }
}

impl Messager for DummyMessager {
    open spec fn user_ok(&self, data: UserData) -> bool {
        self.user_answer
    }

    open spec fn password_res(&self, data: UserData) -> PasswordResult {
        self.password_answer
    }

    open spec fn two_factor_ok(&self, data: UserData) -> bool {
        self.two_factor_answer
    }

    open spec fn signup_ok(&self, data: UserData) -> bool {
        false
    }

    fn verify_user(&self, data: &UserData) -> (r: bool)
        ensures
            r == self.user_ok(*data),
    {
        self.user_answer
    }

    fn verify_password(&self, data: &UserData) -> (r: PasswordResult)
        ensures
            r == self.password_res(*data),
    {
        self.password_answer
    }

    fn verify_2fa(&self, data: &UserData) -> (r: bool)
        ensures
            r == self.two_factor_ok(*data),
    {
        self.two_factor_answer
    }

    fn sign_up(&self, data: &UserData) -> (r: bool)
        ensures
            r == self.signup_ok(*data),
    {
        false
    }
}

} // verus!
