//! An in-memory account store implementing the [`Messager`] port: a list of
//! users with passwords, looked up by name (first match).

use vstd::prelude::*;

verus! {

use crate::messager_things::Messager;
use crate::messager_things::PasswordResult;
use crate::messager_things::UserData;

/// One account.
pub struct User {
    pub name: String,
    pub password: String,
    pub needs_two_factor: bool,
}

/// The in-memory account store.
pub struct LocalMessager {
    users: Vec<User>,
}

/// The first index at or after `k` holding an account named `name`.
pub open spec fn find_from(users: Seq<User>, name: Seq<char>, k: int) -> Option<int>
    decreases users.len() - k,
{
    if k < 0 || k >= users.len() {
        None
    } else if users[k].name@ == name {
        Some(k)
    } else {
        find_from(users, name, k + 1)
    }
}

/// The index of the first account named `name`, if any.
pub open spec fn find_user(users: Seq<User>, name: Seq<char>) -> Option<int> {
    find_from(users, name, 0)
}

/// If nothing up to `k` matches, the search from the start is the search
/// from `k`.
proof fn lemma_find_prefix(users: Seq<User>, name: Seq<char>, k: int)
    requires
        0 <= k <= users.len(),
        forall|a: int| 0 <= a < k ==> #[trigger] users[a].name@ != name,
    ensures
        find_user(users, name) == find_from(users, name, k),
    decreases k,
{
    if k > 0 {
        lemma_find_prefix(users, name, k - 1);
    }
}

/// A successful search returns an in-range index naming the account looked
/// for.
pub proof fn lemma_find_range(users: Seq<User>, name: Seq<char>, k: int)
    requires
        0 <= k <= users.len(),
    ensures
        match find_from(users, name, k) {
            Some(i) => k <= i < users.len() && users[i].name@ == name,
            None => true,
        },
    decreases users.len() - k,
{
    if k < users.len() && users[k].name@ != name {
        lemma_find_range(users, name, k + 1);
    }
}

impl LocalMessager {
    /// The accounts, in insertion order.
    pub closed spec fn users(&self) -> Seq<User> {
        self.users@
    }

    /// A store holding the one built-in account.
    pub fn new() -> (m: LocalMessager)
        ensures
            m.users().len() == 1,
            m.users()[0].name@ == "gabriel"@,
            m.users()[0].password@ == "123"@,
            !m.users()[0].needs_two_factor,
    {
        let mut m = LocalMessager { users: Vec::new() };
        proof {
            assert(m.users@ =~= Seq::<User>::empty());
        }
        m.add_user("gabriel".to_owned(), "123".to_owned());
        m
    }

    /// Registers the account named `name`, or overwrites the first account
    /// of that name if one exists.
    pub fn add_user(&mut self, name: String, password: String)
        ensures
            final(self).users().len() <= old(self).users().len() + 1,
            ({
                let u = (User { name: name, password: password, needs_two_factor: false });
                match find_user(old(self).users(), name@) {
                    Some(i) => final(self).users() == old(self).users().update(i, u),
                    None => final(self).users() == old(self).users().push(u),
                }
            }),
    {
        let mut k: usize = 0;
        let n = self.users.len();
        while k < n
            invariant
                *self == *old(self),
                n == self.users().len(),
                k <= n,
                forall|a: int| 0 <= a < k ==> #[trigger] self.users()[a].name@ != name@,
            decreases n - k,
        {
            let same = self.users[k].name.eq(&name);
            if same {
                proof {
                    lemma_find_prefix(old(self).users(), name@, k as int);
                }
                self.users[k] = User { name, password, needs_two_factor: false };
                return ;
            }
            k += 1;
        }
        proof {
            lemma_find_prefix(old(self).users(), name@, n as int);
        }
        let u = User { name, password, needs_two_factor: false };
        self.users.push(u);
    }

    /// The exec search matching [`find_user`].
    fn lookup(&self, name: &String) -> (r: Option<usize>)
        ensures
            match r {
                Some(k) => find_user(self.users(), name@) == Some(k as int),
                None => find_user(self.users(), name@) == None::<int>,
            },
    {
        let mut k: usize = 0;
        let n = self.users.len();
        while k < n
            invariant
                n == self.users().len(),
                k <= n,
                forall|a: int| 0 <= a < k ==> #[trigger] self.users()[a].name@ != name@,
            decreases n - k,
        {
            if self.users[k].name.eq(name) {
                proof {
                    lemma_find_prefix(self.users(), name@, k as int);
                }
                return Some(k);
            }
            k += 1;
        }
        proof {
            lemma_find_prefix(self.users(), name@, n as int);
        }
        None
    }
}

impl Messager for LocalMessager {
    /// A user checks out iff an account carries the name.
    open spec fn user_ok(&self, data: UserData) -> bool {
        find_user(self.users(), data.user@) is Some
    }

    /// A password checks out against the account named in the data: a
    /// missing password or account is wrong; a matching password passes,
    /// with a second factor required when the account asks for one.
    open spec fn password_res(&self, data: UserData) -> PasswordResult {
        match data.password {
            None => PasswordResult::WrongPassword,
            Some(p) => match find_user(self.users(), data.user@) {
                None => PasswordResult::WrongPassword,
                Some(i) => if self.users()[i].password@ == p@ {
                    if self.users()[i].needs_two_factor {
                        PasswordResult::TwoFactorRequired
                    } else {
                        PasswordResult::Correct
                    }
                } else {
                    PasswordResult::WrongPassword
                },
            },
        }
    }

    /// The second factor is the fixed code `123`.
    open spec fn two_factor_ok(&self, data: UserData) -> bool {
        match data.two_factor_code {
            Some(c) => c@ == "123"@,
            None => false,
        }
    }

    /// A sign-up succeeds iff the name is free and a password was given.
    open spec fn signup_ok(&self, data: UserData) -> bool {
        find_user(self.users(), data.user@) is None && data.password is Some
    }

    fn verify_user(&self, data: &UserData) -> (r: bool)
        ensures
            r == self.user_ok(*data),
    {
        self.lookup(&data.user).is_some()
    }

    fn verify_password(&self, data: &UserData) -> (r: PasswordResult)
        ensures
            r == self.password_res(*data),
    {
        let password = match &data.password {
            Some(password) => password,
            None => {
                return PasswordResult::WrongPassword;
            },
        };
        match self.lookup(&data.user) {
            Some(k) => {
                proof {
                    lemma_find_range(self.users(), data.user@, 0);
                }
                let u = &self.users[k];
                if u.password.eq(password) {
                    if u.needs_two_factor {
                        PasswordResult::TwoFactorRequired
                    } else {
                        PasswordResult::Correct
                    }
                } else {
                    PasswordResult::WrongPassword
                }
            },
            None => PasswordResult::WrongPassword,
        }
    }

    fn verify_2fa(&self, data: &UserData) -> (r: bool)
        ensures
            r == self.two_factor_ok(*data),
    {
        match &data.two_factor_code {
            Some(c) => c.eq(&"123".to_owned()),
            None => false,
        }
    }

    /// Answers whether the account could be registered; the registration
    /// itself is a mutation of the store and goes through
    /// [`LocalMessager::add_user`].
    fn sign_up(&self, data: &UserData) -> (r: bool)
        ensures
            r == self.signup_ok(*data),
    {
        if data.password.is_none() {
            return false;
        }
        self.lookup(&data.user).is_none()
    }
}

} // verus!
