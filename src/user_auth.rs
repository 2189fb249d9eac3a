//! A user with a name and a password, and the check made at sign-in.
use vstd::prelude::*;

verus! {

broadcast use vstd::string::to_string_from_display_ensures_for_str;

/// A user account.
pub struct User {
    name: String,
    password: String,
}

impl User {
    /// The user's name.
    pub closed spec fn name_spec(&self) -> Seq<char> {
        self.name@
    }

    /// The user's password.
    pub closed spec fn password_spec(&self) -> Seq<char> {
        self.password@
    }

    /// A user with the given name and password.
    pub fn new(name: &str, password: &str) -> (r: Self)
        ensures
            r.name_spec() == name@,
            r.password_spec() == password@,
    {
        Self { name: name.to_string(), password: password.to_string() }
    }

    /// The user's name.
    pub fn name(&self) -> (r: &str)
        ensures
            r@ == self.name_spec(),
    {
        self.name.as_str()
    }

    /// The user's password.
    pub fn password(&self) -> (r: &str)
        ensures
            r@ == self.password_spec(),
    {
        self.password.as_str()
    }

    /// Whether `password` is the user's password, which is what signing in
    /// requires.
    pub fn sign_in(&self, password: &str) -> (r: bool)
        ensures
            r == (password@ == self.password_spec()),
    {
        let given = password.to_string();
        given == self.password
    }
}

} // verus!
