use vstd::prelude::*;

use crate::sources::fresh_id;

verus! {

pub const MIN_NAME_LENGTH: usize = 5;

pub const MAX_NAME_LENGTH: usize = 35;

pub const NAME_LENGTH_MESSAGE: &'static str = "Имя слишком короткое. Оно должно быть не менее 5 символов и не более 35.";

/// What `str::to_lowercase` makes of a string.
pub uninterp spec fn lowercase_of(s: Seq<char>) -> Seq<char>;

/// Relies on `str::to_lowercase`: the result depends on the characters alone,
/// and the empty string stays empty.
#[verifier::external_body]
fn lowercase(s: &str) -> (r: String)
    ensures
        r@ == lowercase_of(s@),
        s@.len() == 0 ==> r@.len() == 0,
{
    s.to_lowercase()
}

#[verifier::external_type_specification]
#[verifier::external_body]
pub struct ExBcryptError(bcrypt::BcryptError);

/// What bcrypt's `verify` answers for a password and a stored hash: whether
/// they match, or nothing when bcrypt cannot read the hash.
pub uninterp spec fn bcrypt_verdict(password: Seq<char>, hash: Seq<char>) -> Option<bool>;

/// Relies on `bcrypt::verify`: it re-hashes the password with the cost and
/// salt read from `hash` and compares, so its answer depends on the two
/// strings alone; it fails on a hash that it cannot read.
#[verifier::external_body]
fn password_matches(password: &str, hash: &str) -> (r: Result<bool, bcrypt::BcryptError>)
    ensures
        match r {
            Ok(b) => bcrypt_verdict(password@, hash@) == Some(b),
            Err(_) => bcrypt_verdict(password@, hash@) is None,
        },
{
    bcrypt::verify(password, hash)
}

/// Relies on `bcrypt::hash` at `bcrypt::DEFAULT_COST`: the hash of the
/// password under a random salt. Nothing is promised of a salted value.
#[verifier::external_body]
fn hash_password(password: &str) -> (r: Result<String, bcrypt::BcryptError>) {
    bcrypt::hash(password, bcrypt::DEFAULT_COST)
}

/// Accepts a user name of 5 to 35 characters.
pub fn check_user_name(name: &str) -> (r: Result<(), String>)
    ensures
        r.is_ok() <==> MIN_NAME_LENGTH <= name@.len() <= MAX_NAME_LENGTH,
        r matches Err(msg) ==> msg@ == NAME_LENGTH_MESSAGE@,
{
    let n = name.unicode_len();
    if MIN_NAME_LENGTH <= n && n <= MAX_NAME_LENGTH {
        Ok(())
    } else {
        Err(String::from_str(NAME_LENGTH_MESSAGE))
    }
}

/// The form in which an e-mail address is stored and looked up: lower case.
pub fn normalize_email(email: &str) -> (r: String)
    ensures
        r@ == lowercase_of(email@),
{
    lowercase(email)
}

/// A registered user.
#[derive(Debug)]
pub struct User {
    pub id: u128,
    pub name: String,
    pub email: String,
    pub pwhash: String,
}

/// What others may learn of a user.
#[derive(Debug)]
pub struct UserInfo {
    pub id: u128,
    pub name: String,
}

#[derive(Clone, Copy, Debug, PartialEq, Eq, Structural)]
pub enum SignUpError {
    /// The name is shorter than 5 or longer than 35 characters.
    BadName,
    /// A user with this e-mail address exists already.
    EmailTaken,
    /// The password could not be hashed.
    Internal,
}

#[derive(Clone, Copy, Debug, PartialEq, Eq, Structural)]
pub enum SignInError {
    /// No such user, or the password does not match.
    IllegalLogin,
    /// The stored hash could not be read.
    Internal,
}

/// The answer to a login attempt of the user `id`, given bcrypt's verdict.
pub open spec fn sign_in_decision(id: u128, verdict: Option<bool>) -> Result<u128, SignInError> {
    match verdict {
        Some(true) => Ok(id),
        Some(false) => Err(SignInError::IllegalLogin),
        None => Err(SignInError::Internal),
    }
}

/// Admits the user `id` when the password matched, refuses the login when it
/// did not, and reports an internal fault when the hash was unreadable.
pub fn decide_sign_in(id: u128, verdict: Option<bool>) -> (r: Result<u128, SignInError>)
    ensures
        r == sign_in_decision(id, verdict),
{
    match verdict {
        Some(true) => Ok(id),
        Some(false) => Err(SignInError::IllegalLogin),
        None => Err(SignInError::Internal),
    }
}

/// The position of the user who holds the address `email`.
pub open spec fn user_index(users: Seq<User>, email: Seq<char>) -> int {
    choose|i: int| 0 <= i < users.len() && #[trigger] users[i].email@ == email
}

/// A user holds the address `email`.
pub open spec fn email_taken(users: Seq<User>, email: Seq<char>) -> bool {
    exists|i: int| 0 <= i < users.len() && #[trigger] users[i].email@ == email
}

/// What `register` returns and leaves behind.
pub open spec fn register_outcome(
    users: Seq<User>,
    id: u128,
    name: String,
    email: String,
    pwhash: String,
) -> (Result<(), SignUpError>, Seq<User>) {
    if !(MIN_NAME_LENGTH <= name@.len() <= MAX_NAME_LENGTH) {
        (Err(SignUpError::BadName), users)
    } else if email_taken(users, email@) {
        (Err(SignUpError::EmailTaken), users)
    } else {
        (Ok(()), users.push(User { id, name, email, pwhash }))
    }
}

/// The registered users, at most one per e-mail address.
pub struct UserDirectory {
    users: Vec<User>,
}

impl View for UserDirectory {
    type V = Seq<User>;

    closed spec fn view(&self) -> Seq<User> {
        self.users@
    }
}

impl UserDirectory {
    /// No two users share an e-mail address.
    pub open spec fn wf(&self) -> bool {
        forall|i: int, j: int|
            0 <= i < self@.len() && 0 <= j < self@.len() && i != j ==> #[trigger] self@[i].email@
                != #[trigger] self@[j].email@
    }

    pub fn new() -> (r: UserDirectory)
        ensures
            r.wf(),
            r@ == Seq::<User>::empty(),
    {
        UserDirectory { users: Vec::new() }
    }

    fn position_of_email(&self, email: &String) -> (r: Option<usize>)
        ensures
            match r {
                Some(i) => i < self@.len() && self@[i as int].email@ == email@,
                None => !email_taken(self@, email@),
            },
    {
        let mut i: usize = 0;
        while i < self.users.len()
            invariant
                i <= self.users.len(),
                forall|t: int| 0 <= t < i ==> #[trigger] self.users@[t].email@ != email@,
            decreases self.users.len() - i,
        {
            if self.users[i].email == *email {
                return Some(i);
            }
            i = i + 1;
        }
        None
    }

    /// Whether some user holds the address `email`, taken as given.
    pub fn has_user_with_email(&self, email: &String) -> (r: bool)
        ensures
            r == email_taken(self@, email@),
    {
        self.position_of_email(email).is_some()
    }

    /// Registers a user under the id `id` with the password hash `pwhash`,
    /// the address `email` taken as given. The name must have 5 to 35
    /// characters and the address must not be taken.
    pub fn register(&mut self, id: u128, name: String, email: String, pwhash: String) -> (r: Result<
        (),
        SignUpError,
    >)
        requires
            old(self).wf(),
        ensures
            final(self).wf(),
            (r, final(self)@) == register_outcome(old(self)@, id, name, email, pwhash),
    {
        if check_user_name(name.as_str()).is_err() {
            return Err(SignUpError::BadName);
        }
        if self.has_user_with_email(&email) {
            return Err(SignUpError::EmailTaken);
        }
        let ghost before = self@;
        self.users.push(User { id, name, email, pwhash });
        assert forall|i: int, j: int|
            0 <= i < self@.len() && 0 <= j < self@.len() && i != j implies #[trigger] self@[i].email@
                != #[trigger] self@[j].email@ by {
            if i < before.len() && j < before.len() {
                assert(self@[i] == before[i] && self@[j] == before[j]);
            } else if i < before.len() {
                assert(self@[i] == before[i]);
            } else {
                assert(self@[j] == before[j]);
            }
        }
        Ok(())
    }

    /// Signs a new user up: the name must have 5 to 35 characters and the
    /// lower-case form of `email` must be free. Only then is the user given a
    /// fresh random id and the password hashed; the id is returned.
    pub fn sign_up(&mut self, name: String, email: &str, password: &str) -> (r: Result<
        u128,
        SignUpError,
    >)
        requires
            old(self).wf(),
        ensures
            final(self).wf(),
            !(MIN_NAME_LENGTH <= name@.len() <= MAX_NAME_LENGTH) ==> r == Err::<u128, SignUpError>(
                SignUpError::BadName,
            ),
            MIN_NAME_LENGTH <= name@.len() <= MAX_NAME_LENGTH && email_taken(
                old(self)@,
                lowercase_of(email@),
            ) ==> r == Err::<u128, SignUpError>(SignUpError::EmailTaken),
            match r {
                Ok(id) => {
                    &&& final(self)@.len() == old(self)@.len() + 1
                    &&& final(self)@.drop_last() == old(self)@
                    &&& final(self)@.last().id == id
                    &&& final(self)@.last().name == name
                    &&& final(self)@.last().email@ == lowercase_of(email@)
                },
                Err(_) => final(self)@ == old(self)@,
            },
            MIN_NAME_LENGTH <= name@.len() <= MAX_NAME_LENGTH && !email_taken(
                old(self)@,
                lowercase_of(email@),
            ) ==> (r is Ok || r == Err::<u128, SignUpError>(SignUpError::Internal)),
    {
        if check_user_name(name.as_str()).is_err() {
            return Err(SignUpError::BadName);
        }
        let key = normalize_email(email);
        if self.has_user_with_email(&key) {
            return Err(SignUpError::EmailTaken);
        }
        let pwhash = match hash_password(password) {
            Ok(h) => h,
            Err(_) => return Err(SignUpError::Internal),
        };
        let id = fresh_id();
        let r = self.register(id, name, key, pwhash);
        assert(r is Ok);
        assert(self@.drop_last() =~= old(self)@);
        Ok(id)
    }

    /// The user registered under the address `key`, taken as given.
    pub fn user_with_email(&self, key: &String) -> (r: Option<&User>)
        requires
            self.wf(),
        ensures
            match r {
                Some(u) => exists|i: int| 0 <= i < self@.len() && #[trigger] self@[i] == *u && u.email@ == key@,
                None => !email_taken(self@, key@),
            },
    {
        match self.position_of_email(key) {
            Some(i) => Some(&self.users[i]),
            None => None,
        }
    }

    /// The user registered under `email`, looked up in lower case.
    pub fn user_by_email(&self, email: &str) -> (r: Option<&User>)
        requires
            self.wf(),
        ensures
            match r {
                Some(u) => exists|i: int| 0 <= i < self@.len() && #[trigger] self@[i] == *u && u.email@ == lowercase_of(email@),
                None => !email_taken(self@, lowercase_of(email@)),
            },
    {
        let key = normalize_email(email);
        self.user_with_email(&key)
    }

    /// The public record of the first user registered under `id`.
    pub fn user_by_id(&self, id: u128) -> (r: Option<UserInfo>)
        ensures
            match r {
                Some(info) => info.id == id && exists|i: int|
                    0 <= i < self@.len() && (#[trigger] self@[i]).id == id && self@[i].name
                        == info.name && forall|t: int| 0 <= t < i ==> #[trigger] self@[t].id != id,
                None => forall|i: int| 0 <= i < self@.len() ==> #[trigger] self@[i].id != id,
            },
    {
        let mut i: usize = 0;
        while i < self.users.len()
            invariant
                i <= self.users.len(),
                forall|t: int| 0 <= t < i ==> #[trigger] self.users@[t].id != id,
            decreases self.users.len() - i,
        {
            if self.users[i].id == id {
                let info = UserInfo { id, name: self.users[i].name.clone() };
                assert(self@[i as int].name == info.name);
                return Some(info);
            }
            i = i + 1;
        }
        None
    }

    /// Checks a login: the user is looked up by the lower-case form of
    /// `email` and the password held against the stored hash. Answers the
    /// user's id when both succeed.
    pub fn sign_in(&self, email: &str, password: &str) -> (r: Result<u128, SignInError>)
        requires
            self.wf(),
        ensures
            !email_taken(self@, lowercase_of(email@)) ==> r == Err::<u128, SignInError>(
                SignInError::IllegalLogin,
            ),
            email_taken(self@, lowercase_of(email@)) ==> r == sign_in_decision(
                self@[user_index(self@, lowercase_of(email@))].id,
                bcrypt_verdict(password@, self@[user_index(self@, lowercase_of(email@))].pwhash@),
            ),
    {
        let user = match self.user_by_email(email) {
            Some(u) => u,
            None => return Err(SignInError::IllegalLogin),
        };
        proof {
            let key = lowercase_of(email@);
            let i = choose|i: int| 0 <= i < self@.len() && #[trigger] self@[i] == *user && user.email@ == key;
            assert(self@[i].email@ == key);
            let k = user_index(self@, key);
            assert(self@[k].email@ == key);
        }
        let verdict = match password_matches(password, user.pwhash.as_str()) {
            Ok(b) => Some(b),
            Err(_) => None,
        };
        decide_sign_in(user.id, verdict)
    }
}

} // verus!
