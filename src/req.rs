use vstd::prelude::*;

verus! {

/// Registration data.
#[derive(Clone, Debug, PartialEq, Eq)]
pub struct SignUp {
    pub email: String,
    pub name: String,
    pub password: String,
}

/// Login data.
#[derive(Clone, Debug, PartialEq, Eq)]
pub struct SignIn {
    pub email: String,
    pub password: String,
}

#[derive(Clone, Copy, Debug, PartialEq, Eq, Structural)]
pub struct GetUserInfo {
    pub id: u128,
}

#[derive(Clone, Copy, Debug, PartialEq, Eq, Structural)]
pub struct GetMemberInfo {
    pub queue_id: u128,
    pub member_id: u128,
}

/// A request to open a queue.
#[derive(Clone, Debug, PartialEq, Eq)]
pub struct CreateQueue {
    pub name: String,
    pub description: String,
    /// Make the current user the organizer if true.
    pub add_organizer: bool,
}

#[derive(Clone, Copy, Debug, PartialEq, Eq, Structural)]
pub struct DeleteQueue {
    pub id: u128,
}

#[derive(Clone, Copy, Debug, PartialEq, Eq, Structural)]
pub struct GetQueue {
    pub id: u128,
}

#[derive(Clone, Copy, Debug, PartialEq, Eq, Structural)]
pub struct GetMembers {
    pub id: u128,
}

#[derive(Clone, Copy, Debug, PartialEq, Eq, Structural)]
pub struct JoinToQueue {
    pub id: u128,
}

#[derive(Clone, Copy, Debug, PartialEq, Eq, Structural)]
pub struct LeaveFromQueue {
    pub id: u128,
}

/// The value that `CreateQueue::add_organizer` takes when a request leaves it out.
pub fn true_value() -> (r: bool)
    ensures
        r,
{
    true
}

} // verus!
