//! Queue membership and ordering: who belongs to which waitlist, in what
//! serving order, and who may tear a waitlist down.

pub mod accounts;
pub mod ranking;
pub mod req;
mod sources;
pub mod store;

pub use accounts::{
    check_user_name, decide_sign_in, normalize_email, SignInError, SignUpError, User, UserDirectory, UserInfo,
    MAX_NAME_LENGTH, MIN_NAME_LENGTH, NAME_LENGTH_MESSAGE,
};
pub use ranking::{rank, Entry, MemberInfo};
pub use req::{
    true_value, CreateQueue, DeleteQueue, GetMemberInfo, GetMembers, GetQueue, GetUserInfo,
    JoinToQueue, LeaveFromQueue, SignIn, SignUp,
};
pub use store::{Queue, QueueError, QueueStore, QUEUE_LIFETIME_MICROS};
