//! The bounded, process-wide registry of identities currently logged in.

use vstd::prelude::*;

use crate::errors::ErrorCode;
use crate::keys::UserKey;

verus! {

/// The most users the presence registry can hold.
pub const MAX_USERS: usize = 1000;

/// A bounded set of identity keys "currently logged in".  Insertion does
/// not deduplicate: the same key may appear more than once, exactly as the
/// registry's callers left it.
#[derive(PartialEq, Eq, Debug)]
pub struct LoggedInUsers {
    pub users: Vec<UserKey>,
}

/// Creates the empty presence registry.
pub fn initialize_logged_in_users() -> (r: LoggedInUsers)
    ensures
        r.users@ == Seq::<UserKey>::empty(),
{
    LoggedInUsers { users: Vec::new() }
}

/// Appends `user_pubkey` to the registry if there is room; otherwise fails
/// with `MaxUsersReached` and leaves the registry unchanged.
pub fn add_logged_in_user(logged_in_users: &mut LoggedInUsers, user_pubkey: UserKey) -> (r:
    Result<(), ErrorCode>)
    ensures
        old(logged_in_users).users@.len() < MAX_USERS ==> r == Ok::<(), ErrorCode>(())
            && final(logged_in_users).users@ == old(logged_in_users).users@.push(user_pubkey),
        old(logged_in_users).users@.len() >= MAX_USERS ==> r == Err::<(), ErrorCode>(
            ErrorCode::MaxUsersReached,
        ) && final(logged_in_users).users@ == old(logged_in_users).users@,
{
    if logged_in_users.users.len() < MAX_USERS {
        logged_in_users.users.push(user_pubkey);
        Ok(())
    } else {
        Err(ErrorCode::MaxUsersReached)
    }
}

} // verus!
