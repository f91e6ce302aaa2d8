//! Where the passwords of master keys come from.
use vstd::prelude::*;

use crate::error::JoplinError;

verus! {

/// The record of the password requests made to a provider: for each, the
/// key id asked for and what came back.
pub type PasswordRequests = Seq<(Seq<char>, Result<String, JoplinError>)>;

/// A source of passwords, implemented by the users of the library: the
/// password of the master key whose id is `key_id`.
///
/// `requests` is the record of the requests made so far: the key id asked
/// for and what came back. Each call adds its own request to the record;
/// an implementation keeps that record as ghost state.
pub trait JoplinPasswordProvider: Send {
    spec fn requests(&self) -> PasswordRequests;

    fn get_password(&mut self, key_id: &str) -> (res: Result<String, JoplinError>)
        ensures
            final(self).requests() == old(self).requests().push((key_id@, res)),
    ;
}

} // verus!
