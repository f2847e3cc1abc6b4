//! Which connections have authenticated, and as which account.
use std::collections::HashMap;

use vstd::prelude::*;

use crate::types::AccountId;

verus! {

broadcast use vstd::std_specs::hash::group_hash_axioms;

/// Authenticated connections and their accounts.
pub struct SessionManager {
    sessions: HashMap<u64, AccountId>,
}

impl View for SessionManager {
    type V = Map<u64, AccountId>;

    closed spec fn view(&self) -> Map<u64, AccountId> {
        self.sessions@
    }
}

impl Default for SessionManager {
    fn default() -> (r: Self)
        ensures
            r@ == Map::<u64, AccountId>::empty(),
    {
        SessionManager::new()
    }
}

impl SessionManager {
    /// No connection authenticated.
    pub fn new() -> (r: Self)
        ensures
            r@ == Map::<u64, AccountId>::empty(),
    {
        SessionManager { sessions: HashMap::new() }
    }

    /// Records that `conn_id` authenticated as `account_id` (one account may have many connections).
    pub fn register(&mut self, conn_id: u64, account_id: AccountId)
        ensures
            final(self)@ == old(self)@.insert(conn_id, account_id),
    {
        self.sessions.insert(conn_id, account_id);
    }

    /// The account of `conn_id`, if it authenticated.
    pub fn get_account_id(&self, conn_id: u64) -> (r: Option<AccountId>)
        ensures
            r == if self@.contains_key(conn_id) {
                Some(self@[conn_id])
            } else {
                None::<AccountId>
            },
    {
        match self.sessions.get(&conn_id) {
            Some(a) => Some(*a),
            None => None,
        }
    }

    /// Whether `conn_id` authenticated.
    pub fn is_authenticated(&self, conn_id: u64) -> (r: bool)
        ensures
            r == self@.contains_key(conn_id),
    {
        self.sessions.contains_key(&conn_id)
    }

    /// Forgets `conn_id` (disconnect); returns its account if it had one.
    pub fn unregister(&mut self, conn_id: u64) -> (r: Option<AccountId>)
        ensures
            final(self)@ == old(self)@.remove(conn_id),
            r == if old(self)@.contains_key(conn_id) {
                Some(old(self)@[conn_id])
            } else {
                None::<AccountId>
            },
    {
        self.sessions.remove(&conn_id)
    }

    /// Number of authenticated connections.
    pub fn session_count(&self) -> (r: usize)
        ensures
            r == self@.len(),
    {
        self.sessions.len()
    }

    /// A copy of every session.
    pub fn get_all_sessions(&self) -> (r: HashMap<u64, AccountId>)
        ensures
            r@ == self@,
    {
        self.sessions.clone()
    }
}

} // verus!
