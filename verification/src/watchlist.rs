//! The watchlist: the set of account identifiers whose incoming
//! transactions are indexed, fixed for the process lifetime.

use vstd::prelude::*;

verus! {

/// An immutable set of watched account identifiers.
pub struct Watchlist {
    accounts: Vec<String>,
}

impl Watchlist {
    /// The configured account identifiers, in the order supplied.
    pub closed spec fn accounts_view(&self) -> Seq<Seq<char>> {
        self.accounts@.map_values(|a: String| a@)
    }

    /// Membership: whether `account` is watched.
    pub open spec fn watched(&self, account: Seq<char>) -> bool {
        exists|i: int| 0 <= i < self.accounts_view().len() && self.accounts_view()[i] == account
    }

    /// Fixes the set of watched accounts.
    pub fn new(accounts: Vec<String>) -> (r: Watchlist)
        ensures
            r.accounts_view() == accounts@.map_values(|a: String| a@),
    {
        Watchlist { accounts }
    }

    /// Membership test.
    pub fn contains(&self, account: &String) -> (r: bool)
        ensures
            r == self.watched(account@),
    {
        let n = self.accounts.len();
        let mut i: usize = 0;
        while i < n
            invariant
                n == self.accounts@.len(),
                0 <= i <= n,
                forall|j: int| 0 <= j < i ==> self.accounts_view()[j] != account@,
            decreases n - i,
        {
            if self.accounts[i] == *account {
                proof {
                    assert(self.accounts_view()[i as int] == account@);
                }
                return true;
            }
            i += 1;
        }
        false
    }
}

} // verus!
