//! API keys and the accounts they authenticate.
use vstd::prelude::*;

use crate::types::AccountId;

verus! {

/// Why authentication failed.
#[derive(Clone, Copy, Debug, PartialEq, Eq, Structural)]
pub enum AuthError {
    InvalidApiKey,
}

/// The registered API keys, each with its account.
pub struct AuthService {
    /// Key and account pairs; no key occurs twice.
    api_keys: Vec<(String, AccountId)>,
}

/// The text of each key with its account.
pub open spec fn key_pairs(v: Seq<(String, AccountId)>) -> Seq<(Seq<char>, AccountId)> {
    v.map_values(|e: (String, AccountId)| (e.0@, e.1))
}

/// No key occurs twice.
pub open spec fn distinct_keys(s: Seq<(Seq<char>, AccountId)>) -> bool {
    forall|i: int, j: int| 0 <= i < j < s.len() ==> s[i].0 != s[j].0
}

/// The map from key to account that a list of distinct pairs describes.
pub open spec fn key_map(s: Seq<(Seq<char>, AccountId)>) -> Map<Seq<char>, AccountId> {
    Map::new(
        |k: Seq<char>| exists|i: int| 0 <= i < s.len() && #[trigger] s[i].0 == k,
        |k: Seq<char>| s[choose|i: int| 0 <= i < s.len() && #[trigger] s[i].0 == k].1,
    )
}

proof fn lemma_key_map_at(s: Seq<(Seq<char>, AccountId)>, i: int)
    requires
        distinct_keys(s),
        0 <= i < s.len(),
    ensures
        key_map(s).contains_key(s[i].0),
        key_map(s)[s[i].0] == s[i].1,
{
    let k = s[i].0;
    assert(key_map(s).contains_key(k));
    let j = choose|j: int| 0 <= j < s.len() && #[trigger] s[j].0 == k;
    if j != i {
        if j < i {
            assert(s[j].0 != s[i].0);
        } else {
            assert(s[i].0 != s[j].0);
        }
    }
}

proof fn lemma_key_map_push(s: Seq<(Seq<char>, AccountId)>, k: Seq<char>, v: AccountId)
    requires
        distinct_keys(s),
        !key_map(s).contains_key(k),
    ensures
        distinct_keys(s.push((k, v))),
        key_map(s.push((k, v))) == key_map(s).insert(k, v),
{
    let t = s.push((k, v));
    assert forall|i: int| 0 <= i < s.len() implies s[i].0 != k by {
        if s[i].0 == k {
            assert(key_map(s).contains_key(k));
        }
    }
    assert forall|i: int, j: int| 0 <= i < j < t.len() implies t[i].0 != t[j].0 by {
        if j == s.len() {
            assert(t[i] == s[i]);
        } else {
            assert(t[i] == s[i] && t[j] == s[j]);
        }
    }
    assert forall|x: Seq<char>| #[trigger] key_map(t).contains_key(x) == key_map(s).insert(k, v).contains_key(x) by {
        if key_map(s).contains_key(x) {
            let i = choose|i: int| 0 <= i < s.len() && #[trigger] s[i].0 == x;
            assert(t[i] == s[i]);
        }
        if x == k {
            assert(t[s.len() as int].0 == k);
        }
        if key_map(t).contains_key(x) && x != k {
            let i = choose|i: int| 0 <= i < t.len() && #[trigger] t[i].0 == x;
            assert(t[i] == s[i]);
        }
    }
    assert forall|x: Seq<char>| #[trigger] key_map(t).contains_key(x) implies key_map(t)[x] == key_map(s).insert(k, v)[x] by {
        if x == k {
            lemma_key_map_at(t, s.len() as int);
        } else {
            let i = choose|i: int| 0 <= i < t.len() && #[trigger] t[i].0 == x;
            assert(t[i] == s[i]);
            lemma_key_map_at(t, i);
            lemma_key_map_at(s, i);
        }
    }
    assert(key_map(t) =~= key_map(s).insert(k, v));
}

proof fn lemma_key_map_update(s: Seq<(Seq<char>, AccountId)>, i: int, v: AccountId)
    requires
        distinct_keys(s),
        0 <= i < s.len(),
    ensures
        distinct_keys(s.update(i, (s[i].0, v))),
        key_map(s.update(i, (s[i].0, v))) == key_map(s).insert(s[i].0, v),
{
    let k = s[i].0;
    let t = s.update(i, (k, v));
    assert forall|a: int, b: int| 0 <= a < b < t.len() implies t[a].0 != t[b].0 by {
        assert(t[a].0 == s[a].0 && t[b].0 == s[b].0);
    }
    assert forall|x: Seq<char>| #[trigger] key_map(t).contains_key(x) == key_map(s).insert(k, v).contains_key(x) by {
        if key_map(s).contains_key(x) {
            let j = choose|j: int| 0 <= j < s.len() && #[trigger] s[j].0 == x;
            assert(t[j].0 == x);
        }
        if key_map(t).contains_key(x) {
            let j = choose|j: int| 0 <= j < t.len() && #[trigger] t[j].0 == x;
            assert(s[j].0 == x);
        }
        if x == k {
            assert(t[i].0 == k);
        }
    }
    assert forall|x: Seq<char>| #[trigger] key_map(t).contains_key(x) implies key_map(t)[x] == key_map(s).insert(k, v)[x] by {
        let j = choose|j: int| 0 <= j < t.len() && #[trigger] t[j].0 == x;
        lemma_key_map_at(t, j);
        if j != i {
            assert(t[j] == s[j]);
            lemma_key_map_at(s, j);
            assert(s[j].0 != k) by {
                if j < i {
                    assert(s[j].0 != s[i].0);
                } else {
                    assert(s[i].0 != s[j].0);
                }
            }
        }
    }
    assert(key_map(t) =~= key_map(s).insert(k, v));
}

proof fn lemma_key_map_remove(s: Seq<(Seq<char>, AccountId)>, i: int)
    requires
        distinct_keys(s),
        0 <= i < s.len(),
    ensures
        distinct_keys(s.remove(i)),
        key_map(s.remove(i)) == key_map(s).remove(s[i].0),
{
    let k = s[i].0;
    let t = s.remove(i);
    assert forall|a: int, b: int| 0 <= a < b < t.len() implies t[a].0 != t[b].0 by {
        let a0 = if a < i { a } else { a + 1 };
        let b0 = if b < i { b } else { b + 1 };
        assert(t[a] == s[a0] && t[b] == s[b0]);
    }
    assert forall|j: int| 0 <= j < t.len() implies t[j].0 != k by {
        let j0 = if j < i { j } else { j + 1 };
        assert(t[j] == s[j0]);
        if j0 < i {
            assert(s[j0].0 != s[i].0);
        } else {
            assert(s[i].0 != s[j0].0);
        }
    }
    assert forall|x: Seq<char>| #[trigger] key_map(t).contains_key(x) == key_map(s).remove(k).contains_key(x) by {
        if key_map(s).contains_key(x) && x != k {
            let j = choose|j: int| 0 <= j < s.len() && #[trigger] s[j].0 == x;
            let j1 = if j < i { j } else { j - 1 };
            assert(t[j1] == s[j]);
        }
        if key_map(t).contains_key(x) {
            let j = choose|j: int| 0 <= j < t.len() && #[trigger] t[j].0 == x;
            let j0 = if j < i { j } else { j + 1 };
            assert(t[j] == s[j0]);
        }
    }
    assert forall|x: Seq<char>| #[trigger] key_map(t).contains_key(x) implies key_map(t)[x] == key_map(s).remove(k)[x] by {
        let j = choose|j: int| 0 <= j < t.len() && #[trigger] t[j].0 == x;
        let j0 = if j < i { j } else { j + 1 };
        assert(t[j] == s[j0]);
        lemma_key_map_at(t, j);
        lemma_key_map_at(s, j0);
    }
    assert(key_map(t) =~= key_map(s).remove(k));
}

proof fn lemma_key_map_len(s: Seq<(Seq<char>, AccountId)>)
    requires
        distinct_keys(s),
    ensures
        key_map(s).dom().len() == s.len(),
{
    let ks = s.map_values(|e: (Seq<char>, AccountId)| e.0);
    assert forall|i: int, j: int| 0 <= i < ks.len() && 0 <= j < ks.len() && i != j implies ks[i] != ks[j] by {
        if i < j {
            assert(s[i].0 != s[j].0);
        } else {
            assert(s[j].0 != s[i].0);
        }
    }
    assert(ks.no_duplicates());
    ks.unique_seq_to_set();
    assert forall|k: Seq<char>| #[trigger] key_map(s).dom().contains(k) == ks.to_set().contains(k) by {
        if key_map(s).dom().contains(k) {
            let i = choose|i: int| 0 <= i < s.len() && #[trigger] s[i].0 == k;
            assert(ks[i] == k);
        }
        if ks.to_set().contains(k) {
            let i = choose|i: int| 0 <= i < ks.len() && ks[i] == k;
            assert(s[i].0 == k);
        }
    }
    assert(key_map(s).dom() =~= ks.to_set());
}

impl View for AuthService {
    type V = Map<Seq<char>, AccountId>;

    closed spec fn view(&self) -> Map<Seq<char>, AccountId> {
        key_map(key_pairs(self.api_keys@))
    }
}

impl Default for AuthService {
    fn default() -> (r: Self)
        ensures
            r.wf(),
            r@ == Map::<Seq<char>, AccountId>::empty(),
    {
        AuthService::new()
    }
}

impl AuthService {
    pub closed spec fn wf(&self) -> bool {
        distinct_keys(key_pairs(self.api_keys@))
    }

    /// A service with no key.
    pub fn new() -> (r: Self)
        ensures
            r.wf(),
            r@ == Map::<Seq<char>, AccountId>::empty(),
    {
        let r = AuthService { api_keys: Vec::new() };
        assert(r@ =~= Map::<Seq<char>, AccountId>::empty());
        r
    }

    /// Where `key` is stored, if it is.
    fn position(&self, key: &String) -> (r: Option<usize>)
        requires
            self.wf(),
        ensures
            match r {
                Some(i) => i < self.api_keys@.len() && self.api_keys@[i as int].0@ == key@,
                None => !self@.contains_key(key@),
            },
    {
        let mut i: usize = 0;
        while i < self.api_keys.len()
            invariant
                0 <= i <= self.api_keys.len(),
                forall|j: int| 0 <= j < i ==> self.api_keys@[j].0@ != key@,
            decreases self.api_keys.len() - i,
        {
            if self.api_keys[i].0 == *key {
                return Some(i);
            }
            i = i + 1;
        }
        proof {
            let s = key_pairs(self.api_keys@);
            if self@.contains_key(key@) {
                let j = choose|j: int| 0 <= j < s.len() && #[trigger] s[j].0 == key@;
                assert(s[j].0 == self.api_keys@[j].0@);
            }
        }
        None
    }

    /// Registers `api_key` for `account_id` (a key registered again moves to the new account).
    pub fn register_api_key(&mut self, api_key: String, account_id: AccountId)
        requires
            old(self).wf(),
        ensures
            final(self).wf(),
            final(self)@ == old(self)@.insert(api_key@, account_id),
    {
        let ghost s = key_pairs(self.api_keys@);
        match self.position(&api_key) {
            Some(i) => {
                let ghost k = api_key@;
                self.api_keys.set(i, (api_key, account_id));
                proof {
                    assert(key_pairs(self.api_keys@) =~= s.update(i as int, (s[i as int].0, account_id)));
                    lemma_key_map_update(s, i as int, account_id);
                }
            },
            None => {
                let ghost k = api_key@;
                self.api_keys.push((api_key, account_id));
                proof {
                    assert(key_pairs(self.api_keys@) =~= s.push((k, account_id)));
                    lemma_key_map_push(s, k, account_id);
                }
            },
        }
    }

    /// The account of `api_key`, or `InvalidApiKey` when it is not registered.
    pub fn authenticate(&self, api_key: &str) -> (r: Result<AccountId, AuthError>)
        requires
            self.wf(),
        ensures
            r == if self@.contains_key(api_key@) {
                Ok::<AccountId, AuthError>(self@[api_key@])
            } else {
                Err::<AccountId, AuthError>(AuthError::InvalidApiKey)
            },
    {
        let key = api_key.to_owned();
        match self.position(&key) {
            Some(i) => {
                proof {
                    lemma_key_map_at(key_pairs(self.api_keys@), i as int);
                }
                Ok(self.api_keys[i].1)
            },
            None => Err(AuthError::InvalidApiKey),
        }
    }

    /// Whether `api_key` is registered.
    pub fn has_api_key(&self, api_key: &str) -> (r: bool)
        requires
            self.wf(),
        ensures
            r == self@.contains_key(api_key@),
    {
        let key = api_key.to_owned();
        match self.position(&key) {
            Some(i) => {
                proof {
                    lemma_key_map_at(key_pairs(self.api_keys@), i as int);
                }
                true
            },
            None => false,
        }
    }

    /// Revokes `api_key`; returns whether it was registered.
    pub fn revoke_api_key(&mut self, api_key: &str) -> (r: bool)
        requires
            old(self).wf(),
        ensures
            final(self).wf(),
            r == old(self)@.contains_key(api_key@),
            final(self)@ == old(self)@.remove(api_key@),
    {
        let key = api_key.to_owned();
        let ghost s = key_pairs(self.api_keys@);
        match self.position(&key) {
            Some(i) => {
                proof {
                    lemma_key_map_at(s, i as int);
                }
                let _ = self.api_keys.remove(i);
                proof {
                    assert(key_pairs(self.api_keys@) =~= s.remove(i as int));
                    lemma_key_map_remove(s, i as int);
                }
                true
            },
            None => {
                proof {
                    assert(old(self)@.remove(api_key@) =~= old(self)@);
                }
                false
            },
        }
    }

    /// Number of registered keys.
    pub fn key_count(&self) -> (r: usize)
        requires
            self.wf(),
        ensures
            r == self@.len(),
    {
        proof {
            lemma_key_map_len(key_pairs(self.api_keys@));
        }
        self.api_keys.len()
    }
}

} // verus!
