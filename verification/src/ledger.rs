//! The ledger capability: a named-account balance store with free and
//! reserved buckets.
//!
//! The store keeps one entry per account and a running total of everything
//! ever deposited.  Its well-formedness invariant says the entries' keys are
//! distinct and their balances sum to that total; since the total is a
//! machine word, every movement between accounts fits without overflow.

use vstd::prelude::*;

verus! {

/// The two balance buckets of one account.
#[derive(Clone, Copy, PartialEq, Eq, Structural, Debug)]
pub struct AccountData {
    /// Spendable balance.
    pub free: u64,
    /// Balance held in escrow.
    pub reserved: u64,
}

/// The smaller of two mathematical integers.
pub open spec fn spec_min(a: int, b: int) -> int {
    if a <= b {
        a
    } else {
        b
    }
}

/// Combined balance of one account.
pub open spec fn tot(a: AccountData) -> int {
    a.free + a.reserved
}

/// The map an entry sequence denotes; later entries shadow earlier ones,
/// though well-formed ledgers never hold a key twice.
pub closed spec fn map_of(s: Seq<(u64, AccountData)>) -> Map<u64, AccountData>
    decreases s.len(),
{
    if s.len() == 0 {
        Map::empty()
    } else {
        map_of(s.drop_last()).insert(s.last().0, s.last().1)
    }
}

/// Sum of all balances in an entry sequence.
pub closed spec fn sum_of(s: Seq<(u64, AccountData)>) -> int
    decreases s.len(),
{
    if s.len() == 0 {
        0int
    } else {
        sum_of(s.drop_last()) + tot(s.last().1)
    }
}

/// No key occurs twice.
pub closed spec fn distinct_keys(s: Seq<(u64, AccountData)>) -> bool {
    forall|i: int, j: int| 0 <= i < j < s.len() ==> s[i].0 != s[j].0
}

proof fn lemma_map_of_absent(s: Seq<(u64, AccountData)>, k: u64)
    requires
        forall|i: int| 0 <= i < s.len() ==> s[i].0 != k,
    ensures
        !map_of(s).contains_key(k),
    decreases s.len(),
{
    if s.len() > 0 {
        lemma_map_of_absent(s.drop_last(), k);
    }
}

proof fn lemma_map_of_at(s: Seq<(u64, AccountData)>, i: int)
    requires
        distinct_keys(s),
        0 <= i < s.len(),
    ensures
        map_of(s).contains_key(s[i].0),
        map_of(s)[s[i].0] == s[i].1,
    decreases s.len(),
{
    if i < s.len() - 1 {
        lemma_map_of_at(s.drop_last(), i);
        assert(s.drop_last()[i] == s[i]);
    }
}

proof fn lemma_map_of_update(s: Seq<(u64, AccountData)>, i: int, v: AccountData)
    requires
        distinct_keys(s),
        0 <= i < s.len(),
    ensures
        distinct_keys(s.update(i, (s[i].0, v))),
        map_of(s.update(i, (s[i].0, v))) == map_of(s).insert(s[i].0, v),
    decreases s.len(),
{
    let k = s[i].0;
    let t = s.update(i, (k, v));
    assert(forall|p: int| 0 <= p < s.len() ==> t[p].0 == s[p].0);
    if i == s.len() - 1 {
        assert(t.drop_last() =~= s.drop_last());
        assert(map_of(s).insert(k, v) =~= map_of(s.drop_last()).insert(k, v));
        assert(map_of(t) == map_of(s.drop_last()).insert(k, v));
    } else {
        let lk = s.last().0;
        let lv = s.last().1;
        assert(t.drop_last() =~= s.drop_last().update(i, (k, v)));
        lemma_map_of_update(s.drop_last(), i, v);
        assert(map_of(t) == map_of(s.drop_last()).insert(k, v).insert(lk, lv));
        assert(k != lk);
        assert(map_of(s.drop_last()).insert(k, v).insert(lk, lv) =~= map_of(
            s.drop_last(),
        ).insert(lk, lv).insert(k, v));
    }
}

proof fn lemma_map_of_push(s: Seq<(u64, AccountData)>, k: u64, v: AccountData)
    requires
        distinct_keys(s),
        forall|i: int| 0 <= i < s.len() ==> s[i].0 != k,
    ensures
        distinct_keys(s.push((k, v))),
        map_of(s.push((k, v))) == map_of(s).insert(k, v),
        sum_of(s.push((k, v))) == sum_of(s) + tot(v),
{
    assert(s.push((k, v)).drop_last() =~= s);
}

proof fn lemma_sum_nonneg(s: Seq<(u64, AccountData)>)
    ensures
        sum_of(s) >= 0,
    decreases s.len(),
{
    if s.len() > 0 {
        lemma_sum_nonneg(s.drop_last());
    }
}

proof fn lemma_sum_at(s: Seq<(u64, AccountData)>, i: int)
    requires
        0 <= i < s.len(),
    ensures
        tot(s[i].1) <= sum_of(s),
    decreases s.len(),
{
    if i == s.len() - 1 {
        lemma_sum_nonneg(s.drop_last());
    } else {
        lemma_sum_at(s.drop_last(), i);
        assert(s.drop_last()[i] == s[i]);
    }
}

proof fn lemma_sum_pair(s: Seq<(u64, AccountData)>, i: int, j: int)
    requires
        0 <= i < j < s.len(),
    ensures
        tot(s[i].1) + tot(s[j].1) <= sum_of(s),
    decreases s.len(),
{
    if j == s.len() - 1 {
        lemma_sum_at(s.drop_last(), i);
        assert(s.drop_last()[i] == s[i]);
    } else {
        lemma_sum_pair(s.drop_last(), i, j);
        assert(s.drop_last()[i] == s[i]);
        assert(s.drop_last()[j] == s[j]);
    }
}

proof fn lemma_sum_update(s: Seq<(u64, AccountData)>, i: int, v: AccountData)
    requires
        0 <= i < s.len(),
    ensures
        sum_of(s.update(i, (s[i].0, v))) == sum_of(s) - tot(s[i].1) + tot(v),
    decreases s.len(),
{
    let t = s.update(i, (s[i].0, v));
    if i == s.len() - 1 {
        assert(t.drop_last() =~= s.drop_last());
    } else {
        assert(t.drop_last() =~= s.drop_last().update(i, (s[i].0, v)));
        lemma_sum_update(s.drop_last(), i, v);
    }
}

/// Balance store with named accounts.
pub struct Ledger {
    entries: Vec<(u64, AccountData)>,
    issued: u64,
}

/// True when two ledgers agree on the balances of every account.
pub open spec fn same_balances(l0: Ledger, l1: Ledger) -> bool {
    forall|x: u64| #[trigger] l1.free_of(x) == l0.free_of(x) && l1.reserved_of(x) == l0.reserved_of(
        x,
    )
}

impl Ledger {
    /// Account contents by identity.
    pub closed spec fn balances(&self) -> Map<u64, AccountData> {
        map_of(self.entries@)
    }

    /// Everything ever deposited.
    pub closed spec fn issuance(&self) -> int {
        self.issued as int
    }

    /// Keys are distinct and balances sum to the issuance.
    pub closed spec fn wf(&self) -> bool {
        &&& distinct_keys(self.entries@)
        &&& sum_of(self.entries@) == self.issued as int
    }

    /// Spendable balance of an account; accounts never touched hold zero.
    pub open spec fn free_of(&self, id: u64) -> int {
        if self.balances().contains_key(id) {
            self.balances()[id].free as int
        } else {
            0int
        }
    }

    /// Reserved balance of an account.
    pub open spec fn reserved_of(&self, id: u64) -> int {
        if self.balances().contains_key(id) {
            self.balances()[id].reserved as int
        } else {
            0int
        }
    }

    /// Combined balance of an account.
    pub open spec fn total_of(&self, id: u64) -> int {
        self.free_of(id) + self.reserved_of(id)
    }

    /// An empty store.
    pub fn new() -> (l: Ledger)
        ensures
            l.wf(),
            l.issuance() == 0,
            forall|x: u64| #[trigger] l.free_of(x) == 0 && l.reserved_of(x) == 0,
    {
        let l = Ledger { entries: Vec::new(), issued: 0 };
        proof {
            assert(l.entries@.len() == 0);
            assert forall|x: u64| #[trigger] l.free_of(x) == 0 && l.reserved_of(x) == 0 by {
                lemma_map_of_absent(l.entries@, x);
            }
        }
        l
    }

    fn find(&self, id: u64) -> (r: Option<usize>)
        ensures
            match r {
                Some(i) => i < self.entries@.len() && self.entries@[i as int].0 == id,
                None => forall|j: int| 0 <= j < self.entries@.len() ==> self.entries@[j].0 != id,
            },
    {
        let n = self.entries.len();
        let mut i: usize = 0;
        while i < n
            invariant
                n == self.entries@.len(),
                i <= n,
                forall|j: int| 0 <= j < i ==> self.entries@[j].0 != id,
            decreases n - i,
        {
            if self.entries[i].0 == id {
                return Some(i);
            }
            i = i + 1;
        }
        None
    }

    /// Create value out of nothing for an account, growing the issuance;
    /// refused when the issuance would no longer fit in a machine word.
    pub fn deposit(&mut self, id: u64, amount: u64) -> (ok: bool)
        requires
            old(self).wf(),
        ensures
            final(self).wf(),
            ok == (old(self).issuance() + amount <= u64::MAX),
            ok ==> {
                &&& final(self).free_of(id) == old(self).free_of(id) + amount
                &&& final(self).reserved_of(id) == old(self).reserved_of(id)
                &&& final(self).issuance() == old(self).issuance() + amount
                &&& forall|x: u64|
                    x != id ==> #[trigger] final(self).free_of(x) == old(self).free_of(x)
                        && final(self).reserved_of(x) == old(self).reserved_of(x)
            },
            !ok ==> same_balances(*old(self), *final(self)) && final(self).issuance() == old(self).issuance(),
    {
        if amount > u64::MAX - self.issued {
            return false;
        }
        match self.find(id) {
            Some(i) => {
                let acct = self.entries[i].1;
                proof {
                    lemma_map_of_at(self.entries@, i as int);
                    lemma_sum_at(self.entries@, i as int);
                }
                let new_acct = AccountData { free: acct.free + amount, reserved: acct.reserved };
                proof {
                    lemma_map_of_update(self.entries@, i as int, new_acct);
                    lemma_sum_update(self.entries@, i as int, new_acct);
                }
                self.entries[i] = (id, new_acct);
                self.issued = self.issued + amount;
            },
            None => {
                proof {
                    lemma_map_of_absent(self.entries@, id);
                    lemma_map_of_push(self.entries@, id, AccountData { free: amount, reserved: 0 });
                }
                self.entries.push((id, AccountData { free: amount, reserved: 0 }));
                self.issued = self.issued + amount;
            },
        }
        true
    }

    /// Whether the account could reserve the amount right now.
    pub fn can_reserve(&self, id: u64, amount: u64) -> (r: bool)
        requires
            self.wf(),
        ensures
            r == (self.free_of(id) >= amount),
    {
        match self.find(id) {
            Some(i) => {
                proof {
                    lemma_map_of_at(self.entries@, i as int);
                }
                self.entries[i].1.free >= amount
            },
            None => {
                proof {
                    lemma_map_of_absent(self.entries@, id);
                }
                amount == 0
            },
        }
    }

    /// Move the amount from the account's free bucket into escrow; fails,
    /// changing nothing, when the spendable balance is insufficient.
    pub fn reserve(&mut self, id: u64, amount: u64) -> (ok: bool)
        requires
            old(self).wf(),
        ensures
            final(self).wf(),
            final(self).issuance() == old(self).issuance(),
            ok == (old(self).free_of(id) >= amount),
            ok ==> {
                &&& final(self).free_of(id) == old(self).free_of(id) - amount
                &&& final(self).reserved_of(id) == old(self).reserved_of(id) + amount
                &&& forall|x: u64|
                    x != id ==> #[trigger] final(self).free_of(x) == old(self).free_of(x)
                        && final(self).reserved_of(x) == old(self).reserved_of(x)
            },
            !ok ==> same_balances(*old(self), *final(self)),
    {
        match self.find(id) {
            Some(i) => {
                let acct = self.entries[i].1;
                proof {
                    lemma_map_of_at(self.entries@, i as int);
                }
                if acct.free < amount {
                    return false;
                }
                proof {
                    lemma_sum_at(self.entries@, i as int);
                }
                let new_acct = AccountData {
                    free: acct.free - amount,
                    reserved: acct.reserved + amount,
                };
                proof {
                    lemma_map_of_update(self.entries@, i as int, new_acct);
                    lemma_sum_update(self.entries@, i as int, new_acct);
                }
                self.entries[i] = (id, new_acct);
                true
            },
            None => {
                proof {
                    lemma_map_of_absent(self.entries@, id);
                }
                amount == 0
            },
        }
    }

    /// Release up to the amount from escrow back to the account's free
    /// bucket; returns how much actually moved.
    pub fn unreserve(&mut self, id: u64, amount: u64) -> (moved: u64)
        requires
            old(self).wf(),
        ensures
            final(self).wf(),
            final(self).issuance() == old(self).issuance(),
            moved == spec_min(amount as int, old(self).reserved_of(id)),
            final(self).free_of(id) == old(self).free_of(id) + moved,
            final(self).reserved_of(id) == old(self).reserved_of(id) - moved,
            forall|x: u64|
                x != id ==> #[trigger] final(self).free_of(x) == old(self).free_of(x)
                    && final(self).reserved_of(x) == old(self).reserved_of(x),
    {
        match self.find(id) {
            Some(i) => {
                let acct = self.entries[i].1;
                proof {
                    lemma_map_of_at(self.entries@, i as int);
                    lemma_sum_at(self.entries@, i as int);
                }
                let m = if amount <= acct.reserved {
                    amount
                } else {
                    acct.reserved
                };
                let new_acct = AccountData { free: acct.free + m, reserved: acct.reserved - m };
                proof {
                    lemma_map_of_update(self.entries@, i as int, new_acct);
                    lemma_sum_update(self.entries@, i as int, new_acct);
                }
                self.entries[i] = (id, new_acct);
                m
            },
            None => {
                proof {
                    lemma_map_of_absent(self.entries@, id);
                }
                0
            },
        }
    }

    /// Move up to the amount from one account's escrow to another account's
    /// free bucket; returns how much actually moved.  With both accounts
    /// equal this is a release from escrow.
    pub fn repatriate(&mut self, from: u64, to: u64, amount: u64) -> (moved: u64)
        requires
            old(self).wf(),
        ensures
            final(self).wf(),
            final(self).issuance() == old(self).issuance(),
            moved == spec_min(amount as int, old(self).reserved_of(from)),
            from == to ==> {
                &&& final(self).free_of(from) == old(self).free_of(from) + moved
                &&& final(self).reserved_of(from) == old(self).reserved_of(from) - moved
            },
            from != to ==> {
                &&& final(self).free_of(from) == old(self).free_of(from)
                &&& final(self).reserved_of(from) == old(self).reserved_of(from) - moved
                &&& final(self).free_of(to) == old(self).free_of(to) + moved
                &&& final(self).reserved_of(to) == old(self).reserved_of(to)
            },
            forall|x: u64|
                x != from && x != to ==> #[trigger] final(self).free_of(x) == old(self).free_of(x)
                    && final(self).reserved_of(x) == old(self).reserved_of(x),
    {
        if from == to {
            return self.unreserve(from, amount);
        }
        match self.find(from) {
            Some(i) => {
                let acct = self.entries[i].1;
                proof {
                    lemma_map_of_at(self.entries@, i as int);
                }
                let m = if amount <= acct.reserved {
                    amount
                } else {
                    acct.reserved
                };
                if m == 0 {
                    return 0;
                }
                let debited = AccountData { free: acct.free, reserved: acct.reserved - m };
                proof {
                    lemma_map_of_update(self.entries@, i as int, debited);
                    lemma_sum_update(self.entries@, i as int, debited);
                }
                self.entries[i] = (from, debited);
                match self.find(to) {
                    Some(j) => {
                        let dst = self.entries[j].1;
                        proof {
                            lemma_map_of_at(self.entries@, j as int);
                            lemma_sum_at(self.entries@, j as int);
                            lemma_sum_nonneg(self.entries@);
                        }
                        let credited = AccountData { free: dst.free + m, reserved: dst.reserved };
                        proof {
                            lemma_map_of_update(self.entries@, j as int, credited);
                            lemma_sum_update(self.entries@, j as int, credited);
                        }
                        self.entries[j] = (to, credited);
                        m
                    },
                    None => {
                        proof {
                            lemma_map_of_absent(self.entries@, to);
                            lemma_map_of_push(
                                self.entries@,
                                to,
                                AccountData { free: m, reserved: 0 },
                            );
                        }
                        self.entries.push((to, AccountData { free: m, reserved: 0 }));
                        m
                    },
                }
            },
            None => {
                proof {
                    lemma_map_of_absent(self.entries@, from);
                }
                0
            },
        }
    }

    /// Move the amount between free buckets; fails, changing nothing, when
    /// the source's spendable balance is insufficient.
    pub fn transfer(&mut self, from: u64, to: u64, amount: u64) -> (ok: bool)
        requires
            old(self).wf(),
        ensures
            final(self).wf(),
            final(self).issuance() == old(self).issuance(),
            ok == (old(self).free_of(from) >= amount),
            !ok ==> same_balances(*old(self), *final(self)),
            ok && from == to ==> same_balances(*old(self), *final(self)),
            ok && from != to ==> {
                &&& final(self).free_of(from) == old(self).free_of(from) - amount
                &&& final(self).reserved_of(from) == old(self).reserved_of(from)
                &&& final(self).free_of(to) == old(self).free_of(to) + amount
                &&& final(self).reserved_of(to) == old(self).reserved_of(to)
                &&& forall|x: u64|
                    x != from && x != to ==> #[trigger] final(self).free_of(x) == old(self).free_of(
                        x,
                    ) && final(self).reserved_of(x) == old(self).reserved_of(x)
            },
    {
        match self.find(from) {
            Some(i) => {
                let acct = self.entries[i].1;
                proof {
                    lemma_map_of_at(self.entries@, i as int);
                }
                if acct.free < amount {
                    return false;
                }
                if from == to {
                    return true;
                }
                let debited = AccountData { free: acct.free - amount, reserved: acct.reserved };
                proof {
                    lemma_map_of_update(self.entries@, i as int, debited);
                    lemma_sum_update(self.entries@, i as int, debited);
                }
                self.entries[i] = (from, debited);
                match self.find(to) {
                    Some(j) => {
                        let dst = self.entries[j].1;
                        proof {
                            lemma_map_of_at(self.entries@, j as int);
                            lemma_sum_at(self.entries@, j as int);
                        }
                        let credited = AccountData {
                            free: dst.free + amount,
                            reserved: dst.reserved,
                        };
                        proof {
                            lemma_map_of_update(self.entries@, j as int, credited);
                            lemma_sum_update(self.entries@, j as int, credited);
                        }
                        self.entries[j] = (to, credited);
                        true
                    },
                    None => {
                        proof {
                            lemma_map_of_absent(self.entries@, to);
                            lemma_map_of_push(
                                self.entries@,
                                to,
                                AccountData { free: amount, reserved: 0 },
                            );
                        }
                        self.entries.push((to, AccountData { free: amount, reserved: 0 }));
                        true
                    },
                }
            },
            None => {
                proof {
                    lemma_map_of_absent(self.entries@, from);
                }
                amount == 0
            },
        }
    }

    /// Spendable balance of the account.
    pub fn free_balance(&self, id: u64) -> (r: u64)
        requires
            self.wf(),
        ensures
            r == self.free_of(id),
    {
        match self.find(id) {
            Some(i) => {
                proof {
                    lemma_map_of_at(self.entries@, i as int);
                }
                self.entries[i].1.free
            },
            None => {
                proof {
                    lemma_map_of_absent(self.entries@, id);
                }
                0
            },
        }
    }

    /// Escrowed balance of the account.
    pub fn reserved_balance(&self, id: u64) -> (r: u64)
        requires
            self.wf(),
        ensures
            r == self.reserved_of(id),
    {
        match self.find(id) {
            Some(i) => {
                proof {
                    lemma_map_of_at(self.entries@, i as int);
                }
                self.entries[i].1.reserved
            },
            None => {
                proof {
                    lemma_map_of_absent(self.entries@, id);
                }
                0
            },
        }
    }

    /// Combined balance of the account.
    pub fn total_balance(&self, id: u64) -> (r: u64)
        requires
            self.wf(),
        ensures
            r == self.total_of(id),
    {
        match self.find(id) {
            Some(i) => {
                proof {
                    lemma_map_of_at(self.entries@, i as int);
                    lemma_sum_at(self.entries@, i as int);
                    lemma_sum_nonneg(self.entries@);
                }
                let acct = self.entries[i].1;
                acct.free + acct.reserved
            },
            None => {
                proof {
                    lemma_map_of_absent(self.entries@, id);
                }
                0
            },
        }
    }
}

} // verus!
