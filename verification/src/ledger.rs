use vstd::prelude::*;

verus! {

/// The balance that a record map gives a holder: the recorded amount, or zero
/// where the holder has no record.
pub open spec fn balance_in(m: Map<Seq<u8>, int>, holder: Seq<u8>) -> int {
    if m.contains_key(holder) {
        m[holder]
    } else {
        0
    }
}

/// The records after a mint of `amount` to `to`: the holder's balance,
/// read with a missing record as zero, grows by `amount`.
pub open spec fn minted(m: Map<Seq<u8>, int>, to: Seq<u8>, amount: int) -> Map<Seq<u8>, int> {
    m.insert(to, balance_in(m, to) + amount)
}

/// The records after a transfer of `amount` from `from` to `to`: both
/// balances are read first, then `from` is written with its balance less
/// `amount`, then `to` with its balance as read plus `amount`. Where `from`
/// and `to` are one holder, the second write is the one that stays.
pub open spec fn transferred(m: Map<Seq<u8>, int>, from: Seq<u8>, to: Seq<u8>, amount: int) -> Map<
    Seq<u8>,
    int,
> {
    m.insert(from, balance_in(m, from) - amount).insert(to, balance_in(m, to) + amount)
}

/// The sum of the balances of a record map with finitely many records.
pub open spec fn total_of(m: Map<Seq<u8>, int>) -> int
    decreases m.dom().len(),
    when m.dom().finite()
{
    if m.dom().len() == 0 {
        0
    } else {
        let k = m.dom().choose();
        m[k] + total_of(m.remove(k))
    }
}

/// Taking any one record out of a finite record map takes its balance out of
/// the total.
pub proof fn lemma_total_remove(m: Map<Seq<u8>, int>, k: Seq<u8>)
    requires
        m.dom().finite(),
        m.contains_key(k),
    ensures
        total_of(m) == m[k] + total_of(m.remove(k)),
    decreases m.dom().len(),
{
    let c = m.dom().choose();
    assert(m.dom().len() != 0);
    if c != k {
        assert(m.remove(c).contains_key(k));
        lemma_total_remove(m.remove(c), k);
        assert(m.remove(k).contains_key(c));
        lemma_total_remove(m.remove(k), c);
        assert(m.remove(c).remove(k) =~= m.remove(k).remove(c));
    }
}

/// The sum of the amounts of a sequence of records.
spec fn sum_amounts(s: Seq<BalanceEntry>) -> int
    decreases s.len(),
{
    if s.len() == 0 {
        0
    } else {
        sum_amounts(s.drop_last()) + s.last().amount
    }
}

proof fn lemma_sum_update(s: Seq<BalanceEntry>, i: int, e: BalanceEntry)
    requires
        0 <= i < s.len(),
    ensures
        sum_amounts(s.update(i, e)) == sum_amounts(s) - s[i].amount + e.amount,
    decreases s.len(),
{
    if i == s.len() - 1 {
        assert(s.update(i, e).drop_last() =~= s.drop_last());
    } else {
        assert(s.update(i, e).drop_last() =~= s.drop_last().update(i, e));
        lemma_sum_update(s.drop_last(), i, e);
    }
}

proof fn lemma_sum_push(s: Seq<BalanceEntry>, e: BalanceEntry)
    ensures
        sum_amounts(s.push(e)) == sum_amounts(s) + e.amount,
{
    assert(s.push(e).drop_last() =~= s);
}

/// One stored balance: the holder's identity, as bytes, and its amount.
struct BalanceEntry {
    holder: Vec<u8>,
    amount: i128,
}

spec fn key_of(s: Seq<BalanceEntry>, i: int) -> Seq<u8> {
    s[i].holder@
}

/// No holder has two records in `s`.
spec fn distinct(s: Seq<BalanceEntry>) -> bool {
    forall|i: int, j: int| 0 <= i < j < s.len() ==> #[trigger] key_of(s, i) != #[trigger] key_of(s, j)
}

spec fn holds(s: Seq<BalanceEntry>, holder: Seq<u8>) -> bool {
    exists|i: int| 0 <= i < s.len() && #[trigger] key_of(s, i) == holder
}

/// The record map of a sequence of records: each holder with a record maps
/// to the amount of that record.
spec fn records(s: Seq<BalanceEntry>) -> Map<Seq<u8>, int> {
    Map::new(
        |k: Seq<u8>| holds(s, k),
        |k: Seq<u8>| s[choose|i: int| 0 <= i < s.len() && #[trigger] key_of(s, i) == k].amount as int,
    )
}

proof fn lemma_records_at(s: Seq<BalanceEntry>, i: int)
    requires
        distinct(s),
        0 <= i < s.len(),
    ensures
        records(s).contains_key(key_of(s, i)),
        records(s)[key_of(s, i)] == s[i].amount,
{
    let k = key_of(s, i);
    assert(holds(s, k));
    let j = choose|j: int| 0 <= j < s.len() && #[trigger] key_of(s, j) == k;
    if j < i {
        assert(key_of(s, j) != key_of(s, i));
    } else if i < j {
        assert(key_of(s, i) != key_of(s, j));
    }
}

/// Writing record `e` at position `i` of `s` (in place of the record of the
/// same holder, or appended where `i` is the length and the holder has no
/// record) gives the record map of `s` with the holder's record replaced.
proof fn lemma_records_write(s: Seq<BalanceEntry>, t: Seq<BalanceEntry>, i: int, e: BalanceEntry)
    requires
        distinct(s),
        0 <= i <= s.len(),
        t.len() == if i < s.len() { s.len() } else { s.len() + 1 },
        t[i] == e,
        forall|j: int| 0 <= j < s.len() && j != i ==> t[j] == s[j],
        i < s.len() ==> key_of(s, i) == e.holder@,
        i == s.len() ==> !holds(s, e.holder@),
    ensures
        distinct(t),
        records(t) == records(s).insert(e.holder@, e.amount as int),
{
    let h = e.holder@;
    let m = records(s).insert(h, e.amount as int);
    assert forall|a: int, b: int| 0 <= a < b < t.len() implies #[trigger] key_of(t, a) != #[trigger] key_of(
        t,
        b,
    ) by {
        if b == s.len() {
            assert(key_of(t, a) == key_of(s, a));
        } else if a == i {
            assert(key_of(s, a) != key_of(s, b));
        } else if b == i {
            assert(key_of(s, a) != key_of(s, b));
        } else {
            assert(key_of(s, a) != key_of(s, b));
        }
    }
    assert forall|k: Seq<u8>| #[trigger] holds(t, k) == m.contains_key(k) by {
        if holds(t, k) {
            let j = choose|j: int| 0 <= j < t.len() && #[trigger] key_of(t, j) == k;
            if j != i {
                assert(key_of(s, j) == k);
            }
        }
        if records(s).contains_key(k) && k != h {
            let j = choose|j: int| 0 <= j < s.len() && #[trigger] key_of(s, j) == k;
            assert(key_of(t, j) == k);
        }
        if k == h {
            assert(key_of(t, i) == k);
        }
    }
    assert forall|k: Seq<u8>| #[trigger] holds(t, k) implies records(t)[k] == m[k] by {
        let j = choose|j: int| 0 <= j < t.len() && #[trigger] key_of(t, j) == k;
        lemma_records_at(t, j);
        if j != i {
            assert(key_of(s, j) == k);
            lemma_records_at(s, j);
        }
    }
    assert(records(t) =~= m);
}

/// The amounts of distinct records sum to the total of their record map,
/// which has finitely many records.
proof fn lemma_sum_is_total(s: Seq<BalanceEntry>)
    requires
        distinct(s),
    ensures
        records(s).dom().finite(),
        sum_amounts(s) == total_of(records(s)),
    decreases s.len(),
{
    if s.len() == 0 {
        assert(records(s).dom() =~= Set::<Seq<u8>>::empty());
        assert(records(s) =~= Map::<Seq<u8>, int>::empty());
    } else {
        let p = s.drop_last();
        let e = s.last();
        let n = p.len() as int;
        assert(distinct(p)) by {
            assert forall|a: int, b: int| 0 <= a < b < p.len() implies #[trigger] key_of(p, a)
                != #[trigger] key_of(p, b) by {
                assert(key_of(s, a) != key_of(s, b));
            }
        }
        assert(!holds(p, e.holder@)) by {
            if holds(p, e.holder@) {
                let j = choose|j: int| 0 <= j < p.len() && #[trigger] key_of(p, j) == e.holder@;
                assert(key_of(s, j) != key_of(s, n));
            }
        }
        lemma_records_write(p, s, n, e);
        lemma_sum_is_total(p);
        assert(records(s).dom() =~= records(p).dom().insert(e.holder@));
        lemma_total_remove(records(s), e.holder@);
        assert(records(s).remove(e.holder@) =~= records(p));
    }
}

/// The balances of a token, one record per holder.
pub struct MockToken {
    entries: Vec<BalanceEntry>,
}

impl MockToken {
    /// The sum of all recorded balances: the token's total supply.
    pub closed spec fn supply(self) -> int {
        sum_amounts(self.entries@)
    }

    /// No holder has two records.
    pub closed spec fn wf(self) -> bool {
        distinct(self.entries@)
    }
}

impl View for MockToken {
    type V = Map<Seq<u8>, int>;

    closed spec fn view(&self) -> Map<Seq<u8>, int> {
        records(self.entries@)
    }
}

impl MockToken {
    /// A ledger has finitely many records, and its supply is the total of
    /// its recorded balances.
    pub proof fn lemma_supply_is_total(self)
        requires
            self.wf(),
        ensures
            self@.dom().finite(),
            self.supply() == total_of(self@),
    {
        lemma_sum_is_total(self.entries@);
    }

    /// Every recorded balance fits in `i128`.
    pub proof fn lemma_balances_fit(self)
        requires
            self.wf(),
        ensures
            forall|k: Seq<u8>| #[trigger] self@.contains_key(k) ==> i128::MIN <= self@[k] <= i128::MAX,
    {
        assert forall|k: Seq<u8>| #[trigger] self@.contains_key(k) implies i128::MIN <= self@[k]
            <= i128::MAX by {
            let j = choose|j: int| 0 <= j < self.entries@.len() && #[trigger] key_of(self.entries@, j) == k;
            lemma_records_at(self.entries@, j);
        }
    }
}

fn same_holder(a: &[u8], b: &[u8]) -> (r: bool)
    ensures
        r == (a@ == b@),
{
    if a.len() != b.len() {
        return false;
    }
    let mut i: usize = 0;
    while i < a.len()
        invariant
            a@.len() == b@.len(),
            i <= a@.len(),
            forall|j: int| 0 <= j < i ==> a@[j] == b@[j],
        decreases a@.len() - i,
    {
        if a[i] != b[i] {
            return false;
        }
        i = i + 1;
    }
    assert(a@ =~= b@);
    true
}

impl MockToken {
    /// A ledger with no records.
    pub fn new() -> (r: Self)
        ensures
            r.wf(),
            r@ == Map::<Seq<u8>, int>::empty(),
            r.supply() == 0,
    {
        let r = MockToken { entries: Vec::new() };
        assert(r@ =~= Map::<Seq<u8>, int>::empty());
        r
    }

    fn find(&self, holder: &[u8]) -> (r: Option<usize>)
        requires
            self.wf(),
        ensures
            match r {
                Some(i) => i < self.entries@.len() && key_of(self.entries@, i as int) == holder@,
                None => !holds(self.entries@, holder@),
            },
    {
        let mut i: usize = 0;
        while i < self.entries.len()
            invariant
                i <= self.entries@.len(),
                forall|j: int| 0 <= j < i ==> #[trigger] key_of(self.entries@, j) != holder@,
            decreases self.entries@.len() - i,
        {
            if same_holder(self.entries[i].holder.as_slice(), holder) {
                return Some(i);
            }
            i = i + 1;
        }
        None
    }

    /// The balance of `holder`: its recorded amount, or zero where it has no
    /// record.
    pub fn balance(&self, holder: &[u8]) -> (r: i128)
        requires
            self.wf(),
        ensures
            r == balance_in(self@, holder@),
    {
        match self.find(holder) {
            Some(i) => {
                proof {
                    lemma_records_at(self.entries@, i as int);
                }
                self.entries[i].amount
            },
            None => {
                assert(!self@.contains_key(holder@));
                0
            },
        }
    }

    /// Records `amount` as the balance of `holder`, in place of any earlier
    /// record of it.
    pub fn set_balance(&mut self, holder: &[u8], amount: i128)
        requires
            old(self).wf(),
        ensures
            final(self).wf(),
            final(self)@ == old(self)@.insert(holder@, amount as int),
            final(self).supply() == old(self).supply() - balance_in(old(self)@, holder@) + amount,
    {
        let ghost pre = self.entries@;
        let found = self.find(holder);
        let entry = BalanceEntry { holder: vstd::slice::slice_to_vec(holder), amount };
        match found {
            Some(i) => {
                proof {
                    lemma_records_at(pre, i as int);
                    lemma_sum_update(pre, i as int, entry);
                }
                self.entries.set(i, entry);
                proof {
                    lemma_records_write(pre, self.entries@, i as int, entry);
                }
            },
            None => {
                proof {
                    lemma_sum_push(pre, entry);
                }
                self.entries.push(entry);
                proof {
                    lemma_records_write(pre, self.entries@, pre.len() as int, entry);
                }
            },
        }
    }
}

impl MockToken {
    /// Credits `to` with `amount`: its balance, read as zero where it has no
    /// record, is written back grown by `amount`.
    pub fn mint(&mut self, to: &[u8], amount: i128)
        requires
            old(self).wf(),
            i128::MIN <= balance_in(old(self)@, to@) + amount <= i128::MAX,
        ensures
            final(self).wf(),
            final(self)@ == minted(old(self)@, to@, amount as int),
            final(self).supply() == old(self).supply() + amount,
    {
        let bal = self.balance(to);
        self.set_balance(to, bal + amount);
    }

    /// Moves `amount` from `from` to `to`. Both balances are read first; then
    /// `from` is written with its balance less `amount` and `to` with its
    /// balance plus `amount`. Balances may go below zero. A transfer from a
    /// holder to itself thus leaves it `amount` richer.
    pub fn transfer(&mut self, from: &[u8], to: &[u8], amount: i128)
        requires
            old(self).wf(),
            i128::MIN <= balance_in(old(self)@, from@) - amount <= i128::MAX,
            i128::MIN <= balance_in(old(self)@, to@) + amount <= i128::MAX,
        ensures
            final(self).wf(),
            final(self)@ == transferred(old(self)@, from@, to@, amount as int),
            from@ != to@ ==> final(self).supply() == old(self).supply(),
            from@ == to@ ==> final(self).supply() == old(self).supply() + amount,
    {
        let fb = self.balance(from);
        let tb = self.balance(to);
        self.set_balance(from, fb - amount);
        self.set_balance(to, tb + amount);
    }
}

} // verus!
