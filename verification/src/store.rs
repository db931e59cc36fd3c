use vstd::prelude::*;

use crate::types::SlotInfo;
use crate::types::SlotInfoV;

verus! {

/// One slot of an owner's collection: the key and what is stored under it.
pub struct SlotEntry {
    pub slot_time: u64,
    pub info: SlotInfo,
}

impl View for SlotEntry {
    type V = (u64, SlotInfoV);

    open spec fn view(&self) -> (u64, SlotInfoV) {
        (self.slot_time, self.info@)
    }
}

/// One owner's slots, kept in strictly ascending order of `slot_time`.
pub struct OwnerSlots {
    pub entries: Vec<SlotEntry>,
}

/// The sequence of (time, slot) pairs a sequence of entries denotes.
pub open spec fn entries_view(s: Seq<SlotEntry>) -> Seq<(u64, SlotInfoV)> {
    s.map(|i: int, e: SlotEntry| e@)
}

impl View for OwnerSlots {
    type V = Seq<(u64, SlotInfoV)>;

    open spec fn view(&self) -> Seq<(u64, SlotInfoV)> {
        entries_view(self.entries@)
    }
}

impl OwnerSlots {
    /// Slot times are unique and ascending: the collection is a map ordered
    /// by its key.
    pub open spec fn wf(&self) -> bool {
        forall|i: int, j: int|
            0 <= i < j < self.entries@.len()
                ==> self.entries@[i].slot_time < self.entries@[j].slot_time
    }

    pub open spec fn has_slot(&self, t: u64) -> bool {
        exists|i: int| 0 <= i < self.entries@.len() && self.entries@[i].slot_time == t
    }

    pub open spec fn index_of(&self, t: u64) -> int {
        choose|i: int| 0 <= i < self.entries@.len() && self.entries@[i].slot_time == t
    }

    pub open spec fn slot_at(&self, t: u64) -> SlotInfoV {
        self.entries@[self.index_of(t)].info@
    }

    /// Under `wf`, a slot time occurs at one index only.
    pub proof fn lemma_time_unique(&self, a: int, b: int)
        requires
            self.wf(),
            0 <= a < self.entries@.len(),
            0 <= b < self.entries@.len(),
            self.entries@[a].slot_time == self.entries@[b].slot_time,
        ensures
            a == b,
    {
    }

    /// The index at which a present slot time stands.
    pub proof fn lemma_index_of(&self, t: u64, i: int)
        requires
            self.wf(),
            0 <= i < self.entries@.len(),
            self.entries@[i].slot_time == t,
        ensures
            self.has_slot(t),
            self.index_of(t) == i,
            self.slot_at(t) == self.entries@[i].info@,
    {
        assert(self.has_slot(t));
        let j = self.index_of(t);
        self.lemma_time_unique(i, j);
    }

    /// A present key appears in the view with its stored value, and a pair
    /// in the view names a present key and its stored value.
    pub proof fn lemma_contains(&self, u: u64)
        requires
            self.wf(),
        ensures
            self.has_slot(u) ==> self@.contains((u, self.slot_at(u))),
            forall|v: SlotInfoV|
                #[trigger] self@.contains((u, v)) ==> self.has_slot(u) && self.slot_at(u) == v,
    {
        if self.has_slot(u) {
            let idx = self.index_of(u);
            assert(self@[idx] == (u, self.slot_at(u)));
        }
        assert forall|v: SlotInfoV| #[trigger] self@.contains((u, v))
            implies self.has_slot(u) && self.slot_at(u) == v by {
            let idx = choose|idx: int| 0 <= idx < self@.len() && self@[idx] == (u, v);
            assert(self.entries@[idx].slot_time == u);
            self.lemma_index_of(u, idx);
        }
    }

    /// Linear search for the entry keyed `t`.
    pub fn find(&self, t: u64) -> (r: Option<usize>)
        requires
            self.wf(),
        ensures
            match r {
                Some(j) => {
                    &&& j < self.entries@.len()
                    &&& self.entries@[j as int].slot_time == t
                    &&& self.has_slot(t)
                    &&& self.index_of(t) == j as int
                },
                None => !self.has_slot(t),
            },
    {
        let n = self.entries.len();
        let mut j: usize = 0;
        while j < n
            invariant
                self.wf(),
                n == self.entries@.len(),
                j <= n,
                forall|k: int| 0 <= k < j ==> self.entries@[k].slot_time != t,
            decreases n - j,
        {
            if self.entries[j].slot_time == t {
                proof {
                    self.lemma_index_of(t, j as int);
                }
                return Some(j);
            }
            j = j + 1;
        }
        None
    }

    /// The position before which `t` belongs: all earlier times are below
    /// `t`, all times from it on are at least `t`.
    pub fn insertion_point(&self, t: u64) -> (j: usize)
        requires
            self.wf(),
        ensures
            j <= self.entries@.len(),
            forall|k: int| 0 <= k < j ==> self.entries@[k].slot_time < t,
            forall|k: int| j <= k < self.entries@.len() ==> self.entries@[k].slot_time >= t,
    {
        let n = self.entries.len();
        let mut j: usize = 0;
        while j < n && self.entries[j].slot_time < t
            invariant
                n == self.entries@.len(),
                j <= n,
                forall|k: int| 0 <= k < j ==> self.entries@[k].slot_time < t,
            decreases n - j,
        {
            j = j + 1;
        }
        proof {
            if j < n {
                assert forall|k: int| j <= k < self.entries@.len()
                    implies self.entries@[k].slot_time >= t by {
                    if k > j {
                        assert(self.entries@[j as int].slot_time
                            < self.entries@[k].slot_time);
                    }
                }
            }
        }
        j
    }
}

/// Replacing the entry at `j` without changing its key keeps the collection
/// well formed and leaves every other slot as it was.
pub proof fn lemma_slots_update(pre: OwnerSlots, post: OwnerSlots, j: int, e: SlotEntry)
    requires
        pre.wf(),
        0 <= j < pre.entries@.len(),
        post.entries@ == pre.entries@.update(j, e),
        e.slot_time == pre.entries@[j].slot_time,
    ensures
        post.wf(),
        post.has_slot(e.slot_time),
        post.slot_at(e.slot_time) == e.info@,
        forall|u: u64| post.has_slot(u) == pre.has_slot(u),
        forall|u: u64|
            u != e.slot_time && pre.has_slot(u) ==> post.slot_at(u) == pre.slot_at(u),
        post.entries@.len() == pre.entries@.len(),
{
    assert(forall|k: int|
        0 <= k < post.entries@.len()
            ==> post.entries@[k].slot_time == pre.entries@[k].slot_time);
    post.lemma_index_of(e.slot_time, j);
    assert forall|u: u64| post.has_slot(u) == pre.has_slot(u) by {
        if pre.has_slot(u) {
            let k = pre.index_of(u);
            assert(post.entries@[k].slot_time == u);
            assert(post.has_slot(u));
        }
        if post.has_slot(u) {
            let k = choose|k: int|
                0 <= k < post.entries@.len() && post.entries@[k].slot_time == u;
            assert(pre.entries@[k].slot_time == u);
            assert(pre.has_slot(u));
        }
    }
    assert forall|u: u64| u != e.slot_time && pre.has_slot(u)
        implies post.slot_at(u) == pre.slot_at(u) by {
        let k = pre.index_of(u);
        assert(0 <= k < pre.entries@.len() && pre.entries@[k].slot_time == u);
        assert(k != j);
        post.lemma_index_of(u, k);
    }
}

/// Inserting a new key at its sorted position keeps the collection well
/// formed and leaves every other slot as it was.
pub proof fn lemma_slots_insert(pre: OwnerSlots, post: OwnerSlots, j: int, e: SlotEntry)
    requires
        pre.wf(),
        0 <= j <= pre.entries@.len(),
        !pre.has_slot(e.slot_time),
        forall|k: int| 0 <= k < j ==> pre.entries@[k].slot_time < e.slot_time,
        forall|k: int| j <= k < pre.entries@.len() ==> pre.entries@[k].slot_time >= e.slot_time,
        post.entries@ == pre.entries@.insert(j, e),
    ensures
        post.wf(),
        post.has_slot(e.slot_time),
        post.slot_at(e.slot_time) == e.info@,
        forall|u: u64| u != e.slot_time ==> post.has_slot(u) == pre.has_slot(u),
        forall|u: u64|
            u != e.slot_time && pre.has_slot(u) ==> post.slot_at(u) == pre.slot_at(u),
        post.entries@.len() == pre.entries@.len() + 1,
{
    assert(forall|k: int| 0 <= k < j ==> post.entries@[k] == pre.entries@[k]);
    assert(post.entries@[j] == e);
    assert(forall|k: int|
        j < k < post.entries@.len() ==> post.entries@[k] == pre.entries@[k - 1]);
    // The new key really differs from every stored one.
    assert(forall|k: int|
        j <= k < pre.entries@.len() ==> pre.entries@[k].slot_time > e.slot_time);
    assert forall|a: int, b: int|
        0 <= a < b < post.entries@.len()
        implies post.entries@[a].slot_time < post.entries@[b].slot_time by {
    }
    post.lemma_index_of(e.slot_time, j);
    assert forall|u: u64| u != e.slot_time
        implies post.has_slot(u) == pre.has_slot(u) by {
        if pre.has_slot(u) {
            let k = pre.index_of(u);
            if k < j {
                assert(post.entries@[k].slot_time == u);
            } else {
                assert(post.entries@[k + 1].slot_time == u);
            }
            assert(post.has_slot(u));
        }
        if post.has_slot(u) {
            let k = choose|k: int|
                0 <= k < post.entries@.len() && post.entries@[k].slot_time == u;
            if k < j {
                assert(pre.entries@[k].slot_time == u);
            } else {
                assert(k != j);
                assert(pre.entries@[k - 1].slot_time == u);
            }
            assert(pre.has_slot(u));
        }
    }
    assert forall|u: u64| u != e.slot_time && pre.has_slot(u)
        implies post.slot_at(u) == pre.slot_at(u) by {
        let k = pre.index_of(u);
        assert(0 <= k < pre.entries@.len() && pre.entries@[k].slot_time == u);
        if k < j {
            post.lemma_index_of(u, k);
        } else {
            post.lemma_index_of(u, k + 1);
        }
    }
}

/// Removing the entry at `j` keeps the collection well formed, drops that
/// key, and leaves every other slot as it was.
pub proof fn lemma_slots_remove(pre: OwnerSlots, post: OwnerSlots, j: int)
    requires
        pre.wf(),
        0 <= j < pre.entries@.len(),
        post.entries@ == pre.entries@.remove(j),
    ensures
        post.wf(),
        !post.has_slot(pre.entries@[j].slot_time),
        forall|u: u64|
            u != pre.entries@[j].slot_time ==> post.has_slot(u) == pre.has_slot(u),
        forall|u: u64|
            u != pre.entries@[j].slot_time && pre.has_slot(u)
                ==> post.slot_at(u) == pre.slot_at(u),
        post.entries@.len() == pre.entries@.len() - 1,
{
    let t = pre.entries@[j].slot_time;
    assert(forall|k: int| 0 <= k < j ==> post.entries@[k] == pre.entries@[k]);
    assert(forall|k: int|
        j <= k < post.entries@.len() ==> post.entries@[k] == pre.entries@[k + 1]);
    assert forall|a: int, b: int|
        0 <= a < b < post.entries@.len()
        implies post.entries@[a].slot_time < post.entries@[b].slot_time by {
    }
    assert forall|u: u64| u != t implies post.has_slot(u) == pre.has_slot(u) by {
        if pre.has_slot(u) {
            let k = pre.index_of(u);
            assert(pre.entries@[k].slot_time == u);
            assert(k != j);
            if k < j {
                assert(post.entries@[k].slot_time == u);
            } else {
                assert(post.entries@[k - 1].slot_time == u);
            }
            assert(post.has_slot(u));
        }
        if post.has_slot(u) {
            let k = choose|k: int|
                0 <= k < post.entries@.len() && post.entries@[k].slot_time == u;
            if k < j {
                assert(pre.entries@[k].slot_time == u);
            } else {
                assert(pre.entries@[k + 1].slot_time == u);
            }
            assert(pre.has_slot(u));
        }
    }
    if post.has_slot(t) {
        let k = choose|k: int|
            0 <= k < post.entries@.len() && post.entries@[k].slot_time == t;
        if k < j {
            pre.lemma_time_unique(k, j);
        } else {
            pre.lemma_time_unique(k + 1, j);
        }
        assert(false);
    }
    assert forall|u: u64| u != t && pre.has_slot(u)
        implies post.slot_at(u) == pre.slot_at(u) by {
        let k = pre.index_of(u);
        assert(0 <= k < pre.entries@.len() && pre.entries@[k].slot_time == u);
        assert(k != j);
        if k < j {
            post.lemma_index_of(u, k);
        } else {
            post.lemma_index_of(u, k - 1);
        }
    }
}

/// One owner's row in the book.
pub struct AccountEntry {
    pub owner: String,
    pub slots: OwnerSlots,
}

/// The whole reservation book: every owner's slot collection, owners
/// pairwise distinct.
pub struct Reservations {
    pub slots: Vec<AccountEntry>,
}

impl Reservations {
    /// Owners are pairwise distinct and every collection is ordered.
    pub open spec fn wf(&self) -> bool {
        &&& forall|i: int, j: int|
            0 <= i < j < self.slots@.len() ==> self.slots@[i].owner@ != self.slots@[j].owner@
        &&& forall|i: int| 0 <= i < self.slots@.len() ==> (#[trigger] self.slots@[i].slots).wf()
    }

    pub open spec fn has_account(&self, o: Seq<char>) -> bool {
        exists|i: int| 0 <= i < self.slots@.len() && self.slots@[i].owner@ == o
    }

    pub open spec fn account_index(&self, o: Seq<char>) -> int {
        choose|i: int| 0 <= i < self.slots@.len() && self.slots@[i].owner@ == o
    }

    /// The ordered sequence of (time, slot) pairs an owner holds.
    pub open spec fn slots_of(&self, o: Seq<char>) -> Seq<(u64, SlotInfoV)> {
        self.slots@[self.account_index(o)].slots@
    }

    pub open spec fn has_slot(&self, o: Seq<char>, t: u64) -> bool {
        self.has_account(o) && self.slots@[self.account_index(o)].slots.has_slot(t)
    }

    pub open spec fn slot_at(&self, o: Seq<char>, t: u64) -> SlotInfoV {
        self.slots@[self.account_index(o)].slots.slot_at(t)
    }

    /// Under `wf`, an owner occurs at one index only.
    pub proof fn lemma_owner_unique(&self, a: int, b: int)
        requires
            self.wf(),
            0 <= a < self.slots@.len(),
            0 <= b < self.slots@.len(),
            self.slots@[a].owner@ == self.slots@[b].owner@,
        ensures
            a == b,
    {
    }

    /// The index at which a present owner stands.
    pub proof fn lemma_account_index(&self, i: int)
        requires
            self.wf(),
            0 <= i < self.slots@.len(),
        ensures
            self.has_account(self.slots@[i].owner@),
            self.account_index(self.slots@[i].owner@) == i,
    {
        let o = self.slots@[i].owner@;
        assert(self.has_account(o));
        let j = self.account_index(o);
        self.lemma_owner_unique(i, j);
    }

    /// Linear search for an owner's row.
    pub fn find_account(&self, owner: &String) -> (r: Option<usize>)
        requires
            self.wf(),
        ensures
            match r {
                Some(i) => {
                    &&& i < self.slots@.len()
                    &&& self.slots@[i as int].owner@ == owner@
                    &&& self.has_account(owner@)
                    &&& self.account_index(owner@) == i as int
                },
                None => !self.has_account(owner@),
            },
    {
        let n = self.slots.len();
        let mut i: usize = 0;
        while i < n
            invariant
                self.wf(),
                n == self.slots@.len(),
                i <= n,
                forall|k: int| 0 <= k < i ==> self.slots@[k].owner@ != owner@,
            decreases n - i,
        {
            if self.slots[i].owner == *owner {
                proof {
                    self.lemma_account_index(i as int);
                }
                return Some(i);
            }
            i = i + 1;
        }
        None
    }
}

/// Nothing outside the named owner's row changes.
pub open spec fn accounts_unchanged_except(
    pre: Reservations,
    post: Reservations,
    o: Seq<char>,
) -> bool {
    forall|p: Seq<char>|
        #![trigger post.has_account(p)]
        #![trigger post.slots_of(p)]
        p != o ==> {
            &&& post.has_account(p) == pre.has_account(p)
            &&& (pre.has_account(p) ==> post.slots_of(p) == pre.slots_of(p))
        }
}

/// Within the named owner's row, nothing outside the slot keyed `t` changes.
pub open spec fn slots_unchanged_except(
    pre: Reservations,
    post: Reservations,
    o: Seq<char>,
    t: u64,
) -> bool {
    forall|u: u64|
        #![trigger post.has_slot(o, u)]
        #![trigger post.slot_at(o, u)]
        u != t ==> {
            &&& post.has_slot(o, u) == pre.has_slot(o, u)
            &&& (pre.has_slot(o, u) ==> post.slot_at(o, u) == pre.slot_at(o, u))
        }
}

/// Taking an element out and putting another back at the same place is a
/// pointwise update.
pub proof fn lemma_remove_insert<T>(s: Seq<T>, i: int, x: T)
    requires
        0 <= i < s.len(),
    ensures
        s.remove(i).insert(i, x) == s.update(i, x),
{
    let lhs = s.remove(i).insert(i, x);
    let rhs = s.update(i, x);
    assert(lhs.len() == rhs.len());
    assert(forall|k: int| 0 <= k < lhs.len() ==> lhs[k] == rhs[k]);
    assert(lhs =~= rhs);
}

/// Replacing one owner's row by another row of the same owner keeps the book
/// well formed and leaves every other owner's row as it was.
pub proof fn lemma_accounts_update(
    pre: Reservations,
    post: Reservations,
    i: int,
    e: AccountEntry,
)
    requires
        pre.wf(),
        0 <= i < pre.slots@.len(),
        post.slots@ == pre.slots@.update(i, e),
        e.owner@ == pre.slots@[i].owner@,
        e.slots.wf(),
    ensures
        post.wf(),
        forall|p: Seq<char>| #[trigger] post.has_account(p) == pre.has_account(p),
        post.has_account(e.owner@),
        post.account_index(e.owner@) == i,
        pre.account_index(e.owner@) == i,
        post.slots_of(e.owner@) == e.slots@,
        accounts_unchanged_except(pre, post, e.owner@),
{
    assert(forall|k: int|
        0 <= k < post.slots@.len() ==> post.slots@[k].owner@ == pre.slots@[k].owner@);
    assert(post.wf());
    assert forall|p: Seq<char>| #[trigger] post.has_account(p) == pre.has_account(p) by {
        if pre.has_account(p) {
            let k = pre.account_index(p);
            assert(post.slots@[k].owner@ == p);
            assert(post.has_account(p));
        }
        if post.has_account(p) {
            let k = choose|k: int|
                0 <= k < post.slots@.len() && post.slots@[k].owner@ == p;
            assert(pre.slots@[k].owner@ == p);
            assert(pre.has_account(p));
        }
    }
    post.lemma_account_index(i);
    pre.lemma_account_index(i);
    assert forall|p: Seq<char>| p != e.owner@ && pre.has_account(p)
        implies post.slots_of(p) == pre.slots_of(p) by {
        let k = pre.account_index(p);
        assert(0 <= k < pre.slots@.len() && pre.slots@[k].owner@ == p);
        assert(k != i);
        post.lemma_account_index(k);
        assert(post.slots@[k] == pre.slots@[k]);
    }
}

/// Appending a row for an owner the book did not hold keeps it well formed
/// and leaves every other owner's row as it was.
pub proof fn lemma_accounts_push(pre: Reservations, post: Reservations, e: AccountEntry)
    requires
        pre.wf(),
        !pre.has_account(e.owner@),
        e.slots.wf(),
        post.slots@ == pre.slots@.push(e),
    ensures
        post.wf(),
        post.has_account(e.owner@),
        post.account_index(e.owner@) == pre.slots@.len(),
        post.slots_of(e.owner@) == e.slots@,
        accounts_unchanged_except(pre, post, e.owner@),
        forall|p: Seq<char>|
            p != e.owner@ ==> #[trigger] post.has_account(p) == pre.has_account(p),
{
    let n = pre.slots@.len() as int;
    assert(forall|k: int| 0 <= k < n ==> post.slots@[k] == pre.slots@[k]);
    assert(post.slots@[n] == e);
    assert forall|a: int, b: int| 0 <= a < b < post.slots@.len()
        implies post.slots@[a].owner@ != post.slots@[b].owner@ by {
        if b == n {
            assert(pre.slots@[a].owner@ == post.slots@[a].owner@);
            if post.slots@[a].owner@ == e.owner@ {
                assert(pre.has_account(e.owner@));
            }
        }
    }
    assert(post.wf());
    post.lemma_account_index(n);
    assert forall|p: Seq<char>| p != e.owner@
        implies #[trigger] post.has_account(p) == pre.has_account(p) by {
        if pre.has_account(p) {
            let k = pre.account_index(p);
            assert(post.slots@[k].owner@ == p);
            assert(post.has_account(p));
        }
        if post.has_account(p) {
            let k = choose|k: int|
                0 <= k < post.slots@.len() && post.slots@[k].owner@ == p;
            assert(k != n);
            assert(pre.slots@[k].owner@ == p);
            assert(pre.has_account(p));
        }
    }
    assert forall|p: Seq<char>| p != e.owner@ && pre.has_account(p)
        implies post.slots_of(p) == pre.slots_of(p) by {
        let k = pre.account_index(p);
        assert(0 <= k < n && pre.slots@[k].owner@ == p);
        post.lemma_account_index(k);
        assert(post.slots@[k] == pre.slots@[k]);
    }
}

impl Default for Reservations {
    /// The empty book: no owner has a collection yet.
    fn default() -> (r: Reservations)
        ensures
            r.wf(),
            r.slots@.len() == 0,
            forall|o: Seq<char>| !r.has_account(o),
    {
        Reservations { slots: Vec::new() }
    }
}

} // verus!
