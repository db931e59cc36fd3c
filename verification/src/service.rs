use vstd::prelude::*;

use crate::store::accounts_unchanged_except;
use crate::store::entries_view;
use crate::store::lemma_accounts_push;
use crate::store::lemma_accounts_update;
use crate::store::lemma_remove_insert;
use crate::store::lemma_slots_insert;
use crate::store::lemma_slots_remove;
use crate::store::lemma_slots_update;
use crate::store::slots_unchanged_except;
use crate::store::AccountEntry;
use crate::store::OwnerSlots;
use crate::store::Reservations;
use crate::store::SlotEntry;
use crate::types::ReservationError;
use crate::types::SlotInfo;
use crate::types::SlotInfoV;
use crate::types::Transfer;
use crate::types::Winner;
use crate::types::WinnerV;
use crate::types::EXPIRY_HORIZON;

verus! {

/// What `add_slot` promises: on `Ok` the slot is new, stored with the given
/// metadata and no winner, and nothing else moved; on `Err` the key was
/// already taken and the book is exactly as before.
pub open spec fn add_post(
    pre: Reservations,
    post: Reservations,
    owner: Seq<char>,
    slot_time: u64,
    metadata: Seq<char>,
    r: Result<(), ReservationError>,
) -> bool {
    &&& post.wf()
    &&& match r {
        Ok(_) => {
            &&& !pre.has_slot(owner, slot_time)
            &&& post.has_account(owner)
            &&& post.has_slot(owner, slot_time)
            &&& post.slot_at(owner, slot_time)
                == (SlotInfoV { metadata, winner: None })
            &&& slots_unchanged_except(pre, post, owner, slot_time)
            &&& accounts_unchanged_except(pre, post, owner)
        },
        Err(e) => {
            &&& e == ReservationError::SlotAlreadyExists
            &&& pre.has_slot(owner, slot_time)
            &&& post == pre
        },
    }
}

/// What `bet` promises: on `Ok` the bid is recorded as the new winner, the
/// displaced winner (if any) gets exactly its escrowed amount back in one
/// refund request, and nothing else moved; each error names the one input
/// condition under which it comes, with the book exactly as before.
pub open spec fn bet_post(
    pre: Reservations,
    post: Reservations,
    owner: Seq<char>,
    slot_time: u64,
    caller: Seq<char>,
    amount: u128,
    r: Result<Option<Transfer>, ReservationError>,
) -> bool {
    &&& post.wf()
    &&& match r {
        Ok(refund) => {
            &&& pre.has_slot(owner, slot_time)
            &&& post.has_slot(owner, slot_time)
            &&& post.slot_at(owner, slot_time).metadata
                == pre.slot_at(owner, slot_time).metadata
            &&& post.slot_at(owner, slot_time).winner
                == Some(WinnerV { bidder: caller, amount })
            &&& match pre.slot_at(owner, slot_time).winner {
                None => refund is None,
                Some(w) => {
                    &&& amount > w.amount
                    &&& refund matches Some(tr)
                        && tr.receiver@ == w.bidder
                        && tr.amount == w.amount
                },
            }
            &&& post.has_account(owner) == pre.has_account(owner)
            &&& slots_unchanged_except(pre, post, owner, slot_time)
            &&& accounts_unchanged_except(pre, post, owner)
        },
        Err(e) => {
            &&& post == pre
            &&& match e {
                ReservationError::AccountNotFound => !pre.has_account(owner),
                ReservationError::SlotNotFound => pre.has_account(owner)
                    && !pre.has_slot(owner, slot_time),
                ReservationError::BidTooLow => pre.has_slot(owner, slot_time)
                    && (pre.slot_at(owner, slot_time).winner matches Some(w)
                        && amount <= w.amount),
                ReservationError::SlotAlreadyExists => false,
            }
        },
    }
}

/// What `claim_and_remove_slot` promises: afterwards the slot is gone; a
/// payment is requested exactly when it held a winner with a positive
/// amount, and then for exactly that amount; re-claiming an absent slot is
/// a no-op. Nothing else moves.
pub open spec fn claim_one_post(
    pre: Reservations,
    post: Reservations,
    caller: Seq<char>,
    slot_time: u64,
    r: Option<Transfer>,
) -> bool {
    &&& post.wf()
    &&& accounts_unchanged_except(pre, post, caller)
    &&& slots_unchanged_except(pre, post, caller, slot_time)
    &&& post.has_account(caller) == pre.has_account(caller)
    &&& !post.has_slot(caller, slot_time)
    &&& (!pre.has_slot(caller, slot_time) ==> post == pre)
    &&& match r {
        Some(tr) => {
            &&& pre.has_slot(caller, slot_time)
            &&& pre.slot_at(caller, slot_time).winner matches Some(w)
                && tr.amount == w.amount
                && w.amount > 0
            &&& tr.receiver@ == caller
        },
        None => pre.has_slot(caller, slot_time) ==> match pre.slot_at(
            caller,
            slot_time,
        ).winner {
            Some(w) => w.amount == 0,
            None => true,
        },
    }
}

/// A slot time lies within the claiming window: strictly before `now` plus
/// the grace window of [`EXPIRY_HORIZON`] seconds.
pub open spec fn in_horizon(slot_time: u64, now: u64) -> bool {
    (slot_time as int) < (now as int) + (EXPIRY_HORIZON as int)
}

/// The slots a batch claim at `now` leaves behind: those at or beyond the
/// horizon, in their stored order.
pub open spec fn kept_slots(s: Seq<(u64, SlotInfoV)>, now: u64) -> Seq<(u64, SlotInfoV)>
    decreases s.len(),
{
    if s.len() == 0 {
        Seq::empty()
    } else {
        let rest = kept_slots(s.drop_last(), now);
        if in_horizon(s.last().0, now) {
            rest
        } else {
            rest.push(s.last())
        }
    }
}

/// The amount a batch claim at `now` pays out: the winning amounts of the
/// slots within the horizon, summed front to back with saturating addition.
pub open spec fn claim_sum(s: Seq<(u64, SlotInfoV)>, now: u64) -> u128
    decreases s.len(),
{
    if s.len() == 0 {
        0u128
    } else {
        let rest = claim_sum(s.drop_last(), now);
        if in_horizon(s.last().0, now) {
            match s.last().1.winner {
                Some(w) => rest.saturating_add(w.amount),
                None => rest,
            }
        } else {
            rest
        }
    }
}

/// What `claim` promises: the caller's slots within the horizon are removed
/// (winnerless ones merely cleaned up), the ones beyond it stay exactly as
/// they were, and one payment for the saturating sum of the removed winning
/// amounts is requested when that sum is positive. Nothing else moves.
pub open spec fn claim_post(
    pre: Reservations,
    post: Reservations,
    caller: Seq<char>,
    now: u64,
    r: Option<Transfer>,
) -> bool {
    &&& post.wf()
    &&& accounts_unchanged_except(pre, post, caller)
    &&& post.has_account(caller) == pre.has_account(caller)
    &&& (!pre.has_account(caller) ==> post == pre)
    &&& (pre.has_account(caller)
        ==> post.slots_of(caller) == kept_slots(pre.slots_of(caller), now))
    &&& forall|u: u64|
        #[trigger] post.has_slot(caller, u)
            <==> (pre.has_slot(caller, u) && !in_horizon(u, now))
    &&& forall|u: u64|
        pre.has_slot(caller, u) && !in_horizon(u, now)
            ==> #[trigger] post.slot_at(caller, u) == pre.slot_at(caller, u)
    &&& {
        let total = if pre.has_account(caller) {
            claim_sum(pre.slots_of(caller), now)
        } else {
            0u128
        };
        match r {
            Some(tr) => tr.receiver@ == caller && tr.amount == total && total > 0,
            None => total == 0,
        }
    }
}

/// A pair stands in the kept slots exactly when it stands in the original
/// sequence at or beyond the horizon.
pub proof fn lemma_kept_slots_elems(s: Seq<(u64, SlotInfoV)>, now: u64)
    ensures
        forall|p: (u64, SlotInfoV)|
            #[trigger] kept_slots(s, now).contains(p)
                <==> (s.contains(p) && !in_horizon(p.0, now)),
    decreases s.len(),
{
    if s.len() > 0 {
        let rest = s.drop_last();
        lemma_kept_slots_elems(rest, now);
        assert forall|p: (u64, SlotInfoV)|
            #[trigger] kept_slots(s, now).contains(p)
                <==> (s.contains(p) && !in_horizon(p.0, now)) by {
            let kr = kept_slots(rest, now);
            if kept_slots(s, now).contains(p) {
                if in_horizon(s.last().0, now) {
                    assert(kr.contains(p));
                    let idx = choose|idx: int| 0 <= idx < rest.len() && rest[idx] == p;
                    assert(s[idx] == p);
                    assert(s.contains(p));
                } else {
                    let ks = kept_slots(s, now);
                    let idx = choose|idx: int| 0 <= idx < ks.len() && ks[idx] == p;
                    if idx < kr.len() {
                        assert(kr[idx] == p);
                        assert(kr.contains(p));
                        let idx2 = choose|idx2: int|
                            0 <= idx2 < rest.len() && rest[idx2] == p;
                        assert(s[idx2] == p);
                        assert(s.contains(p));
                    } else {
                        assert(p == s.last());
                        assert(s[s.len() - 1] == p);
                        assert(s.contains(p));
                    }
                }
            }
            if s.contains(p) && !in_horizon(p.0, now) {
                let idx = choose|idx: int| 0 <= idx < s.len() && s[idx] == p;
                if idx < s.len() - 1 {
                    assert(rest[idx] == p);
                    assert(rest.contains(p));
                    assert(kr.contains(p));
                    let idx2 = choose|idx2: int| 0 <= idx2 < kr.len() && kr[idx2] == p;
                    if in_horizon(s.last().0, now) {
                        assert(kept_slots(s, now).contains(p));
                    } else {
                        assert(kept_slots(s, now)[idx2] == p);
                        assert(kept_slots(s, now).contains(p));
                    }
                } else {
                    assert(p == s.last());
                    assert(kept_slots(s, now) == kr.push(p));
                    assert(kept_slots(s, now)[kr.len() as int] == p);
                    assert(kept_slots(s, now).contains(p));
                }
            }
        }
    }
}

/// The (time, slot) pairs a query result denotes.
pub open spec fn pairs_view(s: Seq<(u64, SlotInfo)>) -> Seq<(u64, SlotInfoV)> {
    Seq::new(s.len(), |k: int| (s[k].0, s[k].1@))
}

impl Reservations {
    /// Registers a slot under `owner` at `slot_time`, creating the owner's
    /// collection on first use. Rejects a key already taken, changing
    /// nothing.
    pub fn add_slot(&mut self, owner: String, slot_time: u64, metadata: String) -> (r: Result<
        (),
        ReservationError,
    >)
        requires
            old(self).wf(),
        ensures
            add_post(*old(self), *final(self), owner@, slot_time, metadata@, r),
    {
        let info = SlotInfo { metadata, winner: None };
        match self.find_account(&owner) {
            Some(i) => {
                match self.slots[i].slots.find(slot_time) {
                    Some(_) => Err(ReservationError::SlotAlreadyExists),
                    None => {
                        let mut acc = self.slots.remove(i);
                        let ghost pre_row = acc.slots;
                        let j = acc.slots.insertion_point(slot_time);
                        let entry = SlotEntry { slot_time, info };
                        let ghost ge = entry;
                        acc.slots.entries.insert(j, entry);
                        proof {
                            assert forall|k: int|
                                j <= k < pre_row.entries@.len()
                                implies pre_row.entries@[k].slot_time > slot_time by {
                                assert(pre_row.entries@[k].slot_time != slot_time);
                            }
                            lemma_slots_insert(pre_row, acc.slots, j as int, ge);
                        }
                        let ghost gacc = acc;
                        self.slots.insert(i, acc);
                        proof {
                            lemma_remove_insert(old(self).slots@, i as int, gacc);
                            lemma_accounts_update(*old(self), *self, i as int, gacc);
                        }
                        Ok(())
                    },
                }
            },
            None => {
                let mut entries: Vec<SlotEntry> = Vec::new();
                entries.push(SlotEntry { slot_time, info });
                let acc = AccountEntry { owner, slots: OwnerSlots { entries } };
                let ghost gacc = acc;
                self.slots.push(acc);
                proof {
                    assert(gacc.slots.wf());
                    lemma_accounts_push(*old(self), *self, gacc);
                    gacc.slots.lemma_index_of(slot_time, 0);
                }
                Ok(())
            },
        }
    }

    /// Places `caller`'s escrowed bid of `attached_amount` on the slot at
    /// (`account_id`, `slot_time`). A first bid is recorded outright; a
    /// higher bid displaces the stored winner and requests a refund of
    /// exactly the displaced amount; a bid not strictly above the stored
    /// one is rejected with nothing changed and nothing transferred.
    pub fn bet(
        &mut self,
        account_id: String,
        slot_time: u64,
        caller: String,
        attached_amount: u128,
    ) -> (r: Result<Option<Transfer>, ReservationError>)
        requires
            old(self).wf(),
        ensures
            bet_post(
                *old(self),
                *final(self),
                account_id@,
                slot_time,
                caller@,
                attached_amount,
                r,
            ),
    {
        let i = match self.find_account(&account_id) {
            Some(i) => i,
            None => {
                return Err(ReservationError::AccountNotFound);
            },
        };
        let j = match self.slots[i].slots.find(slot_time) {
            Some(j) => j,
            None => {
                return Err(ReservationError::SlotNotFound);
            },
        };
        let too_low = match &self.slots[i].slots.entries[j].info.winner {
            Some(w) => attached_amount <= w.amount,
            None => false,
        };
        if too_low {
            return Err(ReservationError::BidTooLow);
        }
        let mut acc = self.slots.remove(i);
        let ghost pre_row = acc.slots;
        let displaced = acc.slots.entries.remove(j);
        let SlotEntry { slot_time: _, info } = displaced;
        let SlotInfo { metadata, winner } = info;
        let refund = match winner {
            Some(w) => Some(Transfer { receiver: w.bidder, amount: w.amount }),
            None => None,
        };
        let entry = SlotEntry {
            slot_time,
            info: SlotInfo {
                metadata,
                winner: Some(Winner { bidder: caller, amount: attached_amount }),
            },
        };
        let ghost ge = entry;
        acc.slots.entries.insert(j, entry);
        proof {
            lemma_remove_insert(pre_row.entries@, j as int, ge);
            lemma_slots_update(pre_row, acc.slots, j as int, ge);
        }
        let ghost gacc = acc;
        self.slots.insert(i, acc);
        proof {
            lemma_remove_insert(old(self).slots@, i as int, gacc);
            lemma_accounts_update(*old(self), *self, i as int, gacc);
        }
        Ok(refund)
    }

    /// Claims the single slot at (`caller`, `slot_time`): removes it and,
    /// when it held a winner with a positive amount, requests that amount
    /// as a payment to the caller. An absent slot is a no-op with no
    /// payment, so re-claiming is safe.
    pub fn claim_and_remove_slot(&mut self, caller: String, slot_time: u64) -> (r: Option<
        Transfer,
    >)
        requires
            old(self).wf(),
        ensures
            claim_one_post(*old(self), *final(self), caller@, slot_time, r),
    {
        let i = match self.find_account(&caller) {
            Some(i) => i,
            None => {
                return None;
            },
        };
        let j = match self.slots[i].slots.find(slot_time) {
            Some(j) => j,
            None => {
                return None;
            },
        };
        let mut acc = self.slots.remove(i);
        let ghost pre_row = acc.slots;
        let removed = acc.slots.entries.remove(j);
        proof {
            lemma_slots_remove(pre_row, acc.slots, j as int);
        }
        let ghost gacc = acc;
        self.slots.insert(i, acc);
        proof {
            lemma_remove_insert(old(self).slots@, i as int, gacc);
            lemma_accounts_update(*old(self), *self, i as int, gacc);
        }
        match removed.info.winner {
            Some(w) => {
                if w.amount > 0 {
                    Some(Transfer { receiver: caller, amount: w.amount })
                } else {
                    None
                }
            },
            None => None,
        }
    }

    /// Claims every slot of `caller` whose time lies within the horizon
    /// `now + EXPIRY_HORIZON`, in one atomic sweep: all of them are
    /// removed (winnerless ones merely cleaned up), the rest stay exactly
    /// as they were, and the saturating sum of the removed winning amounts
    /// is requested as a single payment to the caller when it is positive.
    pub fn claim(&mut self, caller: String, now: u64) -> (r: Option<Transfer>)
        requires
            old(self).wf(),
        ensures
            claim_post(*old(self), *final(self), caller@, now, r),
    {
        let i = match self.find_account(&caller) {
            Some(i) => i,
            None => {
                return None;
            },
        };
        let acc = self.slots.remove(i);
        let ghost pre_row = acc.slots;
        let ghost s = pre_row@;
        let n = acc.slots.entries.len();
        let mut kept: Vec<SlotEntry> = Vec::new();
        let mut total: u128 = 0;
        let mut k: usize = 0;
        while k < n
            invariant
                acc.slots == pre_row,
                pre_row.wf(),
                s == pre_row@,
                n == acc.slots.entries@.len(),
                k <= n,
                entries_view(kept@) == kept_slots(s.take(k as int), now),
                total == claim_sum(s.take(k as int), now),
                forall|a: int|
                    0 <= a < kept@.len() ==> exists|b: int|
                        0 <= b < k
                            && #[trigger] kept@[a].slot_time
                                == acc.slots.entries@[b].slot_time,
                forall|a: int, c: int|
                    0 <= a < c < kept@.len()
                        ==> kept@[a].slot_time < kept@[c].slot_time,
            decreases n - k,
        {
            let e = &acc.slots.entries[k];
            proof {
                assert(s.take(k as int + 1).drop_last() =~= s.take(k as int));
                assert(s.take(k as int + 1).last() == s[k as int]);
                assert(s[k as int] == acc.slots.entries@[k as int]@);
            }
            if (e.slot_time as u128) < (now as u128) + (EXPIRY_HORIZON as u128) {
                proof {
                    assert(in_horizon(e.slot_time, now));
                }
                match &e.info.winner {
                    Some(w) => {
                        total = total.saturating_add(w.amount);
                    },
                    None => {},
                }
                proof {
                    assert(total == claim_sum(s.take(k as int + 1), now));
                    assert(entries_view(kept@) == kept_slots(s.take(k as int + 1), now));
                }
            } else {
                proof {
                    assert(!in_horizon(e.slot_time, now));
                }
                let ghost old_kept = kept@;
                kept.push(SlotEntry { slot_time: e.slot_time, info: e.info.duplicate() });
                proof {
                    assert(entries_view(kept@)
                        =~= kept_slots(s.take(k as int + 1), now));
                    assert forall|a: int| 0 <= a < old_kept.len()
                        implies kept@[a].slot_time < e.slot_time by {
                        let b = choose|b: int|
                            0 <= b < k
                                && old_kept[a].slot_time
                                    == acc.slots.entries@[b].slot_time;
                        assert(acc.slots.entries@[b].slot_time
                            < acc.slots.entries@[k as int].slot_time);
                    }
                }
            }
            k = k + 1;
        }
        proof {
            assert(s.take(n as int) =~= s);
        }
        let AccountEntry { owner: owner_name, slots: _ } = acc;
        let new_row = OwnerSlots { entries: kept };
        proof {
            assert(new_row.wf());
            assert(new_row@ == kept_slots(s, now));
        }
        let acc2 = AccountEntry { owner: owner_name, slots: new_row };
        let ghost gacc2 = acc2;
        self.slots.insert(i, acc2);
        proof {
            lemma_remove_insert(old(self).slots@, i as int, gacc2);
            lemma_accounts_update(*old(self), *self, i as int, gacc2);
            lemma_kept_slots_elems(s, now);
            assert forall|u: u64|
                #[trigger] self.has_slot(caller@, u)
                    <==> (old(self).has_slot(caller@, u) && !in_horizon(u, now)) by {
                if old(self).has_slot(caller@, u) && !in_horizon(u, now) {
                    pre_row.lemma_contains(u);
                    assert(s.contains((u, pre_row.slot_at(u))));
                    assert(gacc2.slots@.contains((u, pre_row.slot_at(u))));
                    gacc2.slots.lemma_contains(u);
                }
                if self.has_slot(caller@, u) {
                    gacc2.slots.lemma_contains(u);
                    assert(gacc2.slots@.contains((u, gacc2.slots.slot_at(u))));
                    assert(s.contains((u, gacc2.slots.slot_at(u))));
                    assert(!in_horizon(u, now));
                    pre_row.lemma_contains(u);
                }
            }
            assert forall|u: u64|
                old(self).has_slot(caller@, u) && !in_horizon(u, now)
                implies #[trigger] self.slot_at(caller@, u)
                    == old(self).slot_at(caller@, u) by {
                pre_row.lemma_contains(u);
                assert(s.contains((u, pre_row.slot_at(u))));
                assert(gacc2.slots@.contains((u, pre_row.slot_at(u))));
                gacc2.slots.lemma_contains(u);
            }
        }
        if total > 0 {
            Some(Transfer { receiver: caller, amount: total })
        } else {
            None
        }
    }

    /// The slot stored under (`account_id`, `slot_time`), or `SlotNotFound`
    /// when either the owner or the slot is absent.
    pub fn get_detailed_info(&self, account_id: String, slot_time: u64) -> (r: Result<
        SlotInfo,
        ReservationError,
    >)
        requires
            self.wf(),
        ensures
            match r {
                Ok(info) => self.has_slot(account_id@, slot_time)
                    && info@ == self.slot_at(account_id@, slot_time),
                Err(e) => e == ReservationError::SlotNotFound
                    && !self.has_slot(account_id@, slot_time),
            },
    {
        match self.find_account(&account_id) {
            Some(i) => {
                match self.slots[i].slots.find(slot_time) {
                    Some(j) => Ok(self.slots[i].slots.entries[j].info.duplicate()),
                    None => Err(ReservationError::SlotNotFound),
                }
            },
            None => Err(ReservationError::SlotNotFound),
        }
    }

    /// Every slot `account_id` holds, in ascending order of slot time; the
    /// empty sequence when the owner has no collection.
    pub fn get_slots_info(&self, account_id: String) -> (r: Vec<(u64, SlotInfo)>)
        requires
            self.wf(),
        ensures
            self.has_account(account_id@)
                ==> pairs_view(r@) == self.slots_of(account_id@),
            !self.has_account(account_id@) ==> r@.len() == 0,
    {
        let mut out: Vec<(u64, SlotInfo)> = Vec::new();
        let i = match self.find_account(&account_id) {
            Some(i) => i,
            None => {
                return out;
            },
        };
        let n = self.slots[i].slots.entries.len();
        let mut k: usize = 0;
        while k < n
            invariant
                self.wf(),
                i < self.slots@.len(),
                n == self.slots@[i as int].slots.entries@.len(),
                k <= n,
                out@.len() == k,
                pairs_view(out@) == self.slots@[i as int].slots@.take(k as int),
            decreases n - k,
        {
            let e = &self.slots[i].slots.entries[k];
            out.push((e.slot_time, e.info.duplicate()));
            proof {
                assert(pairs_view(out@)
                    =~= self.slots@[i as int].slots@.take(k as int + 1));
            }
            k = k + 1;
        }
        proof {
            assert(self.slots@[i as int].slots@.take(n as int)
                =~= self.slots@[i as int].slots@);
        }
        out
    }
}

} // verus!
