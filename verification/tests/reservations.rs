use reservations::ReservationError;
use reservations::Reservations;
use reservations::SlotInfo;
use reservations::Transfer;
use reservations::Winner;
use reservations::EXPIRY_HORIZON;

fn s(text: &str) -> String {
    text.to_string()
}

#[test]
fn set_get_message() {
    let mut contract = Reservations::default();
    contract.add_slot(s("bob.near"), 1, s("hello")).unwrap();
    // Added slot 1 to bob.near; slots for this user: 1.
    assert_eq!(contract.get_slots_info(s("bob.near")).len(), 1);

    let result = vec![(
        1 as u64,
        SlotInfo {
            metadata: s("hello"),
            winner: None,
        },
    )];

    println!("here");
    println!(
        "{:?}",
        contract.get_detailed_info(s("bob.near"), 1).unwrap()
    );

    assert_eq!(result, contract.get_slots_info(s("bob.near")));
}

#[test]
fn scenario_alice_bob_carol() {
    let mut book = Reservations::default();
    book.add_slot(s("alice"), 100, s("court-1")).unwrap();

    // First bid: recorded outright, no refund.
    let r = book.bet(s("alice"), 100, s("bob"), 50).unwrap();
    assert_eq!(r, None);
    let info = book.get_detailed_info(s("alice"), 100).unwrap();
    assert_eq!(
        info.winner,
        Some(Winner {
            bidder: s("bob"),
            amount: 50
        })
    );

    // Higher bid displaces bob: refund of exactly 50 to bob.
    let r = book.bet(s("alice"), 100, s("carol"), 80).unwrap();
    assert_eq!(
        r,
        Some(Transfer {
            receiver: s("bob"),
            amount: 50
        })
    );
    let info = book.get_detailed_info(s("alice"), 100).unwrap();
    assert_eq!(
        info.winner,
        Some(Winner {
            bidder: s("carol"),
            amount: 80
        })
    );

    // A bid not strictly above the stored one is rejected, nothing changes.
    let r = book.bet(s("alice"), 100, s("carol"), 60);
    assert_eq!(r, Err(ReservationError::BidTooLow));
    let info = book.get_detailed_info(s("alice"), 100).unwrap();
    assert_eq!(
        info.winner,
        Some(Winner {
            bidder: s("carol"),
            amount: 80
        })
    );

    // At now >= slot time alice claims 80 and the slot is gone.
    let r = book.claim(s("alice"), 100);
    assert_eq!(
        r,
        Some(Transfer {
            receiver: s("alice"),
            amount: 80
        })
    );
    assert_eq!(
        book.get_detailed_info(s("alice"), 100),
        Err(ReservationError::SlotNotFound)
    );
}

#[test]
fn bet_on_missing_slot_or_account() {
    let mut book = Reservations::default();

    // No collection for the owner at all.
    let r = book.bet(s("alice"), 100, s("bob"), 50);
    assert_eq!(r, Err(ReservationError::AccountNotFound));

    // Collection exists, but this slot time was never added.
    book.add_slot(s("alice"), 100, s("court-1")).unwrap();
    let r = book.bet(s("alice"), 101, s("bob"), 50);
    assert_eq!(r, Err(ReservationError::SlotNotFound));

    // No transfer was issued and nothing changed.
    let info = book.get_detailed_info(s("alice"), 100).unwrap();
    assert_eq!(info.winner, None);
    assert_eq!(book.get_slots_info(s("alice")).len(), 1);
}

#[test]
fn duplicate_add_rejected_metadata_kept() {
    let mut book = Reservations::default();
    book.add_slot(s("alice"), 100, s("court-1")).unwrap();
    let r = book.add_slot(s("alice"), 100, s("court-2"));
    assert_eq!(r, Err(ReservationError::SlotAlreadyExists));
    let info = book.get_detailed_info(s("alice"), 100).unwrap();
    assert_eq!(info.metadata, s("court-1"));
    assert_eq!(book.get_slots_info(s("alice")).len(), 1);
}

#[test]
fn claim_and_remove_twice_pays_once() {
    let mut book = Reservations::default();
    book.add_slot(s("alice"), 100, s("court-1")).unwrap();
    book.bet(s("alice"), 100, s("bob"), 50).unwrap();

    let first = book.claim_and_remove_slot(s("alice"), 100);
    assert_eq!(
        first,
        Some(Transfer {
            receiver: s("alice"),
            amount: 50
        })
    );
    let second = book.claim_and_remove_slot(s("alice"), 100);
    assert_eq!(second, None);
}

#[test]
fn claim_and_remove_winnerless_slot_no_payment() {
    let mut book = Reservations::default();
    book.add_slot(s("alice"), 100, s("court-1")).unwrap();
    let r = book.claim_and_remove_slot(s("alice"), 100);
    assert_eq!(r, None);
    assert_eq!(
        book.get_detailed_info(s("alice"), 100),
        Err(ReservationError::SlotNotFound)
    );
}

#[test]
fn claim_respects_horizon() {
    let mut book = Reservations::default();
    let now: u64 = 1000;
    let near = now + EXPIRY_HORIZON - 1; // inside the window
    let far = now + EXPIRY_HORIZON; // exactly at the horizon: stays
    book.add_slot(s("alice"), near, s("soon")).unwrap();
    book.add_slot(s("alice"), far, s("later")).unwrap();
    book.bet(s("alice"), near, s("bob"), 30).unwrap();
    book.bet(s("alice"), far, s("carol"), 70).unwrap();

    let r = book.claim(s("alice"), now);
    assert_eq!(
        r,
        Some(Transfer {
            receiver: s("alice"),
            amount: 30
        })
    );

    // The far slot is untouched and claimable later.
    let info = book.get_detailed_info(s("alice"), far).unwrap();
    assert_eq!(info.metadata, s("later"));
    assert_eq!(
        info.winner,
        Some(Winner {
            bidder: s("carol"),
            amount: 70
        })
    );
    assert_eq!(
        book.get_detailed_info(s("alice"), near),
        Err(ReservationError::SlotNotFound)
    );

    let r = book.claim(s("alice"), now + 1);
    assert_eq!(
        r,
        Some(Transfer {
            receiver: s("alice"),
            amount: 70
        })
    );
    assert_eq!(book.get_slots_info(s("alice")).len(), 0);
}

#[test]
fn claim_sums_and_cleans_up() {
    let mut book = Reservations::default();
    book.add_slot(s("alice"), 10, s("a")).unwrap();
    book.add_slot(s("alice"), 20, s("b")).unwrap();
    book.add_slot(s("alice"), 30, s("c")).unwrap();
    book.bet(s("alice"), 10, s("bob"), 7).unwrap();
    book.bet(s("alice"), 30, s("carol"), 5).unwrap();
    // Slot 20 has no winner: removed as cleanup, contributes nothing.
    let r = book.claim(s("alice"), 1000);
    assert_eq!(
        r,
        Some(Transfer {
            receiver: s("alice"),
            amount: 12
        })
    );
    assert_eq!(book.get_slots_info(s("alice")).len(), 0);
}

#[test]
fn claim_saturates_instead_of_wrapping() {
    let mut book = Reservations::default();
    book.add_slot(s("alice"), 10, s("a")).unwrap();
    book.add_slot(s("alice"), 20, s("b")).unwrap();
    book.bet(s("alice"), 10, s("bob"), u128::MAX).unwrap();
    book.bet(s("alice"), 20, s("carol"), 3).unwrap();
    let r = book.claim(s("alice"), 1000);
    assert_eq!(
        r,
        Some(Transfer {
            receiver: s("alice"),
            amount: u128::MAX
        })
    );
}

#[test]
fn claim_without_winners_pays_nothing() {
    let mut book = Reservations::default();
    book.add_slot(s("alice"), 10, s("a")).unwrap();
    let r = book.claim(s("alice"), 1000);
    assert_eq!(r, None);
    assert_eq!(book.get_slots_info(s("alice")).len(), 0);

    // An owner with no collection at all is a quiet no-op too.
    let r = book.claim(s("nobody"), 1000);
    assert_eq!(r, None);
}

#[test]
fn get_slots_info_is_ordered_and_total() {
    let mut book = Reservations::default();
    book.add_slot(s("alice"), 30, s("c")).unwrap();
    book.add_slot(s("alice"), 10, s("a")).unwrap();
    book.add_slot(s("alice"), 20, s("b")).unwrap();
    let infos = book.get_slots_info(s("alice"));
    let times: Vec<u64> = infos.iter().map(|p| p.0).collect();
    assert_eq!(times, vec![10, 20, 30]);
    assert_eq!(infos[0].1.metadata, s("a"));
    assert_eq!(infos[2].1.metadata, s("c"));

    // Unknown owner: an empty sequence, no failure.
    assert_eq!(book.get_slots_info(s("nobody")).len(), 0);
}

#[test]
fn owners_do_not_interfere() {
    let mut book = Reservations::default();
    book.add_slot(s("alice"), 100, s("court-1")).unwrap();
    book.add_slot(s("bob"), 100, s("garage")).unwrap();
    book.bet(s("alice"), 100, s("carol"), 9).unwrap();

    let info = book.get_detailed_info(s("bob"), 100).unwrap();
    assert_eq!(info.metadata, s("garage"));
    assert_eq!(info.winner, None);

    book.claim(s("alice"), 200);
    assert_eq!(book.get_slots_info(s("alice")).len(), 0);
    assert_eq!(book.get_slots_info(s("bob")).len(), 1);
}

#[test]
fn zero_amount_winner_is_removed_without_payment() {
    let mut book = Reservations::default();
    book.add_slot(s("alice"), 100, s("court-1")).unwrap();
    // A first bid of zero is recorded as the winner.
    book.bet(s("alice"), 100, s("bob"), 0).unwrap();
    let r = book.claim_and_remove_slot(s("alice"), 100);
    assert_eq!(r, None);
    assert_eq!(
        book.get_detailed_info(s("alice"), 100),
        Err(ReservationError::SlotNotFound)
    );
}

#[test]
fn monotone_bids_accumulate_refunds() {
    // Every displaced amount comes back as a refund: with accepted bids
    // 5, 8, 12 the refunds are 5 and 8, and 12 stays in escrow.
    let mut book = Reservations::default();
    book.add_slot(s("alice"), 100, s("court-1")).unwrap();
    let mut refunds: u128 = 0;
    for (bidder, amount) in [("b1", 5u128), ("b2", 8), ("b3", 12)] {
        if let Some(t) = book.bet(s("alice"), 100, s(bidder), amount).unwrap() {
            refunds += t.amount;
        }
    }
    assert_eq!(refunds, 5 + 8);
    let info = book.get_detailed_info(s("alice"), 100).unwrap();
    assert_eq!(
        info.winner,
        Some(Winner {
            bidder: s("b3"),
            amount: 12
        })
    );
}
