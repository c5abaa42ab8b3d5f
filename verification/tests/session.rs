use seat_allocator::finder::Scope;
use seat_allocator::layout::Category;
use seat_allocator::layout::SeatKey;
use seat_allocator::layout::Section;
use seat_allocator::session::Session;
use seat_allocator::session::SessionPhase;
use seat_allocator::store::SeatStatus;
use seat_allocator::store::SeatStore;

fn key(section: Section, row: u32, number: u32) -> SeatKey {
    SeatKey { section, row, number }
}

#[test]
fn request_holds_every_offered_seat() {
    let mut store = SeatStore::build();
    let mut session = Session::new();
    let n = session.on_request(&mut store, 3, Scope::Cat(Category::VIP));
    assert!(n >= 1);
    assert_eq!(session.phase, SessionPhase::Offered);
    assert_eq!(n, session.offered.len());
    for s in &session.offered {
        for k in &s.seats {
            assert_eq!(store.get_status(*k), Ok(SeatStatus::Held));
            assert!(session.held.contains(k));
        }
    }
}

#[test]
fn unavailable_request_changes_nothing() {
    let mut store = SeatStore::build();
    let mut session = Session::new();
    let before = store.snapshot();
    let n = session.on_request(&mut store, 999, Scope::Cat(Category::VIP));
    assert_eq!(n, 0);
    assert_eq!(session.phase, SessionPhase::Connected);
    assert!(session.held.is_empty());
    assert_eq!(store.snapshot(), before);
}

#[test]
fn accepting_books_chosen_and_frees_rest() {
    let mut store = SeatStore::build();
    let mut session = Session::new();
    let n = session.on_request(&mut store, 2, Scope::Cat(Category::Economy));
    assert!(n >= 2);
    let chosen: Vec<SeatKey> = session.offered[0].seats.clone();
    let others: Vec<SeatKey> = session.offered[1].seats.clone();
    let accepted = session.on_choice(&mut store, 1);
    assert!(accepted);
    assert_eq!(session.phase, SessionPhase::Confirmed);
    assert!(session.held.is_empty());
    for k in &chosen {
        assert_eq!(store.get_status(*k), Ok(SeatStatus::Booked));
    }
    for k in &others {
        assert_eq!(store.get_status(*k), Ok(SeatStatus::Free));
    }
}

#[test]
fn choosing_second_suggestion_frees_first() {
    let mut store = SeatStore::build();
    let mut session = Session::new();
    let n = session.on_request(&mut store, 2, Scope::Cat(Category::Business));
    assert!(n >= 2);
    let first: Vec<SeatKey> = session.offered[0].seats.clone();
    let second: Vec<SeatKey> = session.offered[1].seats.clone();
    assert!(session.on_choice(&mut store, 2));
    for k in &first {
        assert_eq!(store.get_status(*k), Ok(SeatStatus::Free));
    }
    for k in &second {
        assert_eq!(store.get_status(*k), Ok(SeatStatus::Booked));
    }
}

#[test]
fn declining_frees_every_offered_seat() {
    let mut store = SeatStore::build();
    let mut session = Session::new();
    let n = session.on_request(&mut store, 3, Scope::Cat(Category::VIP));
    assert!(n >= 1);
    let offered: Vec<SeatKey> = session.held.clone();
    let accepted = session.on_choice(&mut store, 0);
    assert!(!accepted);
    assert_eq!(session.phase, SessionPhase::Declined);
    for k in &offered {
        assert_eq!(store.get_status(*k), Ok(SeatStatus::Free));
    }
    assert_eq!(store.count_free_total(), 270);
}

#[test]
fn out_of_range_choice_declines() {
    let mut store = SeatStore::build();
    let mut session = Session::new();
    let n = session.on_request(&mut store, 2, Scope::Sect(Section::A1));
    assert_eq!(n, 1);
    assert!(!session.on_choice(&mut store, 4));
    assert_eq!(session.phase, SessionPhase::Declined);
    assert_eq!(store.count_free_total(), 270);
}

#[test]
fn disconnect_without_deciding_frees_held_seats() {
    // Scenario: a client requests 2 seats, receives suggestions, and
    // disconnects without choosing; every held seat returns to free.
    let mut store = SeatStore::build();
    let mut session = Session::new();
    let n = session.on_request(&mut store, 2, Scope::Sect(Section::B1));
    assert!(n >= 1);
    assert!(store.count_free_total() < 270);
    session.on_disconnect(&mut store);
    assert_eq!(session.phase, SessionPhase::Closed);
    assert!(session.held.is_empty());
    assert_eq!(store.count_free_total(), 270);
}

#[test]
fn concurrent_sessions_never_hold_the_same_seat() {
    // Two sessions request in turn against one store; the seats held by the
    // second are disjoint from those held by the first.
    let mut store = SeatStore::build();
    let mut a = Session::new();
    let mut b = Session::new();
    let na = a.on_request(&mut store, 3, Scope::Cat(Category::VIP));
    let nb = b.on_request(&mut store, 3, Scope::Cat(Category::VIP));
    assert!(na >= 1 && nb >= 1);
    for k in &a.held {
        assert!(!b.held.contains(k));
    }
    for s in &b.offered {
        for k in &s.seats {
            assert!(!a.held.contains(k));
        }
    }
}

#[test]
fn payment_success_books_held_seats() {
    let mut store = SeatStore::build();
    let mut session = Session::new();
    let n = session.on_request(&mut store, 2, Scope::Sect(Section::C1));
    assert!(n >= 1);
    let held: Vec<SeatKey> = session.held.clone();
    session.on_payment(&mut store, true);
    assert_eq!(session.phase, SessionPhase::Confirmed);
    for k in &held {
        assert_eq!(store.get_status(*k), Ok(SeatStatus::Booked));
    }
}

#[test]
fn payment_failure_frees_held_seats() {
    let mut store = SeatStore::build();
    let mut session = Session::new();
    let n = session.on_request(&mut store, 2, Scope::Sect(Section::C1));
    assert!(n >= 1);
    session.on_payment(&mut store, false);
    assert_eq!(session.phase, SessionPhase::Declined);
    assert_eq!(store.count_free_total(), 270);
}

#[test]
fn booked_seats_stay_booked_after_disconnect() {
    let mut store = SeatStore::build();
    let mut session = Session::new();
    session.on_request(&mut store, 2, Scope::Sect(Section::A1));
    let chosen: Vec<SeatKey> = session.offered[0].seats.clone();
    session.on_choice(&mut store, 1);
    session.on_disconnect(&mut store);
    for k in &chosen {
        assert_eq!(store.get_status(*k), Ok(SeatStatus::Booked));
    }
    assert_eq!(key(chosen[0].section, chosen[0].row, chosen[0].number), chosen[0]);
}
