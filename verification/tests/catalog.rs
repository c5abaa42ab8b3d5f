use seat_allocator::layout::Category;
use seat_allocator::layout::SeatKey;
use seat_allocator::layout::Section;
use seat_allocator::layout::price_of;
use seat_allocator::layout::rows_of;
use seat_allocator::layout::seats_per_row;
use seat_allocator::layout::visibility_of;
use seat_allocator::store::SeatError;
use seat_allocator::store::SeatStatus;
use seat_allocator::store::SeatStore;

fn key(section: Section, row: u32, number: u32) -> SeatKey {
    SeatKey { section, row, number }
}

#[test]
fn build_creates_every_seat_free() {
    let store = SeatStore::build();
    let snap = store.snapshot();
    // 3 sections of 2x5, 6 of 4x6, 3 of 4x8.
    assert_eq!(snap.len(), 3 * 10 + 6 * 24 + 3 * 32);
    for st in &snap {
        assert_eq!(st.status, SeatStatus::Free);
    }
}

#[test]
fn build_statuses_readable() {
    let store = SeatStore::build();
    assert_eq!(store.get_status(key(Section::A1, 1, 1)), Ok(SeatStatus::Free));
    assert_eq!(store.get_status(key(Section::F, 4, 8)), Ok(SeatStatus::Free));
    assert_eq!(
        store.get_status(key(Section::A1, 3, 1)),
        Err(SeatError::NotFound)
    );
    assert_eq!(
        store.get_status(key(Section::A1, 1, 6)),
        Err(SeatError::NotFound)
    );
}

#[test]
fn geometry_and_prices_follow_category() {
    assert_eq!(rows_of(Section::A1), 2);
    assert_eq!(seats_per_row(Section::A1), 5);
    assert_eq!(rows_of(Section::B2), 4);
    assert_eq!(seats_per_row(Section::B2), 6);
    assert_eq!(rows_of(Section::E), 4);
    assert_eq!(seats_per_row(Section::E), 8);
    assert_eq!(price_of(Section::C1), 150);
    assert_eq!(price_of(Section::A2), 90);
    assert_eq!(price_of(Section::B3), 80);
    assert_eq!(price_of(Section::D), 30);
    assert_eq!(visibility_of(Section::B1), 100);
    assert_eq!(visibility_of(Section::F), 70);
}

#[test]
fn categories_own_their_sections() {
    assert_eq!(
        Category::VIP.sections(),
        vec![Section::A1, Section::B1, Section::C1]
    );
    assert_eq!(
        Category::Business.sections(),
        vec![
            Section::A2,
            Section::B2,
            Section::C2,
            Section::A3,
            Section::B3,
            Section::C3
        ]
    );
    assert_eq!(
        Category::Economy.sections(),
        vec![Section::D, Section::E, Section::F]
    );
    assert_eq!(Category::VIP.lower_category(), Some(Category::Business));
    assert_eq!(Category::Business.lower_category(), Some(Category::Economy));
    assert_eq!(Category::Economy.lower_category(), None);
    assert_eq!(Section::all_sections().len(), 12);
}

#[test]
fn set_status_updates_and_fails_loudly() {
    let mut store = SeatStore::build();
    let k = key(Section::B1, 2, 3);
    assert_eq!(store.set_status(k, SeatStatus::Booked), Ok(()));
    assert_eq!(store.get_status(k), Ok(SeatStatus::Booked));
    // Every other seat is untouched.
    assert_eq!(store.get_status(key(Section::B1, 2, 2)), Ok(SeatStatus::Free));
    let absent = key(Section::B1, 9, 9);
    assert_eq!(store.set_status(absent, SeatStatus::Free), Err(SeatError::NotFound));
    assert_eq!(store.get_status(k), Ok(SeatStatus::Booked));
}

#[test]
fn reading_twice_without_mutation_is_identical() {
    let mut store = SeatStore::build();
    store.set_status(key(Section::D, 1, 1), SeatStatus::Held).unwrap();
    let s1 = store.snapshot();
    let s2 = store.snapshot();
    assert_eq!(s1, s2);
    let k = key(Section::D, 1, 1);
    assert_eq!(store.get_status(k), store.get_status(k));
    assert_eq!(store.count_free(Section::D), store.count_free(Section::D));
}

#[test]
fn count_free_tracks_bookings() {
    let mut store = SeatStore::build();
    assert_eq!(store.count_free(Section::A1), 10);
    assert_eq!(store.count_free(Section::C2), 24);
    assert_eq!(store.count_free(Section::F), 32);
    assert_eq!(store.count_free_total(), 270);
    store.set_status(key(Section::A1, 1, 1), SeatStatus::Booked).unwrap();
    store.set_status(key(Section::A1, 2, 5), SeatStatus::Held).unwrap();
    assert_eq!(store.count_free(Section::A1), 8);
    assert_eq!(store.count_free_total(), 268);
}

#[test]
fn collect_free_is_sorted_by_row_then_number() {
    let mut store = SeatStore::build();
    store.set_status(key(Section::A1, 1, 2), SeatStatus::Booked).unwrap();
    let frees = store.collect_free(Section::A1);
    assert_eq!(frees.len(), 9);
    assert_eq!(frees[0], key(Section::A1, 1, 1));
    assert_eq!(frees[1], key(Section::A1, 1, 3));
    assert_eq!(frees[8], key(Section::A1, 2, 5));
}
