//! The seat inventory: one record per seat, keyed by section, row and number.
//! The store is built once by the catalog and keeps the same set of seats for
//! its whole lifetime; only the status of a seat ever changes. Every operation
//! on an absent key fails loudly with a typed error.

use vstd::prelude::*;

use crate::layout::Section;
use crate::layout::SeatKey;
use crate::layout::key_lt;
use crate::layout::price_of;
use crate::layout::rows_of;
use crate::layout::sec_idx;
use crate::layout::section_at;
use crate::layout::seats_per_row;
use crate::layout::spec_all_sections;
use crate::layout::spec_price_of;
use crate::layout::spec_rows_of;
use crate::layout::spec_seats_per_row;
use crate::layout::spec_visibility_of;
use crate::layout::valid_key;
use crate::layout::visibility_of;

verus! {

/// The lifecycle state of one seat. A seat is `Held` while some session's
/// client is deciding on an offered suggestion that contains it.
#[derive(Clone, Copy, PartialEq, Eq, Structural, Debug)]
pub enum SeatStatus {
    Free,
    Held,
    Booked,
}

/// One seat of the venue: its key, the visibility and price it inherits from
/// its section, and its current status. Only `status` ever mutates.
#[derive(Clone, Copy, PartialEq, Eq, Structural, Debug)]
pub struct Seat {
    pub key: SeatKey,
    pub visibility: u32,
    pub price: u32,
    pub status: SeatStatus,
}

/// One row of a full state dump of the store, for client-facing snapshots.
#[derive(Clone, Copy, PartialEq, Eq, Structural, Debug)]
pub struct SeatState {
    pub section: Section,
    pub row: u32,
    pub number: u32,
    pub status: SeatStatus,
}

/// The error of a store operation: the addressed seat key does not exist.
#[derive(Clone, Copy, PartialEq, Eq, Structural, Debug)]
pub enum SeatError {
    NotFound,
}

/// Whether some seat of `st` has key `k`.
pub open spec fn has_key(st: Seq<Seat>, k: SeatKey) -> bool {
    exists|i: int| 0 <= i < st.len() && st[i].key == k
}

/// The index of the seat with key `k` (unique when the store is well formed).
pub open spec fn key_at(st: Seq<Seat>, k: SeatKey) -> int {
    choose|i: int| 0 <= i < st.len() && st[i].key == k
}

/// The status of the seat with key `k`.
pub open spec fn status_of(st: Seq<Seat>, k: SeatKey) -> SeatStatus {
    st[key_at(st, k)].status
}

/// Whether `st` has a seat with key `k` and that seat is `Free`.
pub open spec fn free_at(st: Seq<Seat>, k: SeatKey) -> bool {
    has_key(st, k) && status_of(st, k) == SeatStatus::Free
}

/// Well-formedness of a seat sequence: every key is valid for the venue
/// geometry, every seat carries its section's fixed visibility and price, and
/// no two seats share a key.
pub open spec fn wf_seats(st: Seq<Seat>) -> bool {
    &&& forall|i: int| 0 <= i < st.len() ==> valid_key(#[trigger] st[i].key)
    &&& forall|i: int|
        0 <= i < st.len() ==> (#[trigger] st[i]).price == spec_price_of(st[i].key.section)
    &&& forall|i: int|
        0 <= i < st.len() ==> (#[trigger] st[i]).visibility == spec_visibility_of(
            st[i].key.section,
        )
    &&& forall|i: int, j: int|
        0 <= i < j < st.len() ==> (#[trigger] st[i]).key != (#[trigger] st[j]).key
}

/// Completeness: every key the venue geometry allows is present.
pub open spec fn complete_seats(st: Seq<Seat>) -> bool {
    forall|k: SeatKey| valid_key(k) ==> #[trigger] has_key(st, k)
}

/// The sequence `st` with the status of the seat keyed `k` (if any) replaced
/// by `s`, all else unchanged.
pub open spec fn update_status(st: Seq<Seat>, k: SeatKey, s: SeatStatus) -> Seq<Seat> {
    Seq::new(
        st.len(),
        |i: int|
            if st[i].key == k {
                Seat { key: st[i].key, visibility: st[i].visibility, price: st[i].price, status: s }
            } else {
                st[i]
            },
    )
}

/// In a well-formed store the index of a present key is unique.
pub proof fn lemma_key_at(st: Seq<Seat>, k: SeatKey)
    requires
        wf_seats(st),
        has_key(st, k),
    ensures
        0 <= key_at(st, k) < st.len(),
        st[key_at(st, k)].key == k,
        forall|i: int| 0 <= i < st.len() && st[i].key == k ==> i == key_at(st, k),
{
    let w = key_at(st, k);
    assert(0 <= w < st.len() && st[w].key == k);
    assert forall|i: int| 0 <= i < st.len() && st[i].key == k implies i == w by {
        if i != w {
            if i < w {
                assert(st[i].key != st[w].key);
            } else {
                assert(st[w].key != st[i].key);
            }
        }
    }
}

/// What `update_status` does, seen through `has_key` and `status_of`: the
/// keyed seat takes the new status, every other seat keeps its own, and the
/// set of keys, the well-formedness and every other attribute are unchanged.
pub proof fn lemma_update_status(st: Seq<Seat>, k: SeatKey, s: SeatStatus)
    requires
        wf_seats(st),
        has_key(st, k),
    ensures
        wf_seats(update_status(st, k, s)),
        update_status(st, k, s).len() == st.len(),
        forall|k2: SeatKey| #[trigger] has_key(update_status(st, k, s), k2) == has_key(st, k2),
        status_of(update_status(st, k, s), k) == s,
        forall|k2: SeatKey|
            has_key(st, k2) && k2 != k ==> #[trigger] status_of(update_status(st, k, s), k2)
                == status_of(st, k2),
{
    let st2 = update_status(st, k, s);
    assert(forall|i: int| 0 <= i < st.len() ==> (#[trigger] st2[i]).key == st[i].key);
    assert forall|k2: SeatKey| #[trigger] has_key(st2, k2) == has_key(st, k2) by {
        if has_key(st, k2) {
            let i = key_at(st, k2);
            assert(st2[i].key == k2);
        }
        if has_key(st2, k2) {
            let i = key_at(st2, k2);
            assert(st[i].key == k2);
        }
    }
    assert forall|k2: SeatKey| has_key(st, k2) implies #[trigger] status_of(st2, k2) == (
    if k2 == k {
        s
    } else {
        status_of(st, k2)
    }) by {
        lemma_key_at(st, k2);
        lemma_key_at(st2, k2);
        let i = key_at(st, k2);
        let j = key_at(st2, k2);
        assert(st2[j].key == st[j].key);
        assert(j == i);
    }
}


/// The key of the seat at `(sec, row, n)` (rows and numbers counted from 1).
pub open spec fn seat_key(sec: Section, row: int, n: int) -> SeatKey {
    SeatKey { section: sec, row: row as u32, number: n as u32 }
}

/// The keys of the free seats of row `row` of section `sec` with numbers from
/// `n` up, in ascending number order.
pub open spec fn row_frees_from(st: Seq<Seat>, sec: Section, row: int, n: int) -> Seq<SeatKey>
    decreases spec_seats_per_row(sec) + 1 - n,
{
    if n < 1 || n > spec_seats_per_row(sec) {
        Seq::empty()
    } else {
        let rest = row_frees_from(st, sec, row, n + 1);
        if free_at(st, seat_key(sec, row, n)) {
            seq![seat_key(sec, row, n)] + rest
        } else {
            rest
        }
    }
}

/// The keys of the free seats of section `sec` with rows from `row` up, in
/// ascending (row, number) order.
pub open spec fn sec_frees_from(st: Seq<Seat>, sec: Section, row: int) -> Seq<SeatKey>
    decreases spec_rows_of(sec) + 1 - row,
{
    if row < 1 || row > spec_rows_of(sec) {
        Seq::empty()
    } else {
        row_frees_from(st, sec, row, 1) + sec_frees_from(st, sec, row + 1)
    }
}

/// Every free seat of section `sec`, in ascending (row, number) order.
pub open spec fn sec_frees(st: Seq<Seat>, sec: Section) -> Seq<SeatKey> {
    sec_frees_from(st, sec, 1)
}

/// How many seats of section `sec` are free.
pub open spec fn free_count(st: Seq<Seat>, sec: Section) -> nat {
    sec_frees(st, sec).len()
}

/// Every free seat of the venue from catalog position `i` on, in ascending
/// (section, row, number) order.
pub open spec fn all_frees_from(st: Seq<Seat>, i: int) -> Seq<SeatKey>
    decreases 12 - i,
{
    if i < 0 || i >= 12 {
        Seq::empty()
    } else {
        sec_frees(st, section_at(i)) + all_frees_from(st, i + 1)
    }
}

/// Every free seat of the venue, in ascending (section, row, number) order.
pub open spec fn all_frees(st: Seq<Seat>) -> Seq<SeatKey> {
    all_frees_from(st, 0)
}

/// How many seats of the whole venue are free.
pub open spec fn total_free(st: Seq<Seat>) -> nat {
    all_frees(st).len()
}

/// What `row_frees_from` enumerates: exactly the free seats of the row with
/// number at least `n`, in strictly ascending number order.
pub proof fn lemma_row_frees(st: Seq<Seat>, sec: Section, row: int, n: int)
    requires
        1 <= row <= u32::MAX,
        1 <= n,
    ensures
        forall|k: SeatKey| #[trigger]
            row_frees_from(st, sec, row, n).contains(k) <==> (k.section == sec && k.row == row
                && n <= k.number <= spec_seats_per_row(sec) && free_at(st, k)),
        forall|i: int, j: int|
            0 <= i < j < row_frees_from(st, sec, row, n).len()
                ==> (#[trigger] row_frees_from(st, sec, row, n)[i]).number
                < (#[trigger] row_frees_from(st, sec, row, n)[j]).number,
        forall|i: int|
            0 <= i < row_frees_from(st, sec, row, n).len()
                ==> n <= (#[trigger] row_frees_from(st, sec, row, n)[i]).number,
    decreases spec_seats_per_row(sec) + 1 - n,
{
    let q = row_frees_from(st, sec, row, n);
    if n < 1 || n > spec_seats_per_row(sec) {
    } else {
        lemma_row_frees(st, sec, row, n + 1);
        let rest = row_frees_from(st, sec, row, n + 1);
        let key = seat_key(sec, row, n);
        assert forall|k: SeatKey| #[trigger] q.contains(k) implies (k.section == sec && k.row == row
            && n <= k.number <= spec_seats_per_row(sec) && free_at(st, k)) by {
            let i = choose|i: int| 0 <= i < q.len() && q[i] == k;
            if free_at(st, key) {
                if i == 0 {
                } else {
                    assert(rest[i - 1] == k);
                    assert(rest.contains(k));
                }
            } else {
                assert(rest.contains(k));
            }
        }
        assert forall|k: SeatKey|
            (k.section == sec && k.row == row && n <= k.number <= spec_seats_per_row(sec)
                && free_at(st, k)) implies #[trigger] q.contains(k) by {
            if k.number == n {
                assert(k == key);
                assert(q[0] == k);
            } else {
                assert(rest.contains(k));
                let i = choose|i: int| 0 <= i < rest.len() && rest[i] == k;
                if free_at(st, key) {
                    assert(q[i + 1] == k);
                } else {
                    assert(q[i] == k);
                }
            }
        }
        assert forall|i: int| 0 <= i < q.len() implies n <= (#[trigger] q[i]).number by {
            if free_at(st, key) {
                if i > 0 {
                    assert(rest[i - 1] == q[i]);
                }
            } else {
                assert(rest[i] == q[i]);
            }
        }
        assert forall|i: int, j: int| 0 <= i < j < q.len() implies (#[trigger] q[i]).number
            < (#[trigger] q[j]).number by {
            if free_at(st, key) {
                if i == 0 {
                    assert(rest[j - 1] == q[j]);
                    assert(q[j].number >= n + 1);
                } else {
                    assert(rest[i - 1] == q[i]);
                    assert(rest[j - 1] == q[j]);
                }
            } else {
                assert(rest[i] == q[i]);
                assert(rest[j] == q[j]);
            }
        }
    }
}

/// What `sec_frees_from` enumerates: exactly the free seats of the section
/// with row at least `row`, in strictly ascending (row, number) order.
pub proof fn lemma_sec_frees(st: Seq<Seat>, sec: Section, row: int)
    requires
        1 <= row,
    ensures
        forall|k: SeatKey| #[trigger]
            sec_frees_from(st, sec, row).contains(k) <==> (k.section == sec && row <= k.row
                <= spec_rows_of(sec) && 1 <= k.number <= spec_seats_per_row(sec) && free_at(st, k)),
        forall|i: int, j: int|
            0 <= i < j < sec_frees_from(st, sec, row).len() ==> key_lt(
                #[trigger] sec_frees_from(st, sec, row)[i],
                #[trigger] sec_frees_from(st, sec, row)[j],
            ),
        forall|i: int|
            0 <= i < sec_frees_from(st, sec, row).len()
                ==> (#[trigger] sec_frees_from(st, sec, row)[i]).section == sec
                && row <= sec_frees_from(st, sec, row)[i].row,
    decreases spec_rows_of(sec) + 1 - row,
{
    let q = sec_frees_from(st, sec, row);
    if row < 1 || row > spec_rows_of(sec) {
    } else {
        lemma_sec_frees(st, sec, row + 1);
        lemma_row_frees(st, sec, row, 1);
        let head = row_frees_from(st, sec, row, 1);
        let rest = sec_frees_from(st, sec, row + 1);
        assert forall|k: SeatKey| #[trigger] q.contains(k) implies (k.section == sec && row <= k.row
            <= spec_rows_of(sec) && 1 <= k.number <= spec_seats_per_row(sec) && free_at(st, k)) by {
            let i = choose|i: int| 0 <= i < q.len() && q[i] == k;
            if i < head.len() {
                assert(head[i] == k);
                assert(head.contains(k));
            } else {
                assert(rest[i - head.len()] == k);
                assert(rest.contains(k));
            }
        }
        assert forall|k: SeatKey|
            (k.section == sec && row <= k.row <= spec_rows_of(sec) && 1 <= k.number
                <= spec_seats_per_row(sec) && free_at(st, k)) implies #[trigger] q.contains(k) by {
            if k.row == row {
                assert(head.contains(k));
                let i = choose|i: int| 0 <= i < head.len() && head[i] == k;
                assert(q[i] == k);
            } else {
                assert(rest.contains(k));
                let i = choose|i: int| 0 <= i < rest.len() && rest[i] == k;
                assert(q[head.len() + i] == k);
            }
        }
        assert forall|i: int| 0 <= i < q.len() implies (#[trigger] q[i]).section == sec && row
            <= q[i].row by {
            if i < head.len() {
                assert(head.contains(head[i]));
            } else {
                assert(rest[i - head.len()] == q[i]);
            }
        }
        assert forall|i: int, j: int| 0 <= i < j < q.len() implies key_lt(
            #[trigger] q[i],
            #[trigger] q[j],
        ) by {
            if j < head.len() {
                assert(head.contains(head[i]));
                assert(head.contains(head[j]));
            } else if i < head.len() {
                assert(head.contains(head[i]));
                assert(rest[j - head.len()] == q[j]);
            } else {
                assert(rest[i - head.len()] == q[i]);
                assert(rest[j - head.len()] == q[j]);
            }
        }
    }
}

/// What `all_frees_from` enumerates: exactly the free seats with valid keys in
/// sections at catalog position `i` or later, in strictly ascending key order.
pub proof fn lemma_all_frees(st: Seq<Seat>, i: int)
    requires
        0 <= i,
    ensures
        forall|k: SeatKey| #[trigger]
            all_frees_from(st, i).contains(k) <==> (valid_key(k) && i <= sec_idx(k.section)
                && free_at(st, k)),
        forall|a: int, b: int|
            0 <= a < b < all_frees_from(st, i).len() ==> key_lt(
                #[trigger] all_frees_from(st, i)[a],
                #[trigger] all_frees_from(st, i)[b],
            ),
    decreases 12 - i,
{
    let q = all_frees_from(st, i);
    if i >= 12 {
        assert forall|k: SeatKey|
            (valid_key(k) && i <= sec_idx(k.section) && free_at(st, k)) implies #[trigger]
            q.contains(k) by {
            assert(sec_idx(k.section) < 12);
        }
    } else {
        lemma_all_frees(st, i + 1);
        lemma_sec_frees(st, section_at(i), 1);
        crate::layout::lemma_sec_idx_bijective();
        let head = sec_frees(st, section_at(i));
        let rest = all_frees_from(st, i + 1);
        assert forall|k: SeatKey| #[trigger] q.contains(k) implies (valid_key(k) && i <= sec_idx(
            k.section,
        ) && free_at(st, k)) by {
            let a = choose|a: int| 0 <= a < q.len() && q[a] == k;
            if a < head.len() {
                assert(head[a] == k);
                assert(head.contains(k));
                assert(k.section == section_at(i));
            } else {
                assert(rest[a - head.len()] == k);
                assert(rest.contains(k));
            }
        }
        assert forall|k: SeatKey|
            (valid_key(k) && i <= sec_idx(k.section) && free_at(st, k)) implies #[trigger]
            q.contains(k) by {
            if sec_idx(k.section) == i {
                assert(k.section == section_at(i));
                assert(head.contains(k));
                let a = choose|a: int| 0 <= a < head.len() && head[a] == k;
                assert(q[a] == k);
            } else {
                assert(rest.contains(k));
                let a = choose|a: int| 0 <= a < rest.len() && rest[a] == k;
                assert(q[head.len() + a] == k);
            }
        }
        assert forall|a: int, b: int| 0 <= a < b < q.len() implies key_lt(
            #[trigger] q[a],
            #[trigger] q[b],
        ) by {
            if b < head.len() {
                assert(head.contains(head[a]));
                assert(head.contains(head[b]));
            } else if a < head.len() {
                assert(head.contains(head[a]));
                assert(rest[b - head.len()] == q[b]);
                assert(rest.contains(q[b]));
                assert(q[a].section == section_at(i));
                assert(sec_idx(q[b].section) >= i + 1);
            } else {
                assert(rest[a - head.len()] == q[a]);
                assert(rest[b - head.len()] == q[b]);
            }
        }
    }
}

/// A strictly ascending key sequence has no duplicates.
pub proof fn lemma_sorted_no_dup(q: Seq<SeatKey>)
    requires
        forall|i: int, j: int| 0 <= i < j < q.len() ==> key_lt(#[trigger] q[i], #[trigger] q[j]),
    ensures
        q.no_duplicates(),
{
    assert forall|i: int, j: int| 0 <= i < q.len() && 0 <= j < q.len() && i != j implies q[i]
        != q[j] by {
        if i < j {
            assert(key_lt(q[i], q[j]));
        } else {
            assert(key_lt(q[j], q[i]));
        }
    }
}

/// No more distinct free seats can exist in a section than `free_count` says:
/// any duplicate-free sequence of free, valid keys of section `sec` is at most
/// `free_count(st, sec)` long.
pub proof fn lemma_distinct_free_le_count(st: Seq<Seat>, sec: Section, keys: Seq<SeatKey>)
    requires
        keys.no_duplicates(),
        forall|i: int|
            0 <= i < keys.len() ==> valid_key(#[trigger] keys[i]) && keys[i].section == sec
                && free_at(st, keys[i]),
    ensures
        keys.len() <= free_count(st, sec),
{
    lemma_sec_frees(st, sec, 1);
    let q = sec_frees(st, sec);
    lemma_sorted_no_dup(q);
    keys.unique_seq_to_set();
    q.unique_seq_to_set();
    assert forall|k: SeatKey| keys.to_set().contains(k) implies q.to_set().contains(k) by {
        assert(keys.contains(k));
        let i = choose|i: int| 0 <= i < keys.len() && keys[i] == k;
        assert(q.contains(k));
    }
    vstd::set_lib::lemma_len_subset(keys.to_set(), q.to_set());
}

/// No more distinct free seats can exist in the venue than `total_free` says.
pub proof fn lemma_distinct_free_le_total(st: Seq<Seat>, keys: Seq<SeatKey>)
    requires
        keys.no_duplicates(),
        forall|i: int|
            0 <= i < keys.len() ==> valid_key(#[trigger] keys[i]) && free_at(st, keys[i]),
    ensures
        keys.len() <= total_free(st),
{
    lemma_all_frees(st, 0);
    let q = all_frees(st);
    lemma_sorted_no_dup(q);
    keys.unique_seq_to_set();
    q.unique_seq_to_set();
    assert forall|k: SeatKey| keys.to_set().contains(k) implies q.to_set().contains(k) by {
        assert(keys.contains(k));
        let i = choose|i: int| 0 <= i < keys.len() && keys[i] == k;
        assert(q.contains(k));
    }
    vstd::set_lib::lemma_len_subset(keys.to_set(), q.to_set());
}


/// The client-facing state dump a store state determines: one `SeatState` per
/// seat, in store order.
pub open spec fn snapshot_of(st: Seq<Seat>) -> Seq<SeatState> {
    Seq::new(
        st.len(),
        |i: int|
            SeatState {
                section: st[i].key.section,
                row: st[i].key.row,
                number: st[i].key.number,
                status: st[i].status,
            },
    )
}

/// Reading is idempotent: the status read and the snapshot taken are functions
/// of the store state alone, so re-reading without an intervening mutation
/// yields identical results.
pub proof fn lemma_reads_idempotent(
    st: Seq<Seat>,
    k: SeatKey,
    r1: Result<SeatStatus, SeatError>,
    r2: Result<SeatStatus, SeatError>,
    d1: Seq<SeatState>,
    d2: Seq<SeatState>,
)
    requires
        r1 == if has_key(st, k) {
            Ok::<SeatStatus, SeatError>(status_of(st, k))
        } else {
            Err::<SeatStatus, SeatError>(SeatError::NotFound)
        },
        r2 == if has_key(st, k) {
            Ok::<SeatStatus, SeatError>(status_of(st, k))
        } else {
            Err::<SeatStatus, SeatError>(SeatError::NotFound)
        },
        d1 == snapshot_of(st),
        d2 == snapshot_of(st),
    ensures
        r1 == r2,
        d1 == d2,
{
}

/// The mutable seat inventory. All reads and writes go through the methods
/// below; each method call is one atomic critical section from the point of
/// view of the callers that share the store.
pub struct SeatStore {
    seats: Vec<Seat>,
}

impl View for SeatStore {
    type V = Seq<Seat>;

    closed spec fn view(&self) -> Seq<Seat> {
        self.seats@
    }
}

impl SeatStore {
    /// The store invariant: see `wf_seats`.
    pub open spec fn wf(&self) -> bool {
        wf_seats(self@)
    }

    /// Whether the store holds every seat the venue geometry allows.
    pub open spec fn complete(&self) -> bool {
        complete_seats(self@)
    }

    /// The index of the seat with key `k`, if any.
    pub fn find_key(&self, k: SeatKey) -> (r: Option<usize>)
        requires
            self.wf(),
        ensures
            r matches Some(i) ==> 0 <= i < self@.len() && self@[i as int].key == k && has_key(
                self@,
                k,
            ) && i as int == key_at(self@, k),
            r is None ==> !has_key(self@, k),
    {
        let n = self.seats.len();
        let mut i: usize = 0;
        while i < n
            invariant
                self.wf(),
                n == self@.len(),
                i <= n,
                forall|j: int| 0 <= j < i ==> (#[trigger] self@[j]).key != k,
            decreases n - i,
        {
            if self.seats[i].key == k {
                proof {
                    lemma_key_at(self@, k);
                }
                return Some(i);
            }
            i += 1;
        }
        None
    }

    /// The status of the seat with key `k`, or `NotFound` if no seat has
    /// that key.
    pub fn get_status(&self, k: SeatKey) -> (r: Result<SeatStatus, SeatError>)
        requires
            self.wf(),
        ensures
            r == if has_key(self@, k) {
                Ok::<SeatStatus, SeatError>(status_of(self@, k))
            } else {
                Err::<SeatStatus, SeatError>(SeatError::NotFound)
            },
    {
        match self.find_key(k) {
            Some(i) => Ok(self.seats[i].status),
            None => Err(SeatError::NotFound),
        }
    }

    /// Whether the store has a seat with key `k` and that seat is `Free`.
    pub fn is_free(&self, k: SeatKey) -> (r: bool)
        requires
            self.wf(),
        ensures
            r == free_at(self@, k),
    {
        match self.get_status(k) {
            Ok(SeatStatus::Free) => true,
            _ => false,
        }
    }

    /// Sets the status of the seat with key `k`, failing loudly with
    /// `NotFound` (and leaving the store unchanged) if no seat has that key.
    pub fn set_status(&mut self, k: SeatKey, s: SeatStatus) -> (r: Result<(), SeatError>)
        requires
            old(self).wf(),
        ensures
            final(self).wf(),
            r == if has_key(old(self)@, k) {
                Ok::<(), SeatError>(())
            } else {
                Err::<(), SeatError>(SeatError::NotFound)
            },
            final(self)@ == if has_key(old(self)@, k) {
                update_status(old(self)@, k, s)
            } else {
                old(self)@
            },
    {
        match self.find_key(k) {
            Some(i) => {
                let seat = Seat {
                    key: k,
                    visibility: self.seats[i].visibility,
                    price: self.seats[i].price,
                    status: s,
                };
                self.seats.set(i, seat);
                proof {
                    lemma_key_at(old(self)@, k);
                    lemma_update_status(old(self)@, k, s);
                    assert(self@ =~= update_status(old(self)@, k, s));
                }
                Ok(())
            },
            None => Err(SeatError::NotFound),
        }
    }

    /// A full dump of the store: one `SeatState` per seat, in store order.
    pub fn snapshot(&self) -> (r: Vec<SeatState>)
        requires
            self.wf(),
        ensures
            r@ == snapshot_of(self@),
    {
        let n = self.seats.len();
        let mut out: Vec<SeatState> = Vec::new();
        let mut i: usize = 0;
        while i < n
            invariant
                self.wf(),
                n == self@.len(),
                i <= n,
                out@.len() == i,
                forall|j: int| 0 <= j < i ==> #[trigger] out@[j] == snapshot_of(self@)[j],
            decreases n - i,
        {
            let seat = &self.seats[i];
            out.push(
                SeatState {
                    section: seat.key.section,
                    row: seat.key.row,
                    number: seat.key.number,
                    status: seat.status,
                },
            );
            i += 1;
        }
        proof {
            assert(out@ =~= snapshot_of(self@));
        }
        out
    }


    /// Every free seat of section `sec`, in ascending (row, number) order.
    pub fn collect_free(&self, sec: Section) -> (r: Vec<SeatKey>)
        requires
            self.wf(),
        ensures
            r@ == sec_frees(self@, sec),
    {
        let ghost st = self@;
        let rows = rows_of(sec);
        let spr = seats_per_row(sec);
        let mut out: Vec<SeatKey> = Vec::new();
        let mut row: u32 = 1;
        while row <= rows
            invariant
                self.wf(),
                st == self@,
                1 <= row <= rows + 1,
                rows == spec_rows_of(sec),
                spr == spec_seats_per_row(sec),
                out@ + sec_frees_from(st, sec, row as int) == sec_frees(st, sec),
            decreases rows + 1 - row,
        {
            let mut n: u32 = 1;
            proof {
                assert(sec_frees_from(st, sec, row as int) == row_frees_from(st, sec, row as int, 1)
                    + sec_frees_from(st, sec, row as int + 1));
            }
            while n <= spr
                invariant
                    self.wf(),
                    st == self@,
                    1 <= n <= spr + 1,
                    1 <= row <= rows,
                    rows == spec_rows_of(sec),
                    spr == spec_seats_per_row(sec),
                    out@ + row_frees_from(st, sec, row as int, n as int) + sec_frees_from(
                        st,
                        sec,
                        row as int + 1,
                    ) == sec_frees(st, sec),
                decreases spr + 1 - n,
            {
                let key = SeatKey { section: sec, row, number: n };
                let ghost prev = out@;
                if self.is_free(key) {
                    out.push(key);
                }
                proof {
                    assert(seat_key(sec, row as int, n as int) == key);
                    if free_at(st, key) {
                        assert(row_frees_from(st, sec, row as int, n as int) == seq![key]
                            + row_frees_from(st, sec, row as int, n as int + 1));
                        assert(out@ == prev.push(key));
                        assert(out@ + row_frees_from(st, sec, row as int, n as int + 1) =~= prev
                            + row_frees_from(st, sec, row as int, n as int));
                    } else {
                        assert(row_frees_from(st, sec, row as int, n as int) == row_frees_from(
                            st,
                            sec,
                            row as int,
                            n as int + 1,
                        ));
                    }
                }
                n += 1;
            }
            proof {
                assert(row_frees_from(st, sec, row as int, n as int) =~= Seq::<SeatKey>::empty());
                assert(out@ + sec_frees_from(st, sec, row as int + 1) =~= out@ + row_frees_from(
                    st,
                    sec,
                    row as int,
                    n as int,
                ) + sec_frees_from(st, sec, row as int + 1));
            }
            row += 1;
        }
        proof {
            assert(sec_frees_from(st, sec, row as int) =~= Seq::<SeatKey>::empty());
            assert(out@ =~= out@ + sec_frees_from(st, sec, row as int));
        }
        out
    }

    /// How many seats of section `sec` are free.
    pub fn count_free(&self, sec: Section) -> (r: usize)
        requires
            self.wf(),
        ensures
            r == free_count(self@, sec),
    {
        let v = self.collect_free(sec);
        v.len()
    }

    /// Every free seat of the venue, in ascending (section, row, number) order.
    pub fn collect_all_free(&self) -> (r: Vec<SeatKey>)
        requires
            self.wf(),
        ensures
            r@ == all_frees(self@),
    {
        let ghost st = self@;
        let secs = Section::all_sections();
        let mut out: Vec<SeatKey> = Vec::new();
        let mut si: usize = 0;
        while si < secs.len()
            invariant
                self.wf(),
                st == self@,
                si <= 12,
                secs@ == spec_all_sections(),
                out@ + all_frees_from(st, si as int) == all_frees(st),
            decreases 12 - si,
        {
            let sec = secs[si];
            proof {
                assert(sec == spec_all_sections()[si as int]);
                assert(section_at(si as int) == sec);
                assert(all_frees_from(st, si as int) == sec_frees(st, sec) + all_frees_from(
                    st,
                    si as int + 1,
                ));
            }
            let mut part = self.collect_free(sec);
            let ghost prev = out@;
            out.append(&mut part);
            proof {
                assert(out@ + all_frees_from(st, si as int + 1) =~= prev + all_frees_from(
                    st,
                    si as int,
                ));
            }
            si += 1;
        }
        proof {
            assert(all_frees_from(st, si as int) =~= Seq::<SeatKey>::empty());
            assert(out@ =~= out@ + all_frees_from(st, si as int));
        }
        out
    }

    /// How many seats of the whole venue are free.
    pub fn count_free_total(&self) -> (r: usize)
        requires
            self.wf(),
        ensures
            r == total_free(self@),
    {
        let v = self.collect_all_free();
        v.len()
    }

    /// Builds the catalog: the store pre-populated with every seat of every
    /// section, all `Free`, each with its section's fixed visibility and
    /// price. Deterministic, no error conditions.
    pub fn build() -> (r: SeatStore)
        ensures
            r.wf(),
            r.complete(),
            forall|i: int| 0 <= i < r@.len() ==> (#[trigger] r@[i]).status == SeatStatus::Free,
    {
        let secs = Section::all_sections();
        let mut seats: Vec<Seat> = Vec::new();
        let mut si: usize = 0;
        while si < secs.len()
            invariant
                secs@ == spec_all_sections(),
                si <= 12,
                forall|i: int|
                    0 <= i < seats@.len() ==> valid_key((#[trigger] seats@[i]).key)
                        && seats@[i].price == spec_price_of(seats@[i].key.section)
                        && seats@[i].visibility == spec_visibility_of(seats@[i].key.section)
                        && seats@[i].status == SeatStatus::Free,
                forall|i: int|
                    0 <= i < seats@.len() ==> sec_idx((#[trigger] seats@[i]).key.section) < si,
                forall|i: int, j: int|
                    0 <= i < j < seats@.len() ==> key_lt(
                        (#[trigger] seats@[i]).key,
                        (#[trigger] seats@[j]).key,
                    ),
                forall|k: SeatKey|
                    valid_key(k) && sec_idx(k.section) < si ==> #[trigger] has_key(seats@, k),
            decreases 12 - si,
        {
            let sec = secs[si];
            proof {
                assert(sec == spec_all_sections()[si as int]);
                assert(sec_idx(sec) == si as int);
            }
            let rows = rows_of(sec);
            let spr = seats_per_row(sec);
            let mut row: u32 = 1;
            while row <= rows
                invariant
                    1 <= row <= rows + 1,
                    rows == spec_rows_of(sec),
                    spr == spec_seats_per_row(sec),
                    sec_idx(sec) == si as int,
                    si < 12,
                    forall|i: int|
                        0 <= i < seats@.len() ==> valid_key((#[trigger] seats@[i]).key)
                            && seats@[i].price == spec_price_of(seats@[i].key.section)
                            && seats@[i].visibility == spec_visibility_of(seats@[i].key.section)
                            && seats@[i].status == SeatStatus::Free,
                    forall|i: int|
                        0 <= i < seats@.len() ==> sec_idx((#[trigger] seats@[i]).key.section) < si
                            || (seats@[i].key.section == sec && seats@[i].key.row < row),
                    forall|i: int, j: int|
                        0 <= i < j < seats@.len() ==> key_lt(
                            (#[trigger] seats@[i]).key,
                            (#[trigger] seats@[j]).key,
                        ),
                    forall|k: SeatKey|
                        valid_key(k) && (sec_idx(k.section) < si || (k.section == sec && k.row
                            < row)) ==> #[trigger] has_key(seats@, k),
                decreases rows + 1 - row,
            {
                let mut n: u32 = 1;
                while n <= spr
                    invariant
                        1 <= n <= spr + 1,
                        1 <= row <= rows,
                        rows == spec_rows_of(sec),
                        spr == spec_seats_per_row(sec),
                        sec_idx(sec) == si as int,
                        si < 12,
                        forall|i: int|
                            0 <= i < seats@.len() ==> valid_key((#[trigger] seats@[i]).key)
                                && seats@[i].price == spec_price_of(seats@[i].key.section)
                                && seats@[i].visibility == spec_visibility_of(
                                seats@[i].key.section,
                            ) && seats@[i].status == SeatStatus::Free,
                        forall|i: int|
                            0 <= i < seats@.len() ==> sec_idx((#[trigger] seats@[i]).key.section)
                                < si || (seats@[i].key.section == sec && (seats@[i].key.row < row
                                || (seats@[i].key.row == row && seats@[i].key.number < n))),
                        forall|i: int, j: int|
                            0 <= i < j < seats@.len() ==> key_lt(
                                (#[trigger] seats@[i]).key,
                                (#[trigger] seats@[j]).key,
                            ),
                        forall|k: SeatKey|
                            valid_key(k) && (sec_idx(k.section) < si || (k.section == sec && (k.row
                                < row || (k.row == row && k.number < n))))
                                ==> #[trigger] has_key(seats@, k),
                    decreases spr + 1 - n,
                {
                    let key = SeatKey { section: sec, row, number: n };
                    let seat = Seat {
                        key,
                        visibility: visibility_of(sec),
                        price: price_of(sec),
                        status: SeatStatus::Free,
                    };
                    let ghost prev = seats@;
                    seats.push(seat);
                    proof {
                        assert(seats@ == prev.push(seat));
                        assert forall|k: SeatKey|
                            valid_key(k) && (sec_idx(k.section) < si || (k.section == sec && (k.row
                                < row || (k.row == row && k.number < n + 1))))
                                implies #[trigger] has_key(seats@, k) by {
                            if k.section == sec && k.row == row && k.number == n {
                                assert(seats@[prev.len() as int].key == k);
                            } else {
                                assert(has_key(prev, k));
                                let i = key_at(prev, k);
                                assert(seats@[i].key == k);
                            }
                        }
                    }
                    n += 1;
                }
                row += 1;
            }
            si += 1;
        }
        proof {
            assert(forall|s: Section| 0 <= #[trigger] sec_idx(s) < 12);
            assert forall|k: SeatKey| valid_key(k) implies #[trigger] has_key(seats@, k) by {
                assert(sec_idx(k.section) < 12);
            }
        }
        SeatStore { seats }
    }
}

} // verus!
