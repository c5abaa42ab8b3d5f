//! The seat finder: a stateless, read-only search over the store that turns a
//! requested quantity and a scope (one section, a category with fallback to
//! lower tiers, or the whole venue) into up to three ranked candidate seat
//! groupings, each of exactly the requested size.
//!
//! The search runs in phases, in order, and the first phase that produces at
//! least one full-size grouping is exclusively what is returned:
//! same-row runs first, then greedy chunks of a section's free seats, then
//! adjacent-row extensions of partial runs, then a whole-section sweep, then
//! (for a category) the same against the next lower tier, and (for the whole
//! venue) finally the first free seats anywhere, ignoring section boundaries.

use vstd::prelude::*;

use crate::layout::Category;
use crate::layout::chain_of;
use crate::layout::chain_sections;
use crate::layout::SeatKey;
use crate::layout::Section;
use crate::layout::sec_idx;
use crate::layout::seats_per_row;
use crate::layout::spec_all_sections;
use crate::layout::spec_price_of;
use crate::layout::spec_rows_of;
use crate::layout::spec_seats_per_row;
use crate::layout::spec_sections;
use crate::layout::rows_of;
use crate::layout::price_of;
use crate::layout::valid_key;
use crate::store::SeatStore;
use crate::store::Seat;
use crate::store::all_frees;
use crate::store::free_at;
use crate::store::free_count;
use crate::store::seat_key;
use crate::store::sec_frees;
use crate::store::total_free;

verus! {

/// The search boundary of one allocation request: one section, one category
/// (with cascade to lower tiers), or the entire venue.
#[derive(Clone, Copy, PartialEq, Eq, Structural, Debug)]
pub enum Scope {
    Sect(Section),
    Cat(Category),
    Anywhere,
}

/// Whether the `amount` seats of row `row` of `sec` starting at number `n0`
/// are all present and free.
pub open spec fn window_free(st: Seq<Seat>, sec: Section, row: int, n0: int, amount: int) -> bool {
    forall|k: int| 0 <= k < amount ==> free_at(st, #[trigger] seat_key(sec, row, n0 + k))
}

/// The keys of such a window, in ascending number order.
pub open spec fn window_keys(sec: Section, row: int, n0: int, amount: int) -> Seq<SeatKey> {
    Seq::new(amount as nat, |k: int| seat_key(sec, row, n0 + k))
}

/// The first number `n0 >= n` at which a free window of `amount` seats starts
/// in row `row` of `sec`, scanning numbers in ascending order.
pub open spec fn first_window_in_row(
    st: Seq<Seat>,
    sec: Section,
    row: int,
    n: int,
    amount: int,
) -> Option<int>
    decreases spec_seats_per_row(sec) + 1 - n,
{
    if amount < 1 || n < 1 || n + amount - 1 > spec_seats_per_row(sec) {
        None
    } else if window_free(st, sec, row, n, amount) {
        Some(n)
    } else {
        first_window_in_row(st, sec, row, n + 1, amount)
    }
}

/// The first (row, number) at which a free window of `amount` seats starts in
/// `sec`, scanning rows from `row` up and numbers within a row ascending.
pub open spec fn first_window_from(st: Seq<Seat>, sec: Section, row: int, amount: int) -> Option<
    (int, int),
>
    decreases spec_rows_of(sec) + 1 - row,
{
    if row < 1 || row > spec_rows_of(sec) {
        None
    } else {
        match first_window_in_row(st, sec, row, 1, amount) {
            Some(n0) => Some((row, n0)),
            None => first_window_from(st, sec, row + 1, amount),
        }
    }
}

/// The first free same-row window of `amount` seats in `sec`, if any: the
/// same-row suggestion this section contributes in the first search phase.
pub open spec fn first_window(st: Seq<Seat>, sec: Section, amount: int) -> Option<(int, int)> {
    first_window_from(st, sec, 1, amount)
}

/// Whether any section of `secs` has a free same-row window of `amount` seats.
pub open spec fn any_window(st: Seq<Seat>, secs: Seq<Section>, amount: int) -> bool {
    exists|i: int| 0 <= i < secs.len() && first_window(st, #[trigger] secs[i], amount) is Some
}

/// Whether any section of `secs` has at least `amount` free seats.
pub open spec fn any_satisfiable(st: Seq<Seat>, secs: Seq<Section>, amount: int) -> bool {
    exists|i: int| 0 <= i < secs.len() && free_count(st, #[trigger] secs[i]) >= amount
}

/// The same-row groupings of the first search phase: one grouping per section
/// that has a free window, sections taken in the order of `secs`, stopping
/// once `budget` groupings are found.
pub open spec fn same_row_pass(
    st: Seq<Seat>,
    secs: Seq<Section>,
    amount: int,
    budget: int,
) -> Seq<Seq<SeatKey>>
    decreases secs.len(),
{
    if secs.len() == 0 || budget <= 0 {
        Seq::empty()
    } else {
        match first_window(st, secs[0], amount) {
            Some((row, n0)) => seq![window_keys(secs[0], row, n0, amount)] + same_row_pass(
                st,
                secs.drop_first(),
                amount,
                budget - 1,
            ),
            None => same_row_pass(st, secs.drop_first(), amount, budget),
        }
    }
}

/// A window found by `first_window` really is a free window within bounds.
pub proof fn lemma_first_window_in_row_is_window(
    st: Seq<Seat>,
    sec: Section,
    row: int,
    n: int,
    amount: int,
)
    requires
        first_window_in_row(st, sec, row, n, amount) is Some,
        n >= 1,
    ensures
        ({
            let n0 = first_window_in_row(st, sec, row, n, amount)->Some_0;
            &&& n <= n0
            &&& n0 + amount - 1 <= spec_seats_per_row(sec)
            &&& amount >= 1
            &&& window_free(st, sec, row, n0, amount)
        }),
    decreases spec_seats_per_row(sec) + 1 - n,
{
    if amount < 1 || n < 1 || n + amount - 1 > spec_seats_per_row(sec) {
    } else if window_free(st, sec, row, n, amount) {
    } else {
        lemma_first_window_in_row_is_window(st, sec, row, n + 1, amount);
    }
}

/// Same, lifted to the row scan: the pair found by `first_window_from` is a
/// free window within the section's geometry.
pub proof fn lemma_first_window_from_is_window(st: Seq<Seat>, sec: Section, row: int, amount: int)
    requires
        first_window_from(st, sec, row, amount) is Some,
        row >= 1,
    ensures
        ({
            let (r, n0) = first_window_from(st, sec, row, amount)->Some_0;
            &&& row <= r <= spec_rows_of(sec)
            &&& 1 <= n0
            &&& n0 + amount - 1 <= spec_seats_per_row(sec)
            &&& amount >= 1
            &&& window_free(st, sec, r, n0, amount)
        }),
    decreases spec_rows_of(sec) + 1 - row,
{
    if row < 1 || row > spec_rows_of(sec) {
    } else {
        match first_window_in_row(st, sec, row, 1, amount) {
            Some(n0) => {
                lemma_first_window_in_row_is_window(st, sec, row, 1, amount);
            },
            None => {
                lemma_first_window_from_is_window(st, sec, row + 1, amount);
            },
        }
    }
}

/// The keys of a window are distinct, free, valid keys of the section, in
/// ascending number order within one row.
pub proof fn lemma_window_keys_good(st: Seq<Seat>, sec: Section, row: int, n0: int, amount: int)
    requires
        1 <= row <= spec_rows_of(sec),
        1 <= n0,
        amount >= 1,
        n0 + amount - 1 <= spec_seats_per_row(sec),
        window_free(st, sec, row, n0, amount),
    ensures
        window_keys(sec, row, n0, amount).len() == amount,
        window_keys(sec, row, n0, amount).no_duplicates(),
        forall|i: int|
            0 <= i < amount ==> {
                let k = #[trigger] window_keys(sec, row, n0, amount)[i];
                &&& valid_key(k)
                &&& free_at(st, k)
                &&& k.section == sec
                &&& k.row == row
            },
{
    let q = window_keys(sec, row, n0, amount);
    assert forall|i: int| 0 <= i < amount implies {
        let k = #[trigger] q[i];
        &&& valid_key(k)
        &&& free_at(st, k)
        &&& k.section == sec
        &&& k.row == row
    } by {
        assert(q[i] == seat_key(sec, row, n0 + i));
        assert(free_at(st, seat_key(sec, row, n0 + i)));
    }
    assert forall|i: int, j: int| 0 <= i < q.len() && 0 <= j < q.len() && i != j implies q[i]
        != q[j] by {
        assert(q[i] == seat_key(sec, row, n0 + i));
        assert(q[j] == seat_key(sec, row, n0 + j));
        assert(q[i].number == n0 + i && q[j].number == n0 + j);
    }
}

impl SeatStore {
    /// Whether the `amount` seats of `row` starting at number `n0` are all
    /// free, for in-bounds windows.
    fn window_is_free(&self, sec: Section, row: u32, n0: u32, amount: u32) -> (r: bool)
        requires
            self.wf(),
            1 <= n0,
            amount >= 1,
            n0 + amount - 1 <= spec_seats_per_row(sec),
        ensures
            r == window_free(self@, sec, row as int, n0 as int, amount as int),
    {
        let mut k: u32 = 0;
        while k < amount
            invariant
                self.wf(),
                0 <= k <= amount,
                1 <= n0,
                amount >= 1,
                n0 + amount - 1 <= spec_seats_per_row(sec),
                forall|j: int|
                    0 <= j < k ==> free_at(self@, #[trigger] seat_key(sec, row as int, n0 + j)),
            decreases amount - k,
        {
            let key = SeatKey { section: sec, row, number: n0 + k };
            proof {
                assert(seat_key(sec, row as int, n0 + k as int) == key);
            }
            if !self.is_free(key) {
                return false;
            }
            k += 1;
        }
        true
    }

    /// The first free same-row window of `amount` seats in `sec`, as the keys
    /// of its seats, or `None` when no row of the section holds `amount`
    /// consecutive free seats.
    pub fn find_row_window(&self, sec: Section, amount: u32) -> (r: Option<Vec<SeatKey>>)
        requires
            self.wf(),
        ensures
            r is Some <==> first_window(self@, sec, amount as int) is Some,
            r matches Some(v) ==> {
                let (row, n0) = first_window(self@, sec, amount as int)->Some_0;
                v@ == window_keys(sec, row, n0, amount as int)
            },
    {
        let ghost st = self@;
        let spr = seats_per_row(sec);
        let rows = rows_of(sec);
        if amount < 1 || amount > spr {
            proof {
                lemma_no_window_when_oversize(st, sec, 1, amount as int);
            }
            return None;
        }
        let mut row: u32 = 1;
        while row <= rows
            invariant
                self.wf(),
                st == self@,
                1 <= row <= rows + 1,
                rows == spec_rows_of(sec),
                spr == spec_seats_per_row(sec),
                1 <= amount <= spr,
                first_window(st, sec, amount as int) == first_window_from(
                    st,
                    sec,
                    row as int,
                    amount as int,
                ),
            decreases rows + 1 - row,
        {
            let mut n0: u32 = 1;
            while n0 + amount - 1 <= spr
                invariant
                    self.wf(),
                    st == self@,
                    1 <= row <= rows,
                    rows == spec_rows_of(sec),
                    spr == spec_seats_per_row(sec),
                    1 <= amount <= spr,
                    1 <= n0 <= spr - amount + 2,
                    first_window_in_row(st, sec, row as int, 1, amount as int)
                        == first_window_in_row(st, sec, row as int, n0 as int, amount as int),
                    first_window(st, sec, amount as int) == first_window_from(
                        st,
                        sec,
                        row as int,
                        amount as int,
                    ),
                decreases spr + 1 - n0,
            {
                if self.window_is_free(sec, row, n0, amount) {
                    let mut v: Vec<SeatKey> = Vec::new();
                    let mut k: u32 = 0;
                    while k < amount
                        invariant
                            0 <= k <= amount,
                            1 <= n0,
                            n0 + amount - 1 <= spec_seats_per_row(sec),
                            v@.len() == k,
                            forall|j: int|
                                0 <= j < k ==> v@[j] == seat_key(sec, row as int, n0 + j),
                        decreases amount - k,
                    {
                        v.push(SeatKey { section: sec, row, number: n0 + k });
                        k += 1;
                    }
                    proof {
                        assert(first_window_in_row(st, sec, row as int, n0 as int, amount as int)
                            == Some(n0 as int));
                        assert(first_window_from(st, sec, row as int, amount as int) == Some(
                            (row as int, n0 as int),
                        ));
                        assert(v@ =~= window_keys(sec, row as int, n0 as int, amount as int));
                    }
                    return Some(v);
                }
                proof {
                    assert(first_window_in_row(st, sec, row as int, n0 as int, amount as int)
                        == first_window_in_row(st, sec, row as int, n0 as int + 1, amount as int));
                }
                n0 += 1;
            }
            proof {
                assert(first_window_in_row(st, sec, row as int, n0 as int, amount as int)
                    is None);
                assert(first_window_from(st, sec, row as int, amount as int) == first_window_from(
                    st,
                    sec,
                    row as int + 1,
                    amount as int,
                ));
            }
            row += 1;
        }
        proof {
            assert(first_window_from(st, sec, row as int, amount as int) is None);
        }
        None
    }
}


/// How many full chunks of `amount` seats a pool of `len` free seats yields,
/// under a remaining budget of `budget` groupings.
pub open spec fn chunk_count(len: int, amount: int, budget: int) -> int
    decreases budget,
{
    if budget <= 0 || amount < 1 || len < amount {
        0
    } else {
        1 + chunk_count(len - amount, amount, budget - 1)
    }
}

/// The greedy partition of the free seats of `sec` (in ascending (row,
/// number) order) into chunks of exactly `amount`, up to `budget` chunks:
/// what this section contributes in the combination phase.
pub open spec fn sec_chunks(st: Seq<Seat>, sec: Section, amount: int, budget: int) -> Seq<
    Seq<SeatKey>,
> {
    Seq::new(
        chunk_count(free_count(st, sec) as int, amount, budget) as nat,
        |i: int| sec_frees(st, sec).subrange(i * amount, (i + 1) * amount),
    )
}

/// The chunk groupings of the combination phase: each section of `secs`, in
/// order, contributes its chunks until `budget` groupings are found.
pub open spec fn combine_pass(
    st: Seq<Seat>,
    secs: Seq<Section>,
    amount: int,
    budget: int,
) -> Seq<Seq<SeatKey>>
    decreases secs.len(),
{
    if secs.len() == 0 || budget <= 0 {
        Seq::empty()
    } else {
        let c = sec_chunks(st, secs[0], amount, budget);
        c + combine_pass(st, secs.drop_first(), amount, budget - c.len())
    }
}

/// Basic bounds of `chunk_count`: never negative, never over the budget, and
/// the chunks it promises fit in the pool.
pub proof fn lemma_chunk_count_bounds(len: int, amount: int, budget: int)
    ensures
        0 <= chunk_count(len, amount, budget),
        budget >= 0 ==> chunk_count(len, amount, budget) <= budget,
        amount >= 1 ==> chunk_count(len, amount, budget) * amount <= if len >= 0 {
            len
        } else {
            0
        },
    decreases budget,
{
    if budget <= 0 || amount < 1 || len < amount {
    } else {
        lemma_chunk_count_bounds(len - amount, amount, budget - 1);
        let c = chunk_count(len - amount, amount, budget - 1);
        assert((1 + c) * amount == amount + c * amount) by (nonlinear_arith);
    }
}

/// The views of a vector of key vectors.
pub open spec fn views_of(q: Seq<Vec<SeatKey>>) -> Seq<Seq<SeatKey>> {
    q.map_values(|v: Vec<SeatKey>| v@)
}

impl SeatStore {
    /// The chunk groupings of section `sec`: its free seats in ascending
    /// (row, number) order, greedily cut into groups of exactly `amount`,
    /// at most `budget` of them.
    pub fn take_chunks(&self, sec: Section, amount: u32, budget: usize) -> (r: Vec<Vec<SeatKey>>)
        requires
            self.wf(),
            amount >= 1,
            budget <= 3,
        ensures
            views_of(r@) == sec_chunks(self@, sec, amount as int, budget as int),
    {
        let ghost st = self@;
        let frees = self.collect_free(sec);
        let ghost total = free_count(st, sec) as int;
        let mut out: Vec<Vec<SeatKey>> = Vec::new();
        if (frees.len() as u64) < (amount as u64) {
            proof {
                assert(sec_chunks(st, sec, amount as int, budget as int) =~= views_of(out@));
            }
            return out;
        }
        let a = amount as usize;
        let mut start: usize = 0;
        proof {
            assert(out@.len() == 0);
            assert(out@.len() * a == 0) by (nonlinear_arith)
                requires
                    out@.len() == 0,
            ;
        }
        while out.len() < budget && frees.len() - start >= a
            invariant
                a == amount,
                a >= 1,
                budget <= 3,
                frees@ == sec_frees(st, sec),
                total == free_count(st, sec) as int,
                start == out@.len() * a,
                start <= frees@.len(),
                out@.len() <= budget,
                chunk_count(total, a as int, budget as int) == out@.len() + chunk_count(
                    frees@.len() - start,
                    a as int,
                    budget - out@.len(),
                ),
                forall|i: int|
                    0 <= i < out@.len() ==> #[trigger] views_of(out@)[i] == sec_frees(
                        st,
                        sec,
                    ).subrange(i * a, (i + 1) * a),
            decreases budget - out@.len(),
        {
            let mut chunk: Vec<SeatKey> = Vec::new();
            let end = start + a;
            let mut j: usize = start;
            while j < end
                invariant
                    start <= j <= end,
                    end == start + a,
                    end <= frees@.len(),
                    chunk@.len() == j - start,
                    forall|i: int| 0 <= i < chunk@.len() ==> chunk@[i] == frees@[start + i],
                decreases end - j,
            {
                chunk.push(frees[j]);
                j += 1;
            }
            let ghost prev = out@;
            out.push(chunk);
            start += a;
            proof {
                assert(chunk@ =~= sec_frees(st, sec).subrange(
                    prev.len() * a,
                    (prev.len() + 1) * a,
                )) by {
                    assert((prev.len() + 1) * a == prev.len() * a + a) by (nonlinear_arith);
                }
                assert(views_of(out@) =~= views_of(prev).push(chunk@));
                assert(start == out@.len() * a) by {
                    assert((prev.len() + 1) * a == prev.len() * a + a) by (nonlinear_arith);
                }
                assert forall|i: int| 0 <= i < out@.len() implies #[trigger] views_of(out@)[i]
                    == sec_frees(st, sec).subrange(i * a, (i + 1) * a) by {
                    if i < prev.len() {
                        assert(views_of(prev)[i] == sec_frees(st, sec).subrange(
                            i * a,
                            (i + 1) * a,
                        ));
                    }
                }
            }
        }
        proof {
            if out@.len() == budget {
                assert(chunk_count(frees@.len() - start, a as int, budget - out@.len()) == 0);
            } else {
                assert(frees@.len() - start < a);
                assert(chunk_count(frees@.len() - start, a as int, budget - out@.len()) == 0);
            }
            assert(views_of(out@) =~= sec_chunks(st, sec, amount as int, budget as int));
        }
        out
    }

    /// The same-row groupings of the first search phase over the sections of
    /// `secs`, in their order: each section's first free window of `amount`
    /// seats, until three groupings are found.
    pub fn row_window_pass(&self, secs: &Vec<Section>, amount: u32) -> (r: Vec<Vec<SeatKey>>)
        requires
            self.wf(),
        ensures
            views_of(r@) == same_row_pass(self@, secs@, amount as int, 3),
    {
        let ghost st = self@;
        let mut out: Vec<Vec<SeatKey>> = Vec::new();
        proof {
            assert(secs@.skip(0) =~= secs@);
            assert(views_of(out@) + same_row_pass(st, secs@.skip(0), amount as int, 3)
                =~= same_row_pass(st, secs@, amount as int, 3));
        }
        let mut si: usize = 0;
        while si < secs.len() && out.len() < 3
            invariant
                self.wf(),
                st == self@,
                si <= secs@.len(),
                out@.len() <= 3,
                same_row_pass(st, secs@, amount as int, 3) == views_of(out@) + same_row_pass(
                    st,
                    secs@.skip(si as int),
                    amount as int,
                    3 - out@.len(),
                ),
            decreases secs@.len() - si,
        {
            let sec = secs[si];
            proof {
                assert(secs@.skip(si as int)[0] == sec);
                assert(secs@.skip(si as int).drop_first() =~= secs@.skip(si as int + 1));
            }
            let ghost prev = out@;
            match self.find_row_window(sec, amount) {
                Some(v) => {
                    proof {
                        let (row, n0) = first_window(st, sec, amount as int)->Some_0;
                        assert(same_row_pass(st, secs@.skip(si as int), amount as int, 3 - prev.len())
                            == seq![window_keys(sec, row, n0, amount as int)] + same_row_pass(
                            st,
                            secs@.skip(si as int + 1),
                            amount as int,
                            3 - prev.len() - 1,
                        ));
                    }
                    out.push(v);
                    proof {
                        assert(views_of(out@) =~= views_of(prev).push(out@[prev.len() as int]@));
                        assert(views_of(out@) + same_row_pass(
                            st,
                            secs@.skip(si as int + 1),
                            amount as int,
                            3 - out@.len(),
                        ) =~= views_of(prev) + same_row_pass(
                            st,
                            secs@.skip(si as int),
                            amount as int,
                            3 - prev.len(),
                        ));
                    }
                },
                None => {
                    proof {
                        assert(same_row_pass(st, secs@.skip(si as int), amount as int, 3 - prev.len())
                            == same_row_pass(
                            st,
                            secs@.skip(si as int + 1),
                            amount as int,
                            3 - prev.len(),
                        ));
                    }
                },
            }
            si += 1;
        }
        proof {
            if out@.len() == 3 {
                assert(same_row_pass(st, secs@.skip(si as int), amount as int, 0) =~= Seq::<
                    Seq<SeatKey>,
                >::empty());
            } else {
                assert(secs@.skip(si as int) =~= Seq::<Section>::empty());
            }
            assert(views_of(out@) =~= views_of(out@) + same_row_pass(
                st,
                secs@.skip(si as int),
                amount as int,
                3 - out@.len(),
            ));
        }
        out
    }

    /// The chunk groupings of the combination phase over the sections of
    /// `secs`, in their order, until three groupings are found.
    pub fn chunk_pass(&self, secs: &Vec<Section>, amount: u32) -> (r: Vec<Vec<SeatKey>>)
        requires
            self.wf(),
            amount >= 1,
        ensures
            views_of(r@) == combine_pass(self@, secs@, amount as int, 3),
    {
        let ghost st = self@;
        let mut out: Vec<Vec<SeatKey>> = Vec::new();
        proof {
            assert(secs@.skip(0) =~= secs@);
            assert(views_of(out@) + combine_pass(st, secs@.skip(0), amount as int, 3)
                =~= combine_pass(st, secs@, amount as int, 3));
        }
        let mut si: usize = 0;
        while si < secs.len() && out.len() < 3
            invariant
                self.wf(),
                st == self@,
                amount >= 1,
                si <= secs@.len(),
                out@.len() <= 3,
                combine_pass(st, secs@, amount as int, 3) == views_of(out@) + combine_pass(
                    st,
                    secs@.skip(si as int),
                    amount as int,
                    3 - out@.len(),
                ),
            decreases secs@.len() - si,
        {
            let sec = secs[si];
            proof {
                assert(secs@.skip(si as int)[0] == sec);
                assert(secs@.skip(si as int).drop_first() =~= secs@.skip(si as int + 1));
                lemma_chunk_count_bounds(free_count(st, sec) as int, amount as int, 3 - out@.len());
            }
            let ghost prev = out@;
            let mut part = self.take_chunks(sec, amount, 3 - out.len());
            let ghost partv = views_of(part@);
            out.append(&mut part);
            proof {
                assert(views_of(out@) =~= views_of(prev) + partv);
                assert(combine_pass(st, secs@.skip(si as int), amount as int, 3 - prev.len())
                    == partv + combine_pass(
                    st,
                    secs@.skip(si as int + 1),
                    amount as int,
                    3 - prev.len() - partv.len(),
                ));
                assert(views_of(out@) + combine_pass(
                    st,
                    secs@.skip(si as int + 1),
                    amount as int,
                    3 - out@.len(),
                ) =~= combine_pass(st, secs@, amount as int, 3));
            }
            si += 1;
        }
        proof {
            if out@.len() == 3 {
                assert(combine_pass(st, secs@.skip(si as int), amount as int, 0) =~= Seq::<
                    Seq<SeatKey>,
                >::empty());
            } else {
                assert(secs@.skip(si as int) =~= Seq::<Section>::empty());
            }
            assert(views_of(out@) =~= views_of(out@) + combine_pass(
                st,
                secs@.skip(si as int),
                amount as int,
                3 - out@.len(),
            ));
        }
        out
    }
}


/// A full-size grouping over free seats: exactly `amount` distinct, free,
/// valid keys.
pub open spec fn good_group(st: Seq<Seat>, g: Seq<SeatKey>, amount: int) -> bool {
    &&& g.len() == amount
    &&& g.no_duplicates()
    &&& forall|i: int| 0 <= i < g.len() ==> valid_key(#[trigger] g[i]) && free_at(st, g[i])
}

/// All keys of the grouping lie in section `sec`.
pub open spec fn group_in_sec(g: Seq<SeatKey>, sec: Section) -> bool {
    forall|i: int| 0 <= i < g.len() ==> (#[trigger] g[i]).section == sec
}

/// The grouping lies wholly in one of the sections of `secs`.
pub open spec fn group_in_some_sec(g: Seq<SeatKey>, secs: Seq<Section>) -> bool {
    exists|i: int| 0 <= i < secs.len() && group_in_sec(g, #[trigger] secs[i])
}

/// Whether a key occurs in a key vector.
fn contains_key(v: &Vec<SeatKey>, k: SeatKey) -> (r: bool)
    ensures
        r == v@.contains(k),
{
    let mut i: usize = 0;
    while i < v.len()
        invariant
            i <= v@.len(),
            forall|j: int| 0 <= j < i ==> v@[j] != k,
        decreases v@.len() - i,
    {
        if v[i] == k {
            return true;
        }
        i += 1;
    }
    false
}

impl SeatStore {
    /// The adjacent-row extension phase for one section: take the partial
    /// same-row runs of free seats, extend each seat with the free seat
    /// directly above and below at the same number, and concatenate runs,
    /// stopping as soon as `amount` seats are gathered. Yields a grouping only
    /// when the full `amount` is reached.
    pub fn extend_runs(&self, sec: Section, amount: u32) -> (r: Option<Vec<SeatKey>>)
        requires
            self.wf(),
            amount >= 1,
        ensures
            r matches Some(v) ==> good_group(self@, v@, amount as int) && group_in_sec(v@, sec),
    {
        let ghost st = self@;
        let rows = rows_of(sec);
        let spr = seats_per_row(sec);
        // Gather the maximal same-row runs of free seats, in scan order.
        let mut runs: Vec<Vec<SeatKey>> = Vec::new();
        let mut row: u32 = 1;
        while row <= rows
            invariant
                self.wf(),
                st == self@,
                1 <= row <= rows + 1,
                rows == spec_rows_of(sec),
                spr == spec_seats_per_row(sec),
                forall|a: int, b: int|
                    0 <= a < runs@.len() && 0 <= b < runs@[a]@.len() ==> {
                        let k = #[trigger] runs@[a]@[b];
                        valid_key(k) && free_at(st, k) && k.section == sec
                    },
            decreases rows + 1 - row,
        {
            let mut cur: Vec<SeatKey> = Vec::new();
            let mut n: u32 = 1;
            while n <= spr
                invariant
                    self.wf(),
                    st == self@,
                    1 <= row <= rows,
                    1 <= n <= spr + 1,
                    rows == spec_rows_of(sec),
                    spr == spec_seats_per_row(sec),
                    forall|a: int, b: int|
                        0 <= a < runs@.len() && 0 <= b < runs@[a]@.len() ==> {
                            let k = #[trigger] runs@[a]@[b];
                            valid_key(k) && free_at(st, k) && k.section == sec
                        },
                    forall|b: int|
                        0 <= b < cur@.len() ==> {
                            let k = #[trigger] cur@[b];
                            valid_key(k) && free_at(st, k) && k.section == sec
                        },
                decreases spr + 1 - n,
            {
                let key = SeatKey { section: sec, row, number: n };
                if self.is_free(key) {
                    cur.push(key);
                } else {
                    if cur.len() > 0 {
                        runs.push(cur);
                        cur = Vec::new();
                    }
                }
                n += 1;
            }
            if cur.len() > 0 {
                runs.push(cur);
            }
            row += 1;
        }
        // Extend the runs with vertical neighbours and concatenate them.
        let mut picked: Vec<SeatKey> = Vec::new();
        let mut ri: usize = 0;
        while ri < runs.len() && picked.len() < amount as usize
            invariant
                self.wf(),
                st == self@,
                rows == spec_rows_of(sec),
                ri <= runs@.len(),
                picked@.len() <= amount,
                picked@.no_duplicates(),
                forall|b: int|
                    0 <= b < picked@.len() ==> {
                        let k = #[trigger] picked@[b];
                        valid_key(k) && free_at(st, k) && k.section == sec
                    },
                forall|a: int, b: int|
                    0 <= a < runs@.len() && 0 <= b < runs@[a]@.len() ==> {
                        let k = #[trigger] runs@[a]@[b];
                        valid_key(k) && free_at(st, k) && k.section == sec
                    },
            decreases runs@.len() - ri,
        {
            let run = &runs[ri];
            let mut ki: usize = 0;
            while ki < run.len() && picked.len() < amount as usize
                invariant
                    self.wf(),
                    st == self@,
                    rows == spec_rows_of(sec),
                    ri < runs@.len(),
                    run@ == runs@[ri as int]@,
                    ki <= run@.len(),
                    picked@.len() <= amount,
                    picked@.no_duplicates(),
                    forall|b: int|
                        0 <= b < picked@.len() ==> {
                            let k = #[trigger] picked@[b];
                            valid_key(k) && free_at(st, k) && k.section == sec
                        },
                    forall|a: int, b: int|
                        0 <= a < runs@.len() && 0 <= b < runs@[a]@.len() ==> {
                            let k = #[trigger] runs@[a]@[b];
                            valid_key(k) && free_at(st, k) && k.section == sec
                        },
                decreases run@.len() - ki,
            {
                let key = run[ki];
                proof {
                    assert(runs@[ri as int]@[ki as int] == key);
                }
                if !contains_key(&picked, key) {
                    picked.push(key);
                }
                if picked.len() < amount as usize && key.row < rows {
                    let up = SeatKey { section: sec, row: key.row + 1, number: key.number };
                    if self.is_free(up) && !contains_key(&picked, up) {
                        picked.push(up);
                    }
                }
                if picked.len() < amount as usize && key.row > 1 {
                    let down = SeatKey { section: sec, row: key.row - 1, number: key.number };
                    if self.is_free(down) && !contains_key(&picked, down) {
                        picked.push(down);
                    }
                }
                ki += 1;
            }
            ri += 1;
        }
        if picked.len() == amount as usize {
            Some(picked)
        } else {
            None
        }
    }

    /// The whole-section sweep for one section: the first `amount` free seats
    /// in ascending (row, number) order, if the section has that many.
    pub fn sweep_section(&self, sec: Section, amount: u32) -> (r: Option<Vec<SeatKey>>)
        requires
            self.wf(),
            amount >= 1,
        ensures
            r is Some <==> free_count(self@, sec) >= amount,
            r matches Some(v) ==> {
                &&& v@ == sec_frees(self@, sec).take(amount as int)
                &&& good_group(self@, v@, amount as int)
                &&& group_in_sec(v@, sec)
            },
    {
        let ghost st = self@;
        let frees = self.collect_free(sec);
        if frees.len() < amount as usize {
            return None;
        }
        let mut v: Vec<SeatKey> = Vec::new();
        let mut i: usize = 0;
        while i < amount as usize
            invariant
                i <= amount,
                amount <= frees@.len(),
                frees@ == sec_frees(st, sec),
                v@.len() == i,
                forall|j: int| 0 <= j < i ==> v@[j] == frees@[j],
            decreases amount - i,
        {
            v.push(frees[i]);
            i += 1;
        }
        proof {
            assert(v@ =~= sec_frees(st, sec).take(amount as int));
            crate::store::lemma_sec_frees(st, sec, 1);
            crate::store::lemma_sorted_no_dup(sec_frees(st, sec));
            let q = sec_frees(st, sec);
            assert forall|a: int, b: int|
                0 <= a < v@.len() && 0 <= b < v@.len() && a != b implies v@[a] != v@[b] by {
                assert(v@[a] == q[a] && v@[b] == q[b]);
            }
            assert forall|a: int| 0 <= a < v@.len() implies valid_key(#[trigger] v@[a]) && free_at(
                st,
                v@[a],
            ) && v@[a].section == sec by {
                assert(q.contains(q[a]));
            }
        }
        Some(v)
    }

    /// One pass of a per-section phase over the sections of `secs`, in their
    /// order, collecting at most three groupings; used for the adjacent-row
    /// extension and whole-section sweep phases, whose groupings are full-size
    /// groupings of free seats, one section each.
    fn fallback_pass(&self, secs: &Vec<Section>, amount: u32, use_sweep: bool) -> (r: Vec<
        Vec<SeatKey>,
    >)
        requires
            self.wf(),
            amount >= 1,
            secs@.no_duplicates(),
        ensures
            r@.len() <= 3,
            forall|j: int|
                0 <= j < r@.len() ==> good_group(self@, (#[trigger] r@[j])@, amount as int),
            forall|j: int|
                0 <= j < r@.len() ==> group_in_some_sec((#[trigger] r@[j])@, secs@),
            forall|j1: int, j2: int, a: int, b: int|
                0 <= j1 < j2 < r@.len() && 0 <= a < r@[j1]@.len() && 0 <= b < r@[j2]@.len()
                    ==> (#[trigger] r@[j1]@[a]) != (#[trigger] r@[j2]@[b]),
    {
        let ghost st = self@;
        let mut out: Vec<Vec<SeatKey>> = Vec::new();
        let ghost mut osecs: Seq<int> = Seq::empty();
        let mut si: usize = 0;
        while si < secs.len() && out.len() < 3
            invariant
                self.wf(),
                st == self@,
                amount >= 1,
                secs@.no_duplicates(),
                si <= secs@.len(),
                out@.len() <= 3,
                osecs.len() == out@.len(),
                forall|j: int| 0 <= j < osecs.len() ==> 0 <= #[trigger] osecs[j] < si,
                forall|j1: int, j2: int| 0 <= j1 < j2 < osecs.len() ==> osecs[j1] != osecs[j2],
                forall|j: int|
                    0 <= j < out@.len() ==> good_group(st, (#[trigger] out@[j])@, amount as int)
                        && group_in_sec(out@[j]@, secs@[osecs[j]]),
            decreases secs@.len() - si,
        {
            let sec = secs[si];
            let found = if use_sweep {
                self.sweep_section(sec, amount)
            } else {
                self.extend_runs(sec, amount)
            };
            if let Some(v) = found {
                out.push(v);
                proof {
                    osecs = osecs.push(si as int);
                }
            }
            si += 1;
        }
        proof {
            assert forall|j: int| 0 <= j < out@.len() implies group_in_some_sec(
                (#[trigger] out@[j])@,
                secs@,
            ) by {
                let w = osecs[j];
                assert(0 <= w < secs@.len() && group_in_sec(out@[j]@, secs@[w]));
            }
            assert forall|j1: int, j2: int, a: int, b: int|
                0 <= j1 < j2 < out@.len() && 0 <= a < out@[j1]@.len() && 0 <= b
                    < out@[j2]@.len() implies (#[trigger] out@[j1]@[a]) != (#[trigger] out@[j2]@[b])
                by {
                let s1 = secs@[osecs[j1]];
                let s2 = secs@[osecs[j2]];
                assert(osecs[j1] != osecs[j2]);
                assert(s1 != s2);
                assert(out@[j1]@[a].section == s1);
                assert(out@[j2]@[b].section == s2);
            }
        }
        out
    }
}


/// The groupings share no seat: any two distinct groupings are key-disjoint.
pub open spec fn groups_disjoint(gs: Seq<Seq<SeatKey>>) -> bool {
    forall|j1: int, j2: int, a: int, b: int|
        #![trigger gs[j1][a], gs[j2][b]]
        0 <= j1 < j2 < gs.len() && 0 <= a < gs[j1].len() && 0 <= b < gs[j2].len() ==> gs[j1][a]
            != gs[j2][b]
}

/// Peeling one section off `any_window`.
proof fn lemma_any_window_shift(st: Seq<Seat>, secs: Seq<Section>, amount: int)
    requires
        secs.len() > 0,
    ensures
        any_window(st, secs, amount) == (first_window(st, secs[0], amount) is Some || any_window(
            st,
            secs.drop_first(),
            amount,
        )),
{
    let rest = secs.drop_first();
    if any_window(st, secs, amount) {
        let i = choose|i: int|
            0 <= i < secs.len() && first_window(st, #[trigger] secs[i], amount) is Some;
        if i > 0 {
            assert(rest[i - 1] == secs[i]);
            assert(any_window(st, rest, amount));
        }
    }
    if any_window(st, rest, amount) {
        let i = choose|i: int|
            0 <= i < rest.len() && first_window(st, #[trigger] rest[i], amount) is Some;
        assert(secs[i + 1] == rest[i]);
        assert(any_window(st, secs, amount));
    }
    if first_window(st, secs[0], amount) is Some {
        assert(any_window(st, secs, amount));
    }
}

/// Peeling one section off `any_satisfiable`.
proof fn lemma_any_satisfiable_shift(st: Seq<Seat>, secs: Seq<Section>, amount: int)
    requires
        secs.len() > 0,
    ensures
        any_satisfiable(st, secs, amount) == (free_count(st, secs[0]) >= amount || any_satisfiable(
            st,
            secs.drop_first(),
            amount,
        )),
{
    let rest = secs.drop_first();
    if any_satisfiable(st, secs, amount) {
        let i = choose|i: int|
            0 <= i < secs.len() && free_count(st, #[trigger] secs[i]) >= amount;
        if i > 0 {
            assert(rest[i - 1] == secs[i]);
            assert(any_satisfiable(st, rest, amount));
        }
    }
    if any_satisfiable(st, rest, amount) {
        let i = choose|i: int| 0 <= i < rest.len() && free_count(st, #[trigger] rest[i]) >= amount;
        assert(secs[i + 1] == rest[i]);
        assert(any_satisfiable(st, secs, amount));
    }
    if free_count(st, secs[0]) >= amount {
        assert(any_satisfiable(st, secs, amount));
    }
}

/// Both phase predicates depend only on which sections are listed, not on
/// their order.
pub proof fn lemma_phase_preds_perm(st: Seq<Seat>, a: Seq<Section>, b: Seq<Section>, amount: int)
    requires
        a.to_multiset() == b.to_multiset(),
    ensures
        any_window(st, a, amount) == any_window(st, b, amount),
        any_satisfiable(st, a, amount) == any_satisfiable(st, b, amount),
{
    a.to_multiset_ensures();
    b.to_multiset_ensures();
    assert forall|s: Section| a.contains(s) == b.contains(s) by {
        assert(a.contains(s) <==> a.to_multiset().count(s) > 0);
        assert(b.contains(s) <==> b.to_multiset().count(s) > 0);
    }
    if any_window(st, a, amount) {
        let i = choose|i: int|
            0 <= i < a.len() && first_window(st, #[trigger] a[i], amount) is Some;
        assert(a.contains(a[i]));
        let j = choose|j: int| 0 <= j < b.len() && b[j] == a[i];
        assert(any_window(st, b, amount));
    }
    if any_window(st, b, amount) {
        let i = choose|i: int|
            0 <= i < b.len() && first_window(st, #[trigger] b[i], amount) is Some;
        assert(b.contains(b[i]));
        let j = choose|j: int| 0 <= j < a.len() && a[j] == b[i];
        assert(any_window(st, a, amount));
    }
    if any_satisfiable(st, a, amount) {
        let i = choose|i: int| 0 <= i < a.len() && free_count(st, #[trigger] a[i]) >= amount;
        assert(a.contains(a[i]));
        let j = choose|j: int| 0 <= j < b.len() && b[j] == a[i];
        assert(any_satisfiable(st, b, amount));
    }
    if any_satisfiable(st, b, amount) {
        let i = choose|i: int| 0 <= i < b.len() && free_count(st, #[trigger] b[i]) >= amount;
        assert(b.contains(b[i]));
        let j = choose|j: int| 0 <= j < a.len() && a[j] == b[i];
        assert(any_satisfiable(st, a, amount));
    }
}

/// A same-row window implies the section has at least `amount` free seats.
pub proof fn lemma_window_implies_satisfiable(st: Seq<Seat>, sec: Section, amount: int)
    requires
        first_window(st, sec, amount) is Some,
    ensures
        free_count(st, sec) >= amount,
{
    lemma_first_window_from_is_window(st, sec, 1, amount);
    let (row, n0) = first_window(st, sec, amount)->Some_0;
    lemma_window_keys_good(st, sec, row, n0, amount);
    crate::store::lemma_distinct_free_le_count(st, sec, window_keys(sec, row, n0, amount));
}

/// What the same-row phase yields, over any duplicate-free section list: at
/// most `budget` groupings, every one a full-size grouping of free seats lying
/// wholly in one listed section, pairwise disjoint; at least one exactly when
/// some listed section has a window.
pub proof fn lemma_same_row_pass_good(st: Seq<Seat>, secs: Seq<Section>, amount: int, budget: int)
    requires
        secs.no_duplicates(),
    ensures
        ({
            let p = same_row_pass(st, secs, amount, budget);
            &&& budget >= 0 ==> p.len() <= budget
            &&& forall|j: int|
                0 <= j < p.len() ==> good_group(st, #[trigger] p[j], amount) && group_in_some_sec(
                    p[j],
                    secs,
                )
            &&& groups_disjoint(p)
            &&& (budget >= 1 && any_window(st, secs, amount)) ==> p.len() >= 1
            &&& !any_window(st, secs, amount) ==> p.len() == 0
        }),
    decreases secs.len(),
{
    let p = same_row_pass(st, secs, amount, budget);
    if secs.len() == 0 || budget <= 0 {
        if secs.len() == 0 {
            assert(!any_window(st, secs, amount));
        }
    } else {
        let rest = secs.drop_first();
        assert(rest.no_duplicates()) by {
            assert(forall|i: int| 0 <= i < rest.len() ==> rest[i] == secs[i + 1]);
        }
        lemma_any_window_shift(st, secs, amount);
        match first_window(st, secs[0], amount) {
            Some((row, n0)) => {
                lemma_same_row_pass_good(st, rest, amount, budget - 1);
                let tail = same_row_pass(st, rest, amount, budget - 1);
                lemma_first_window_from_is_window(st, secs[0], 1, amount);
                lemma_window_keys_good(st, secs[0], row, n0, amount);
                let wk = window_keys(secs[0], row, n0, amount);
                assert(p == seq![wk] + tail);
                assert(p[0] == wk);
                assert(forall|j: int| 0 <= j < tail.len() ==> p[j + 1] == #[trigger] tail[j]);
                assert(good_group(st, wk, amount));
                assert(group_in_sec(wk, secs[0]));
                assert(group_in_some_sec(wk, secs)) by {
                    assert(0 <= 0 < secs.len() && group_in_sec(wk, secs[0]));
                }
                assert forall|j: int| 0 <= j < p.len() implies good_group(st, #[trigger] p[j], amount)
                    && group_in_some_sec(p[j], secs) by {
                    if j > 0 {
                        assert(p[j] == tail[j - 1]);
                        assert(group_in_some_sec(tail[j - 1], rest));
                        let i = choose|i: int|
                            0 <= i < rest.len() && group_in_sec(tail[j - 1], #[trigger] rest[i]);
                        assert(secs[i + 1] == rest[i]);
                        assert(0 <= i + 1 < secs.len() && group_in_sec(p[j], secs[i + 1]));
                    }
                }
                assert forall|j1: int, j2: int, a: int, b: int|
                    #![trigger p[j1][a], p[j2][b]]
                    0 <= j1 < j2 < p.len() && 0 <= a < p[j1].len() && 0 <= b
                        < p[j2].len() implies p[j1][a] != p[j2][b] by {
                    if j1 == 0 {
                        assert(p[j2] == tail[j2 - 1]);
                        assert(group_in_some_sec(tail[j2 - 1], rest));
                        let i = choose|i: int|
                            0 <= i < rest.len() && group_in_sec(tail[j2 - 1], #[trigger] rest[i]);
                        assert(rest[i] == secs[i + 1]);
                        assert(rest[i] != secs[0]);
                        assert(p[j1][a].section == secs[0]);
                        assert(p[j2][b].section == rest[i]);
                    } else {
                        assert(p[j1] == tail[j1 - 1] && p[j2] == tail[j2 - 1]);
                        assert(tail[j1 - 1][a] != tail[j2 - 1][b]);
                    }
                }
            },
            None => {
                lemma_same_row_pass_good(st, rest, amount, budget);
                let tail = same_row_pass(st, rest, amount, budget);
                assert(p == tail);
                assert forall|j: int| 0 <= j < p.len() implies good_group(st, #[trigger] p[j], amount)
                    && group_in_some_sec(p[j], secs) by {
                    assert(group_in_some_sec(tail[j], rest));
                    let i = choose|i: int|
                        0 <= i < rest.len() && group_in_sec(tail[j], #[trigger] rest[i]);
                    assert(secs[i + 1] == rest[i]);
                    assert(0 <= i + 1 < secs.len() && group_in_sec(p[j], secs[i + 1]));
                }
            },
        }
    }
}

/// What the combination phase yields, over any duplicate-free section list: at
/// most `budget` groupings, every one a full-size grouping of free seats lying
/// wholly in one listed section, pairwise disjoint; at least one exactly when
/// some listed section has `amount` free seats.
pub proof fn lemma_combine_pass_good(st: Seq<Seat>, secs: Seq<Section>, amount: int, budget: int)
    requires
        secs.no_duplicates(),
        amount >= 1,
    ensures
        ({
            let p = combine_pass(st, secs, amount, budget);
            &&& budget >= 0 ==> p.len() <= budget
            &&& forall|j: int|
                0 <= j < p.len() ==> good_group(st, #[trigger] p[j], amount) && group_in_some_sec(
                    p[j],
                    secs,
                )
            &&& groups_disjoint(p)
            &&& (budget >= 1 && any_satisfiable(st, secs, amount)) ==> p.len() >= 1
            &&& !any_satisfiable(st, secs, amount) ==> p.len() == 0
        }),
    decreases secs.len(),
{
    let p = combine_pass(st, secs, amount, budget);
    if secs.len() == 0 || budget <= 0 {
        if secs.len() == 0 {
            assert(!any_satisfiable(st, secs, amount));
        }
    } else {
        let sec = secs[0];
        let rest = secs.drop_first();
        assert(rest.no_duplicates()) by {
            assert(forall|i: int| 0 <= i < rest.len() ==> rest[i] == secs[i + 1]);
        }
        lemma_any_satisfiable_shift(st, secs, amount);
        let q = sec_frees(st, sec);
        let len = free_count(st, sec) as int;
        let cc = chunk_count(len, amount, budget);
        let c = sec_chunks(st, sec, amount, budget);
        lemma_chunk_count_bounds(len, amount, budget);
        crate::store::lemma_sec_frees(st, sec, 1);
        crate::store::lemma_sorted_no_dup(q);
        lemma_combine_pass_good(st, rest, amount, budget - cc);
        let tail = combine_pass(st, rest, amount, budget - cc);
        assert(p == c + tail);
        assert(c.len() == cc);
        // Each chunk is a full-size, duplicate-free grouping of free seats of `sec`.
        assert forall|i: int| 0 <= i < cc implies good_group(st, #[trigger] c[i], amount)
            && group_in_sec(c[i], sec) by {
            assert((i + 1) * amount <= cc * amount) by (nonlinear_arith)
                requires
                    i + 1 <= cc,
                    amount >= 1,
            ;
            assert(0 <= i * amount) by (nonlinear_arith)
                requires
                    0 <= i,
                    amount >= 1,
            ;
            assert((i + 1) * amount == i * amount + amount) by (nonlinear_arith);
            assert(c[i] == q.subrange(i * amount, (i + 1) * amount));
            assert(c[i].len() == amount);
            assert forall|x: int| 0 <= x < c[i].len() implies valid_key(#[trigger] c[i][x])
                && free_at(st, c[i][x]) && c[i][x].section == sec by {
                assert(c[i][x] == q[i * amount + x]);
                assert(q.contains(q[i * amount + x]));
            }
            assert forall|x: int, y: int|
                0 <= x < c[i].len() && 0 <= y < c[i].len() && x != y implies c[i][x] != c[i][y] by {
                assert(c[i][x] == q[i * amount + x] && c[i][y] == q[i * amount + y]);
            }
        }
        // Chunks of one section are pairwise disjoint, and disjoint from the
        // groupings of later sections.
        assert forall|j1: int, j2: int, a: int, b: int|
            #![trigger p[j1][a], p[j2][b]]
            0 <= j1 < j2 < p.len() && 0 <= a < p[j1].len() && 0 <= b < p[j2].len() implies p[j1][a]
            != p[j2][b] by {
            if j2 < cc {
                assert(p[j1] == c[j1] && p[j2] == c[j2]);
                assert((j1 + 1) * amount <= j2 * amount) by (nonlinear_arith)
                    requires
                        j1 + 1 <= j2,
                        amount >= 1,
                ;
                assert((j1 + 1) * amount == j1 * amount + amount) by (nonlinear_arith);
                assert((j2 + 1) * amount <= cc * amount) by (nonlinear_arith)
                    requires
                        j2 + 1 <= cc,
                        amount >= 1,
                ;
                assert((j2 + 1) * amount == j2 * amount + amount) by (nonlinear_arith);
                assert(p[j1][a] == q[j1 * amount + a] && p[j2][b] == q[j2 * amount + b]);
                assert(j1 * amount + a < j2 * amount + b);
            } else if j1 >= cc {
                assert(p[j1] == tail[j1 - cc] && p[j2] == tail[j2 - cc]);
                assert(tail[j1 - cc][a] != tail[j2 - cc][b]);
            } else {
                // A chunk of `sec` against a grouping of a later section.
                assert(p[j1] == c[j1]);
                assert(p[j2] == tail[j2 - cc]);
                assert(group_in_some_sec(tail[j2 - cc], rest));
                let i = choose|i: int|
                    0 <= i < rest.len() && group_in_sec(tail[j2 - cc], #[trigger] rest[i]);
                assert(rest[i] == secs[i + 1]);
                assert(rest[i] != sec);
                assert(good_group(st, c[j1], amount) && group_in_sec(c[j1], sec));
                assert(p[j1][a].section == sec);
                assert(p[j2][b].section == rest[i]);
            }
        }
        assert forall|j: int| 0 <= j < p.len() implies good_group(st, #[trigger] p[j], amount)
            && group_in_some_sec(p[j], secs) by {
            if j < cc {
                assert(p[j] == c[j]);
                assert(0 <= 0 < secs.len() && group_in_sec(p[j], secs[0]));
            } else {
                assert(p[j] == tail[j - cc]);
                assert(group_in_some_sec(tail[j - cc], rest));
                let i = choose|i: int|
                    0 <= i < rest.len() && group_in_sec(tail[j - cc], #[trigger] rest[i]);
                assert(secs[i + 1] == rest[i]);
                assert(0 <= i + 1 < secs.len() && group_in_sec(p[j], secs[i + 1]));
            }
        }
        // Size accounting.
        if budget >= 1 && any_satisfiable(st, secs, amount) {
            if free_count(st, sec) >= amount {
                lemma_chunk_count_bounds(len - amount, amount, budget - 1);
                assert(cc == 1 + chunk_count(len - amount, amount, budget - 1));
                assert(cc >= 1);
            } else {
                assert(cc == 0);
                assert(p.len() == tail.len());
            }
        }
        if !any_satisfiable(st, secs, amount) {
            assert(free_count(st, sec) < amount);
            assert(cc == 0);
        }
    }
}


/// The section order of the same-row phase under a category scope: strictly
/// descending free-seat count, ties broken by ascending catalog position.
pub open spec fn sorted_by_free_desc(st: Seq<Seat>, q: Seq<Section>) -> bool {
    forall|i: int, j: int|
        #![trigger q[i], q[j]]
        0 <= i < j < q.len() ==> free_count(st, q[i]) > free_count(st, q[j]) || (free_count(st, q[i])
            == free_count(st, q[j]) && sec_idx(q[i]) < sec_idx(q[j]))
}

impl SeatStore {
    /// Reorders `secs` (given in ascending catalog order) by descending
    /// current free-seat count, ties keeping catalog order.
    pub fn order_by_free_desc(&self, secs: &Vec<Section>) -> (r: Vec<Section>)
        requires
            self.wf(),
            forall|i: int, j: int|
                #![trigger secs@[i], secs@[j]]
                0 <= i < j < secs@.len() ==> sec_idx(secs@[i]) < sec_idx(secs@[j]),
        ensures
            r@.to_multiset() == secs@.to_multiset(),
            r@.len() == secs@.len(),
            sorted_by_free_desc(self@, r@),
    {
        let ghost st = self@;
        let mut out: Vec<Section> = Vec::new();
        let mut si: usize = 0;
        proof {
            assert(secs@.take(0) =~= Seq::<Section>::empty());
            assert(out@.to_multiset() =~= secs@.take(0).to_multiset());
        }
        while si < secs.len()
            invariant
                self.wf(),
                st == self@,
                si <= secs@.len(),
                out@.len() == si,
                out@.to_multiset() == secs@.take(si as int).to_multiset(),
                sorted_by_free_desc(st, out@),
                forall|i: int, j: int|
                    #![trigger secs@[i], secs@[j]]
                    0 <= i < j < secs@.len() ==> sec_idx(secs@[i]) < sec_idx(secs@[j]),
                forall|j: int|
                    0 <= j < out@.len() ==> exists|i: int|
                        0 <= i < si && #[trigger] out@[j] == secs@[i],
            decreases secs@.len() - si,
        {
            let sec = secs[si];
            let cnt = self.count_free(sec);
            let mut pos: usize = 0;
            while pos < out.len() && self.count_free(out[pos]) >= cnt
                invariant
                    self.wf(),
                    st == self@,
                    pos <= out@.len(),
                    cnt == free_count(st, sec),
                    forall|j: int| 0 <= j < pos ==> free_count(st, #[trigger] out@[j]) >= cnt,
                decreases out@.len() - pos,
            {
                pos += 1;
            }
            let ghost prev = out@;
            out.insert(pos, sec);
            proof {
                vstd::seq_lib::to_multiset_insert(prev, pos as int, sec);
                assert(secs@.take(si as int + 1) =~= secs@.take(si as int).push(sec));
                secs@.take(si as int).to_multiset_ensures();
                assert(out@.to_multiset() =~= secs@.take(si as int + 1).to_multiset());
                assert forall|j: int| 0 <= j < out@.len() implies exists|i: int|
                    0 <= i < si + 1 && #[trigger] out@[j] == secs@[i] by {
                    if j < pos {
                        assert(out@[j] == prev[j]);
                        let w = choose|i: int| 0 <= i < si && prev[j] == #[trigger] secs@[i];
                        assert(0 <= w < si + 1 && out@[j] == secs@[w]);
                    } else if j == pos {
                        assert(0 <= si < si + 1 && out@[j] == secs@[si as int]);
                    } else {
                        assert(out@[j] == prev[j - 1]);
                        let w = choose|i: int| 0 <= i < si && prev[j - 1] == #[trigger] secs@[i];
                        assert(0 <= w < si + 1 && out@[j] == secs@[w]);
                    }
                }
                assert forall|i: int, j: int|
                    #![trigger out@[i], out@[j]]
                    0 <= i < j < out@.len() implies free_count(st, out@[i]) > free_count(st, out@[j])
                    || (free_count(st, out@[i]) == free_count(st, out@[j]) && sec_idx(out@[i])
                        < sec_idx(out@[j])) by {
                    if i < pos && j == pos {
                        // An element kept left of the insertion point: its
                        // count is at least `cnt`, and on a tie it came from
                        // an earlier catalog position.
                        assert(out@[i] == prev[i]);
                        assert(free_count(st, prev[i]) >= cnt);
                        if free_count(st, prev[i]) == cnt {
                            let w = choose|w: int| 0 <= w < si && prev[i] == #[trigger] secs@[w];
                            assert(sec_idx(secs@[w]) < sec_idx(secs@[si as int]));
                        }
                    } else if i == pos && j > pos {
                        // The element displaced rightwards had a strictly
                        // smaller count than `cnt`.
                        assert(out@[j] == prev[j - 1]);
                        if j == pos + 1 {
                            assert(free_count(st, prev[pos as int]) < cnt);
                        } else {
                            assert(free_count(st, prev[pos as int]) < cnt);
                            assert(free_count(st, prev[j - 1]) <= free_count(
                                st,
                                prev[pos as int],
                            ));
                        }
                    } else if i < pos && j > pos {
                        assert(out@[i] == prev[i] && out@[j] == prev[j - 1]);
                    } else if j < pos {
                        assert(out@[i] == prev[i] && out@[j] == prev[j]);
                    } else {
                        assert(i > pos);
                        assert(out@[i] == prev[i - 1] && out@[j] == prev[j - 1]);
                    }
                }
            }
            si += 1;
        }
        proof {
            assert(secs@.take(si as int) =~= secs@);
        }
        out
    }
}


/// The summed price of a key sequence: each seat contributes its section's
/// fixed price.
pub open spec fn price_sum(keys: Seq<SeatKey>) -> int
    decreases keys.len(),
{
    if keys.len() == 0 {
        0
    } else {
        price_sum(keys.drop_last()) + spec_price_of(keys.last().section)
    }
}

/// The price sum is bounded by 150 (the highest section price) per seat.
pub proof fn lemma_price_sum_bound(keys: Seq<SeatKey>)
    ensures
        0 <= price_sum(keys) <= keys.len() * 150,
    decreases keys.len(),
{
    if keys.len() > 0 {
        lemma_price_sum_bound(keys.drop_last());
        assert(spec_price_of(keys.last().section) <= 150);
    }
}

/// One candidate grouping offered to a client: the seat keys in rank order
/// and the summed price of its seats.
#[derive(Debug)]
pub struct Suggestion {
    pub seats: Vec<SeatKey>,
    pub total_price: u64,
}

/// Well-formedness of one suggestion against a store state: exactly `amount`
/// distinct free valid seats, priced correctly.
pub open spec fn sug_wf(st: Seq<Seat>, sug: Suggestion, amount: int) -> bool {
    &&& good_group(st, sug.seats@, amount)
    &&& sug.total_price == price_sum(sug.seats@)
}

/// The key groupings of a suggestion sequence.
pub open spec fn sug_groups(sugs: Seq<Suggestion>) -> Seq<Seq<SeatKey>> {
    sugs.map_values(|s: Suggestion| s.seats@)
}

/// Whether the scope holds enough free seats to satisfy the request at all:
/// for a section or a category (anywhere along its fallback chain), a single
/// section must hold `amount` free seats; for the whole venue the free seats
/// may span sections.
pub open spec fn scope_available(st: Seq<Seat>, scope: Scope, amount: int) -> bool {
    match scope {
        Scope::Sect(s) => free_count(st, s) >= amount,
        Scope::Cat(c) => exists|i: int|
            0 <= i < chain_of(c).len() && any_satisfiable(
                st,
                spec_sections(#[trigger] chain_of(c)[i]),
                amount,
            ),
        Scope::Anywhere => total_free(st) >= amount,
    }
}

/// The groupings a category stage yields once the sections are reordered by
/// descending free count: the same-row phase if any listed section has a
/// window, else the combination phase over declaration order.
pub open spec fn ordered_groups_ok(
    st: Seq<Seat>,
    secs: Seq<Section>,
    amount: int,
    groups: Seq<Seq<SeatKey>>,
) -> bool {
    exists|ord: Seq<Section>|
        #![trigger ord.to_multiset()]
        {
            &&& ord.to_multiset() == secs.to_multiset()
            &&& sorted_by_free_desc(st, ord)
            &&& if any_window(st, ord, amount) {
                groups == same_row_pass(st, ord, amount, 3)
            } else {
                groups == combine_pass(st, secs, amount, 3)
            }
        }
}

/// The category cascade: the first category of `cats` with a satisfiable
/// section is the one whose stage produced the groupings; categories before
/// it yield nothing, and an exhausted chain yields the empty answer.
pub open spec fn cat_groups_ok(
    st: Seq<Seat>,
    cats: Seq<Category>,
    amount: int,
    groups: Seq<Seq<SeatKey>>,
) -> bool
    decreases cats.len(),
{
    if cats.len() == 0 {
        groups.len() == 0
    } else {
        let secs = spec_sections(cats[0]);
        if any_satisfiable(st, secs, amount) {
            ordered_groups_ok(st, secs, amount, groups)
        } else {
            cat_groups_ok(st, cats.drop_first(), amount, groups)
        }
    }
}

/// What `suggest` returns, phase for phase, given the scope.
pub open spec fn suggest_exact(
    st: Seq<Seat>,
    amount: int,
    scope: Scope,
    groups: Seq<Seq<SeatKey>>,
) -> bool {
    match scope {
        Scope::Sect(s) => {
            if first_window(st, s, amount) is Some {
                groups == same_row_pass(st, seq![s], amount, 3)
            } else if free_count(st, s) >= amount {
                groups == combine_pass(st, seq![s], amount, 3)
            } else {
                groups.len() == 0
            }
        },
        Scope::Cat(c) => cat_groups_ok(st, chain_of(c), amount, groups),
        Scope::Anywhere => {
            let all = spec_all_sections();
            if any_window(st, all, amount) {
                groups == same_row_pass(st, all, amount, 3)
            } else if any_satisfiable(st, all, amount) {
                groups == combine_pass(st, all, amount, 3)
            } else if total_free(st) >= amount {
                groups == seq![all_frees(st).take(amount)]
            } else {
                groups.len() == 0
            }
        },
    }
}

/// Everything `suggest` promises of its answer: at most three suggestions,
/// each of exactly `amount` distinct free seats at the summed price, pairwise
/// disjoint, confined to the scope, at least one exactly when the scope can
/// satisfy the request, and phase for phase the answer of the first phase
/// that produces anything.
pub open spec fn suggest_post(
    st: Seq<Seat>,
    amount: int,
    scope: Scope,
    sugs: Seq<Suggestion>,
) -> bool {
    &&& sugs.len() <= 3
    &&& forall|j: int| 0 <= j < sugs.len() ==> sug_wf(st, #[trigger] sugs[j], amount)
    &&& groups_disjoint(sug_groups(sugs))
    &&& match scope {
        Scope::Sect(s) => forall|j: int|
            0 <= j < sugs.len() ==> group_in_sec((#[trigger] sugs[j]).seats@, s),
        Scope::Cat(c) => forall|j: int|
            0 <= j < sugs.len() ==> group_in_some_sec((#[trigger] sugs[j]).seats@, chain_sections(c)),
        Scope::Anywhere => true,
    }
    &&& (sugs.len() >= 1 <==> (amount >= 1 && scope_available(st, scope, amount)))
    &&& amount >= 1 ==> suggest_exact(st, amount, scope, sug_groups(sugs))
}

/// Builds the suggestions from the raw groupings, computing each summed price.
fn wrap_groups(groups: Vec<Vec<SeatKey>>, amount: u32) -> (r: Vec<Suggestion>)
    requires
        forall|j: int| 0 <= j < groups@.len() ==> (#[trigger] groups@[j])@.len() == amount,
    ensures
        r@.len() == groups@.len(),
        sug_groups(r@) == views_of(groups@),
        forall|j: int|
            0 <= j < r@.len() ==> (#[trigger] r@[j]).seats@ == groups@[j]@ && r@[j].total_price
                == price_sum(groups@[j]@),
{
    let mut out: Vec<Suggestion> = Vec::new();
    let mut gi: usize = 0;
    while gi < groups.len()
        invariant
            gi <= groups@.len(),
            out@.len() == gi,
            forall|j: int| 0 <= j < groups@.len() ==> (#[trigger] groups@[j])@.len() == amount,
            forall|j: int|
                0 <= j < gi ==> (#[trigger] out@[j]).seats@ == groups@[j]@ && out@[j].total_price
                    == price_sum(groups@[j]@),
        decreases groups@.len() - gi,
    {
        let g = &groups[gi];
        let mut seats: Vec<SeatKey> = Vec::new();
        let mut total: u64 = 0;
        let mut k: usize = 0;
        while k < g.len()
            invariant
                k <= g@.len(),
                g@.len() <= u32::MAX,
                seats@ == g@.take(k as int),
                total == price_sum(g@.take(k as int)),
                total <= 150 * k,
            decreases g@.len() - k,
        {
            let key = g[k];
            proof {
                lemma_price_sum_bound(g@.take(k as int));
                assert(spec_price_of(key.section) <= 150);
                assert(g@.take(k as int + 1).drop_last() =~= g@.take(k as int));
                assert(g@.take(k as int + 1).last() == key);
            }
            seats.push(key);
            total = total + price_of(key.section) as u64;
            k += 1;
        }
        proof {
            assert(g@.take(g@.len() as int) =~= g@);
        }
        out.push(Suggestion { seats, total_price: total });
        gi += 1;
    }
    proof {
        assert(sug_groups(out@) =~= views_of(groups@));
    }
    out
}

/// Lifting a cascade answer over the unsatisfiable prefix of the chain.
proof fn lemma_cat_groups_skip(
    st: Seq<Seat>,
    cats: Seq<Category>,
    amount: int,
    groups: Seq<Seq<SeatKey>>,
    i: int,
)
    requires
        0 <= i <= cats.len(),
        forall|k: int|
            0 <= k < i ==> !any_satisfiable(st, spec_sections(#[trigger] cats[k]), amount),
        cat_groups_ok(st, cats.skip(i), amount, groups),
    ensures
        cat_groups_ok(st, cats, amount, groups),
    decreases i,
{
    if i > 0 {
        let rest = cats.drop_first();
        assert(!any_satisfiable(st, spec_sections(cats[0]), amount));
        assert forall|k: int|
            0 <= k < i - 1 implies !any_satisfiable(
                st,
                spec_sections(#[trigger] rest[k]),
                amount,
            ) by {
            assert(rest[k] == cats[k + 1]);
        }
        assert(rest.skip(i - 1) =~= cats.skip(i));
        lemma_cat_groups_skip(st, rest, amount, groups, i - 1);
    } else {
        assert(cats.skip(0) =~= cats);
    }
}

/// Confining groupings from one chained category's sections to the whole
/// chain's section list.
proof fn lemma_groups_in_chain(
    groups: Seq<Seq<SeatKey>>,
    secs: Seq<Section>,
    c: Category,
    d: Category,
)
    requires
        secs == spec_sections(d),
        chain_of(c).contains(d),
        forall|j: int| 0 <= j < groups.len() ==> group_in_some_sec(#[trigger] groups[j], secs),
    ensures
        forall|j: int|
            0 <= j < groups.len() ==> group_in_some_sec(#[trigger] groups[j], chain_sections(c)),
{
    assert forall|j: int| 0 <= j < groups.len() implies group_in_some_sec(
        #[trigger] groups[j],
        chain_sections(c),
    ) by {
        let i = choose|i: int| 0 <= i < secs.len() && group_in_sec(groups[j], #[trigger] secs[i]);
        crate::layout::lemma_section_in_chain(c, d, i);
        let x = secs[i];
        let w = choose|w: int| 0 <= w < chain_sections(c).len() && chain_sections(c)[w] == x;
        assert(0 <= w < chain_sections(c).len() && group_in_sec(groups[j], chain_sections(c)[w]));
    }
}

impl SeatStore {
    /// Runs the per-section phases in order over one stage's sections: the
    /// same-row phase over `ordered` (the free-count ranking), then the
    /// combination phase, the adjacent-row extension and the whole-section
    /// sweep over `decl` (declaration order). The first phase that produces a
    /// grouping is exclusively what is returned.
    fn run_phase_passes(&self, ordered: &Vec<Section>, decl: &Vec<Section>, amount: u32) -> (r: Vec<
        Vec<SeatKey>,
    >)
        requires
            self.wf(),
            amount >= 1,
            ordered@.to_multiset() == decl@.to_multiset(),
            ordered@.no_duplicates(),
            decl@.no_duplicates(),
        ensures
            views_of(r@) == if any_window(self@, ordered@, amount as int) {
                same_row_pass(self@, ordered@, amount as int, 3)
            } else if any_satisfiable(self@, decl@, amount as int) {
                combine_pass(self@, decl@, amount as int, 3)
            } else {
                Seq::<Seq<SeatKey>>::empty()
            },
    {
        let ghost st = self@;
        let rows_found = self.row_window_pass(ordered, amount);
        proof {
            lemma_same_row_pass_good(st, ordered@, amount as int, 3);
        }
        if rows_found.len() > 0 {
            proof {
                assert(any_window(st, ordered@, amount as int));
            }
            return rows_found;
        }
        proof {
            assert(!any_window(st, ordered@, amount as int)) by {
                if any_window(st, ordered@, amount as int) {
                    assert(same_row_pass(st, ordered@, amount as int, 3).len() >= 1);
                    assert(views_of(rows_found@).len() == 0);
                }
            }
        }
        let chunks_found = self.chunk_pass(decl, amount);
        proof {
            lemma_combine_pass_good(st, decl@, amount as int, 3);
        }
        if chunks_found.len() > 0 {
            proof {
                assert(any_satisfiable(st, decl@, amount as int));
            }
            return chunks_found;
        }
        proof {
            assert(!any_satisfiable(st, decl@, amount as int)) by {
                if any_satisfiable(st, decl@, amount as int) {
                    assert(combine_pass(st, decl@, amount as int, 3).len() >= 1);
                    assert(views_of(chunks_found@).len() == 0);
                }
            }
        }
        let extended_found = self.fallback_pass(decl, amount, false);
        proof {
            assert(extended_found@.len() == 0) by {
                if extended_found@.len() > 0 {
                    assert(good_group(st, extended_found@[0]@, amount as int));
                    assert(group_in_some_sec(extended_found@[0]@, decl@));
                    let i = choose|i: int|
                        0 <= i < decl@.len() && group_in_sec(extended_found@[0]@, #[trigger] decl@[i]);
                    crate::store::lemma_distinct_free_le_count(st, decl@[i], extended_found@[0]@);
                }
            }
        }
        if extended_found.len() > 0 {
            return extended_found;
        }
        let swept_found = self.fallback_pass(decl, amount, true);
        proof {
            assert(swept_found@.len() == 0) by {
                if swept_found@.len() > 0 {
                    assert(good_group(st, swept_found@[0]@, amount as int));
                    assert(group_in_some_sec(swept_found@[0]@, decl@));
                    let i = choose|i: int|
                        0 <= i < decl@.len() && group_in_sec(swept_found@[0]@, #[trigger] decl@[i]);
                    crate::store::lemma_distinct_free_le_count(st, decl@[i], swept_found@[0]@);
                }
            }
            assert(views_of(swept_found@) =~= Seq::<Seq<SeatKey>>::empty());
        }
        swept_found
    }
}

/// The sections of a category are listed in ascending catalog order, without
/// duplicates; so is the full catalog.
proof fn lemma_section_lists_ascending()
    ensures
        forall|c: Category, i: int, j: int|
            0 <= i < j < spec_sections(c).len() ==> sec_idx(#[trigger] spec_sections(c)[i])
                < sec_idx(#[trigger] spec_sections(c)[j]),
        forall|i: int, j: int|
            0 <= i < j < spec_all_sections().len() ==> sec_idx(#[trigger] spec_all_sections()[i])
                < sec_idx(#[trigger] spec_all_sections()[j]),
{
    assert forall|c: Category, i: int, j: int|
        0 <= i < j < spec_sections(c).len() implies sec_idx(#[trigger] spec_sections(c)[i])
        < sec_idx(#[trigger] spec_sections(c)[j]) by {
        match c {
            Category::VIP => {},
            Category::Business => {},
            Category::Economy => {},
        }
    }
}

/// Strictly ascending catalog order has no duplicates.
proof fn lemma_ascending_no_dup(q: Seq<Section>)
    requires
        forall|i: int, j: int|
            0 <= i < j < q.len() ==> sec_idx(#[trigger] q[i]) < sec_idx(#[trigger] q[j]),
    ensures
        q.no_duplicates(),
{
    assert forall|i: int, j: int|
        0 <= i < q.len() && 0 <= j < q.len() && i != j implies q[i] != q[j] by {
        if i < j {
            assert(sec_idx(q[i]) < sec_idx(q[j]));
        } else {
            assert(sec_idx(q[j]) < sec_idx(q[i]));
        }
    }
}

/// The one-section scope: phases over the single section, in order.
fn suggest_sect(store: &SeatStore, amount: u32, s: Section) -> (r: Vec<Suggestion>)
    requires
        store.wf(),
        amount >= 1,
    ensures
        suggest_post(store@, amount as int, Scope::Sect(s), r@),
{
    let ghost st = store@;
    let mut single: Vec<Section> = Vec::new();
    single.push(s);
    proof {
        assert(single@ =~= seq![s]);
        assert(single@.no_duplicates());
    }
    let groups = store.run_phase_passes(&single, &single, amount);
    proof {
        lemma_same_row_pass_good(st, single@, amount as int, 3);
        lemma_combine_pass_good(st, single@, amount as int, 3);
        assert(any_window(st, single@, amount as int) == (first_window(st, s, amount as int)
            is Some)) by {
            if first_window(st, s, amount as int) is Some {
                assert(first_window(st, #[trigger] single@[0], amount as int) is Some);
            }
        }
        assert(any_satisfiable(st, single@, amount as int) == (free_count(st, s) >= amount)) by {
            if free_count(st, s) >= amount {
                assert(free_count(st, #[trigger] single@[0]) >= amount);
            }
        }
        if any_window(st, single@, amount as int) {
            lemma_window_implies_satisfiable(st, s, amount as int);
        }
        assert(views_of(groups@).len() == groups@.len());
        assert forall|j: int| 0 <= j < groups@.len() implies good_group(
            st,
            views_of(groups@)[j],
            amount as int,
        ) && views_of(groups@)[j] == (#[trigger] groups@[j])@ && groups@[j]@.len() == amount by {
            assert(views_of(groups@)[j] == groups@[j]@);
            if any_window(st, single@, amount as int) {
                assert(good_group(st, same_row_pass(st, single@, amount as int, 3)[j], amount as int));
            } else if any_satisfiable(st, single@, amount as int) {
                assert(good_group(st, combine_pass(st, single@, amount as int, 3)[j], amount as int));
            } else {
                assert(views_of(groups@).len() == 0);
            }
        }
    }
    let r = wrap_groups(groups, amount);
    proof {
        let gv = views_of(groups@);
        assert(sug_groups(r@) =~= gv);
        assert forall|j: int| 0 <= j < r@.len() implies sug_wf(st, #[trigger] r@[j], amount as int) by {
            assert(r@[j].seats@ == groups@[j]@);
            assert(gv[j] == groups@[j]@);
            assert(good_group(st, gv[j], amount as int));
        }
        assert(groups_disjoint(sug_groups(r@))) by {
            if any_window(st, single@, amount as int) {
                assert(groups_disjoint(same_row_pass(st, single@, amount as int, 3)));
            } else if any_satisfiable(st, single@, amount as int) {
                assert(groups_disjoint(combine_pass(st, single@, amount as int, 3)));
            } else {
                assert(gv.len() == 0);
            }
        }
        assert(r@.len() >= 1 <==> (free_count(st, s) >= amount as int)) by {
            if free_count(st, s) >= amount as int {
                if any_window(st, single@, amount as int) {
                    assert(same_row_pass(st, single@, amount as int, 3).len() >= 1);
                } else {
                    assert(combine_pass(st, single@, amount as int, 3).len() >= 1);
                }
            }
            if r@.len() >= 1 {
                if any_window(st, single@, amount as int) {
                } else if any_satisfiable(st, single@, amount as int) {
                } else {
                    assert(gv.len() == 0);
                }
            }
        }
        assert forall|j: int| 0 <= j < r@.len() implies group_in_sec(
            (#[trigger] r@[j]).seats@,
            s,
        ) by {
            assert(group_in_some_sec(sug_groups(r@)[j], single@));
            let i = choose|i: int|
                0 <= i < single@.len() && group_in_sec(sug_groups(r@)[j], #[trigger] single@[i]);
            assert(single@[i] == s);
        }
        assert(suggest_exact(st, amount as int, Scope::Sect(s), sug_groups(r@))) by {
            if first_window(st, s, amount as int) is Some {
                assert(sug_groups(r@) == same_row_pass(st, seq![s], amount as int, 3));
            } else if free_count(st, s) >= amount as int {
                assert(sug_groups(r@) == combine_pass(st, seq![s], amount as int, 3));
            } else {
                assert(sug_groups(r@).len() == 0);
            }
        }
    }
    r
}

/// One stage of the category cascade: the phases over one category's
/// sections, the same-row phase ranking them by free count.
fn suggest_cat_stage(store: &SeatStore, amount: u32, cat: Category) -> (r: Vec<Suggestion>)
    requires
        store.wf(),
        amount >= 1,
    ensures
        r@.len() >= 1 <==> any_satisfiable(store@, spec_sections(cat), amount as int),
        r@.len() >= 1 ==> ordered_groups_ok(store@, spec_sections(cat), amount as int, sug_groups(
            r@,
        )),
        r@.len() <= 3,
        forall|j: int| 0 <= j < r@.len() ==> sug_wf(store@, #[trigger] r@[j], amount as int),
        groups_disjoint(sug_groups(r@)),
        forall|j: int|
            0 <= j < r@.len() ==> group_in_some_sec((#[trigger] r@[j]).seats@, spec_sections(cat)),
{
    let ghost st = store@;
    let secs = cat.sections();
    proof {
        lemma_section_lists_ascending();
        assert(forall|i: int, j: int|
            0 <= i < j < secs@.len() ==> sec_idx(#[trigger] secs@[i]) < sec_idx(
                #[trigger] secs@[j],
            ));
        lemma_ascending_no_dup(secs@);
    }
    let ordered = store.order_by_free_desc(&secs);
    proof {
        assert(ordered@.no_duplicates()) by {
            if !ordered@.no_duplicates() {
                ordered@.lemma_multiset_has_no_duplicates_conv();
                secs@.lemma_multiset_has_no_duplicates();
            }
        }
    }
    let groups = store.run_phase_passes(&ordered, &secs, amount);
    proof {
        lemma_phase_preds_perm(st, ordered@, secs@, amount as int);
        lemma_same_row_pass_good(st, ordered@, amount as int, 3);
        lemma_combine_pass_good(st, secs@, amount as int, 3);
        if any_window(st, ordered@, amount as int) {
            let w = choose|i: int|
                0 <= i < ordered@.len() && first_window(
                    st,
                    #[trigger] ordered@[i],
                    amount as int,
                ) is Some;
            lemma_window_implies_satisfiable(st, ordered@[w], amount as int);
            assert(any_satisfiable(st, ordered@, amount as int));
        }
        assert(views_of(groups@).len() == groups@.len());
        assert forall|j: int| 0 <= j < groups@.len() implies good_group(
            st,
            views_of(groups@)[j],
            amount as int,
        ) && views_of(groups@)[j] == (#[trigger] groups@[j])@ && groups@[j]@.len() == amount by {
            assert(views_of(groups@)[j] == groups@[j]@);
            if any_window(st, ordered@, amount as int) {
                assert(good_group(st, same_row_pass(st, ordered@, amount as int, 3)[j], amount as int));
            } else if any_satisfiable(st, secs@, amount as int) {
                assert(good_group(st, combine_pass(st, secs@, amount as int, 3)[j], amount as int));
            } else {
                assert(views_of(groups@).len() == 0);
            }
        }
    }
    let r = wrap_groups(groups, amount);
    proof {
        let gv = views_of(groups@);
        assert(sug_groups(r@) =~= gv);
        let gs = sug_groups(r@);
        assert forall|j: int| 0 <= j < r@.len() implies sug_wf(st, #[trigger] r@[j], amount as int) by {
            assert(r@[j].seats@ == groups@[j]@);
            assert(gv[j] == groups@[j]@);
            assert(good_group(st, gv[j], amount as int));
        }
        assert(groups_disjoint(gs)) by {
            if any_window(st, ordered@, amount as int) {
                assert(groups_disjoint(same_row_pass(st, ordered@, amount as int, 3)));
            } else if any_satisfiable(st, secs@, amount as int) {
                assert(groups_disjoint(combine_pass(st, secs@, amount as int, 3)));
            } else {
                assert(gv.len() == 0);
            }
        }
        if r@.len() >= 1 {
            assert(any_satisfiable(st, secs@, amount as int)) by {
                if !any_satisfiable(st, secs@, amount as int) {
                    assert(gs.len() == 0);
                }
            }
            assert(ordered_groups_ok(st, secs@, amount as int, gs)) by {
                assert(ordered@.to_multiset() == secs@.to_multiset() && sorted_by_free_desc(
                    st,
                    ordered@,
                ));
            }
        }
        if any_satisfiable(st, secs@, amount as int) {
            if any_window(st, ordered@, amount as int) {
                assert(same_row_pass(st, ordered@, amount as int, 3).len() >= 1);
            } else {
                assert(combine_pass(st, secs@, amount as int, 3).len() >= 1);
            }
            assert(r@.len() >= 1);
        }
        // Scope containment over the category's own sections.
        assert forall|j: int| 0 <= j < r@.len() implies group_in_some_sec(
            (#[trigger] r@[j]).seats@,
            spec_sections(cat),
        ) by {
            assert(gs[j] == r@[j].seats@);
            if any_window(st, ordered@, amount as int) {
                assert(group_in_some_sec(gs[j], ordered@));
                let i = choose|i: int|
                    0 <= i < ordered@.len() && group_in_sec(gs[j], #[trigger] ordered@[i]);
                ordered@.to_multiset_ensures();
                secs@.to_multiset_ensures();
                assert(ordered@.contains(ordered@[i]));
                assert(ordered@.to_multiset().count(ordered@[i]) > 0);
                assert(secs@.to_multiset().count(ordered@[i]) > 0);
                assert(secs@.contains(ordered@[i]));
                let w = choose|w: int| 0 <= w < secs@.len() && secs@[w] == ordered@[i];
                assert(0 <= w < secs@.len() && group_in_sec(gs[j], secs@[w]));
            } else {
                assert(group_in_some_sec(gs[j], secs@));
            }
        }
    }
    r
}

/// The category scope: each category of the fallback chain in turn, until one
/// stage produces groupings.
fn suggest_cat(store: &SeatStore, amount: u32, c: Category) -> (r: Vec<Suggestion>)
    requires
        store.wf(),
        amount >= 1,
    ensures
        suggest_post(store@, amount as int, Scope::Cat(c), r@),
{
    let ghost st = store@;
    let cats = c.chain();
    let mut ci: usize = 0;
    while ci < cats.len()
        invariant
            store.wf(),
            st == store@,
            amount >= 1,
            cats@ == chain_of(c),
            ci <= cats@.len(),
            forall|k: int|
                0 <= k < ci ==> !any_satisfiable(
                    st,
                    spec_sections(#[trigger] cats@[k]),
                    amount as int,
                ),
        decreases cats@.len() - ci,
    {
        let cat = cats[ci];
        let r = suggest_cat_stage(store, amount, cat);
        if r.len() > 0 {
            proof {
                let gs = sug_groups(r@);
                assert(any_satisfiable(st, spec_sections(cat), amount as int));
                assert(cat_groups_ok(st, cats@.skip(ci as int), amount as int, gs)) by {
                    assert(cats@.skip(ci as int)[0] == cats@[ci as int]);
                }
                lemma_cat_groups_skip(st, cats@, amount as int, gs, ci as int);
                assert(chain_of(c).contains(cats@[ci as int]));
                lemma_groups_in_chain(gs, spec_sections(cat), c, cat);
                assert forall|j: int| 0 <= j < r@.len() implies group_in_some_sec(
                    (#[trigger] r@[j]).seats@,
                    chain_sections(c),
                ) by {
                    assert(gs[j] == r@[j].seats@);
                    assert(group_in_some_sec(gs[j], chain_sections(c)));
                }
                assert(scope_available(st, Scope::Cat(c), amount as int)) by {
                    assert(0 <= ci < chain_of(c).len() && any_satisfiable(
                        st,
                        spec_sections(#[trigger] chain_of(c)[ci as int]),
                        amount as int,
                    ));
                }
            }
            return r;
        }
        proof {
            assert(!any_satisfiable(st, spec_sections(cats@[ci as int]), amount as int));
        }
        ci += 1;
    }
    let r: Vec<Suggestion> = Vec::new();
    proof {
        assert(sug_groups(r@) =~= Seq::<Seq<SeatKey>>::empty());
        assert(cats@.skip(cats@.len() as int) =~= Seq::<Category>::empty());
        lemma_cat_groups_skip(st, cats@, amount as int, sug_groups(r@), cats@.len() as int);
        assert(!scope_available(st, Scope::Cat(c), amount as int)) by {
            if scope_available(st, Scope::Cat(c), amount as int) {
                let i = choose|i: int|
                    0 <= i < chain_of(c).len() && any_satisfiable(
                        st,
                        spec_sections(#[trigger] chain_of(c)[i]),
                        amount as int,
                    );
                assert(!any_satisfiable(st, spec_sections(cats@[i]), amount as int));
            }
        }
    }
    r
}

/// The whole-venue scope: the phases over every section in catalog order,
/// then the cross-section fallback over the first free seats anywhere.
fn suggest_anywhere(store: &SeatStore, amount: u32) -> (r: Vec<Suggestion>)
    requires
        store.wf(),
        amount >= 1,
    ensures
        suggest_post(store@, amount as int, Scope::Anywhere, r@),
{
    let ghost st = store@;
    let all = Section::all_sections();
    proof {
        lemma_section_lists_ascending();
        lemma_ascending_no_dup(all@);
    }
    let groups = store.run_phase_passes(&all, &all, amount);
    proof {
        lemma_same_row_pass_good(st, all@, amount as int, 3);
        lemma_combine_pass_good(st, all@, amount as int, 3);
    }
    if groups.len() > 0 {
        proof {
            let gv = views_of(groups@);
            assert(gv.len() == groups@.len());
            assert forall|j: int| 0 <= j < groups@.len() implies good_group(
                st,
                views_of(groups@)[j],
                amount as int,
            ) && views_of(groups@)[j] == (#[trigger] groups@[j])@ && groups@[j]@.len()
                == amount by {
                assert(gv[j] == groups@[j]@);
                if any_window(st, all@, amount as int) {
                    assert(gv == same_row_pass(st, all@, amount as int, 3));
                    assert(good_group(st, same_row_pass(st, all@, amount as int, 3)[j], amount as int));
                } else if any_satisfiable(st, all@, amount as int) {
                    assert(gv == combine_pass(st, all@, amount as int, 3));
                    assert(good_group(st, combine_pass(st, all@, amount as int, 3)[j], amount as int));
                } else {
                    assert(gv.len() == 0);
                }
            }
        }
        let r = wrap_groups(groups, amount);
        proof {
            let gv = views_of(groups@);
            assert(sug_groups(r@) =~= gv);
            assert forall|j: int| 0 <= j < r@.len() implies sug_wf(st, #[trigger] r@[j], amount as int)
                by {
                assert(r@[j].seats@ == groups@[j]@);
                assert(gv[j] == groups@[j]@);
                assert(good_group(st, gv[j], amount as int));
            }
            assert(groups_disjoint(sug_groups(r@))) by {
                if any_window(st, all@, amount as int) {
                    assert(groups_disjoint(same_row_pass(st, all@, amount as int, 3)));
                } else if any_satisfiable(st, all@, amount as int) {
                    assert(groups_disjoint(combine_pass(st, all@, amount as int, 3)));
                } else {
                    assert(gv.len() == 0);
                }
            }
            assert(total_free(st) >= amount) by {
                let gs = sug_groups(r@);
                assert(good_group(st, gs[0], amount as int));
                crate::store::lemma_distinct_free_le_total(st, gs[0]);
            }
            assert(suggest_exact(st, amount as int, Scope::Anywhere, sug_groups(r@))) by {
                if any_window(st, all@, amount as int) {
                    assert(sug_groups(r@) == same_row_pass(st, all@, amount as int, 3));
                } else if any_satisfiable(st, all@, amount as int) {
                    assert(sug_groups(r@) == combine_pass(st, all@, amount as int, 3));
                } else {
                    assert(gv.len() == 0);
                }
            }
        }
        return r;
    }
    proof {
        assert(views_of(groups@).len() == groups@.len());
        assert(!any_window(st, all@, amount as int)) by {
            if any_window(st, all@, amount as int) {
                assert(same_row_pass(st, all@, amount as int, 3).len() >= 1);
            }
        }
        assert(!any_satisfiable(st, all@, amount as int)) by {
            if any_satisfiable(st, all@, amount as int) {
                assert(combine_pass(st, all@, amount as int, 3).len() >= 1);
            }
        }
    }
    // Cross-section fallback: the first free seats anywhere in the venue,
    // ignoring section boundaries.
    let frees = store.collect_all_free();
    if frees.len() >= amount as usize {
        let mut g: Vec<SeatKey> = Vec::new();
        let mut i: usize = 0;
        while i < amount as usize
            invariant
                i <= amount,
                amount <= frees@.len(),
                frees@ == all_frees(st),
                g@.len() == i,
                forall|j: int| 0 <= j < i ==> g@[j] == frees@[j],
            decreases amount - i,
        {
            g.push(frees[i]);
            i += 1;
        }
        proof {
            assert(g@ =~= all_frees(st).take(amount as int));
            crate::store::lemma_all_frees(st, 0);
            crate::store::lemma_sorted_no_dup(all_frees(st));
            let q = all_frees(st);
            assert forall|a: int, b: int|
                0 <= a < g@.len() && 0 <= b < g@.len() && a != b implies g@[a] != g@[b] by {
                assert(g@[a] == q[a] && g@[b] == q[b]);
            }
            assert forall|a: int| 0 <= a < g@.len() implies valid_key(#[trigger] g@[a]) && free_at(
                st,
                g@[a],
            ) by {
                assert(q.contains(q[a]));
            }
            assert(good_group(st, g@, amount as int));
        }
        let mut gv: Vec<Vec<SeatKey>> = Vec::new();
        gv.push(g);
        let r = wrap_groups(gv, amount);
        proof {
            assert(sug_groups(r@) =~= views_of(gv@));
            assert(views_of(gv@) =~= seq![all_frees(st).take(amount as int)]);
        }
        r
    } else {
        let r: Vec<Suggestion> = Vec::new();
        proof {
            assert(sug_groups(r@) =~= Seq::<Seq<SeatKey>>::empty());
        }
        r
    }
}

/// The single entry point of the seat finder: up to three ranked candidate
/// groupings of exactly `amount` free seats within `scope`, or the empty
/// answer when the scope cannot satisfy the request. Never mutates the store.
pub fn suggest(store: &SeatStore, amount: u32, scope: Scope) -> (r: Vec<Suggestion>)
    requires
        store.wf(),
    ensures
        suggest_post(store@, amount as int, scope, r@),
{
    if amount == 0 {
        let r: Vec<Suggestion> = Vec::new();
        proof {
            assert(sug_groups(r@) =~= Seq::<Seq<SeatKey>>::empty());
        }
        return r;
    }
    match scope {
        Scope::Sect(s) => suggest_sect(store, amount, s),
        Scope::Cat(c) => suggest_cat(store, amount, c),
        Scope::Anywhere => suggest_anywhere(store, amount),
    }
}

/// When `amount` exceeds the seats of a row (or is not positive), no row of
/// the section can hold a window of it.
pub proof fn lemma_no_window_when_oversize(st: Seq<Seat>, sec: Section, row: int, amount: int)
    requires
        amount < 1 || amount > spec_seats_per_row(sec),
    ensures
        first_window_from(st, sec, row, amount) is None,
    decreases spec_rows_of(sec) + 1 - row,
{
    if row < 1 || row > spec_rows_of(sec) {
    } else {
        lemma_no_window_when_oversize(st, sec, row + 1, amount);
    }
}

} // verus!
