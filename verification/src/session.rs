//! The per-client session: the request/offer/decision state machine. A
//! request searches and holds seats in one atomic step against the store; a
//! decision books the chosen grouping and frees the others; a disconnect
//! frees everything the session still holds. Seats are thereby held by at
//! most one session at a time.

use vstd::prelude::*;

use crate::finder::Scope;
use crate::finder::Suggestion;
use crate::finder::groups_disjoint;
use crate::finder::sug_groups;
use crate::finder::sug_wf;
use crate::finder::suggest;
use crate::finder::suggest_post;
use crate::layout::SeatKey;
use crate::store::Seat;
use crate::store::SeatStatus;
use crate::store::SeatStore;
use crate::store::free_at;
use crate::store::has_key;
use crate::store::key_at;
use crate::store::lemma_key_at;
use crate::store::status_of;
use crate::store::update_status;
use crate::store::wf_seats;

verus! {

/// The lifecycle state of one session. `Connected` is initial; an offer moves
/// it to `Offered`; a decision ends in `Confirmed` or `Declined`; a disconnect
/// reaches `Closed` from any state.
#[derive(Clone, Copy, PartialEq, Eq, Structural, Debug)]
pub enum SessionPhase {
    Connected,
    Offered,
    Confirmed,
    Declined,
    Closed,
}

/// The state of one client connection: the keys it currently holds, the
/// suggestions it has been offered, and its lifecycle phase. A session owns no
/// seats; it records which keys it holds so it can release them.
pub struct Session {
    pub held: Vec<SeatKey>,
    pub offered: Vec<Suggestion>,
    pub phase: SessionPhase,
}

/// The store `st1` is `st0` with exactly the seats keyed by `keys` set to
/// status `s` and everything else unchanged.
pub open spec fn marked(st0: Seq<Seat>, st1: Seq<Seat>, keys: Seq<SeatKey>, s: SeatStatus) -> bool {
    &&& st1.len() == st0.len()
    &&& forall|i: int|
        0 <= i < st0.len() ==> (#[trigger] st1[i]).key == st0[i].key && st1[i].price
            == st0[i].price && st1[i].visibility == st0[i].visibility && st1[i].status == (
        if keys.contains(st0[i].key) {
            s
        } else {
            st0[i].status
        })
}

/// One atomic hold step: distinct keys, all free beforehand, all `Held`
/// afterwards, nothing else changed.
pub open spec fn holds_transition(st0: Seq<Seat>, st1: Seq<Seat>, keys: Seq<SeatKey>) -> bool {
    &&& keys.no_duplicates()
    &&& forall|i: int| 0 <= i < keys.len() ==> free_at(st0, #[trigger] keys[i])
    &&& marked(st0, st1, keys, SeatStatus::Held)
}

/// What `marked` means through the key-based view of the store.
pub proof fn lemma_marked(st0: Seq<Seat>, st1: Seq<Seat>, keys: Seq<SeatKey>, s: SeatStatus)
    requires
        wf_seats(st0),
        marked(st0, st1, keys, s),
    ensures
        wf_seats(st1),
        forall|k: SeatKey| #[trigger] has_key(st1, k) == has_key(st0, k),
        forall|k: SeatKey|
            has_key(st0, k) ==> #[trigger] status_of(st1, k) == if keys.contains(k) {
                s
            } else {
                status_of(st0, k)
            },
{
    assert forall|k: SeatKey| #[trigger] has_key(st1, k) == has_key(st0, k) by {
        if has_key(st0, k) {
            let i = key_at(st0, k);
            assert(st1[i].key == k);
        }
        if has_key(st1, k) {
            let i = key_at(st1, k);
            assert(st0[i].key == k);
        }
    }
    assert forall|k: SeatKey| has_key(st0, k) implies #[trigger] status_of(st1, k) == (
    if keys.contains(k) {
        s
    } else {
        status_of(st0, k)
    }) by {
        lemma_key_at(st0, k);
        lemma_key_at(st1, k);
        let i = key_at(st0, k);
        let j = key_at(st1, k);
        assert(st1[j].key == st0[j].key);
        assert(j == i);
    }
}

/// At most one session can hold a seat: two hold steps in sequence never
/// claim a common key, because the second step only claims seats still free
/// after the first.
pub proof fn lemma_holds_exclusive(
    st0: Seq<Seat>,
    st1: Seq<Seat>,
    held_a: Seq<SeatKey>,
    st2: Seq<Seat>,
    held_b: Seq<SeatKey>,
)
    requires
        wf_seats(st0),
        holds_transition(st0, st1, held_a),
        holds_transition(st1, st2, held_b),
    ensures
        forall|i: int, j: int|
            0 <= i < held_a.len() && 0 <= j < held_b.len() ==> #[trigger] held_a[i]
                != #[trigger] held_b[j],
{
    lemma_marked(st0, st1, held_a, SeatStatus::Held);
    assert forall|i: int, j: int|
        0 <= i < held_a.len() && 0 <= j < held_b.len() implies #[trigger] held_a[i]
        != #[trigger] held_b[j] by {
        let k = held_a[i];
        if k == held_b[j] {
            assert(free_at(st0, k));
            assert(held_a.contains(k));
            assert(status_of(st1, k) == SeatStatus::Held);
            assert(free_at(st1, k));
        }
    }
}

/// The keys of all suggestions, suggestion by suggestion, in offer order.
pub open spec fn keys_of(sugs: Seq<Suggestion>) -> Seq<SeatKey>
    decreases sugs.len(),
{
    if sugs.len() == 0 {
        Seq::empty()
    } else {
        keys_of(sugs.drop_last()) + sugs.last().seats@
    }
}

/// With duplicate-free, pairwise disjoint suggestions, `keys_of` enumerates
/// each offered key exactly once.
pub proof fn lemma_keys_of(sugs: Seq<Suggestion>)
    requires
        forall|j: int| 0 <= j < sugs.len() ==> (#[trigger] sugs[j]).seats@.no_duplicates(),
        groups_disjoint(sug_groups(sugs)),
    ensures
        keys_of(sugs).no_duplicates(),
        forall|k: SeatKey| #[trigger]
            keys_of(sugs).contains(k) <==> exists|j: int|
                0 <= j < sugs.len() && (#[trigger] sugs[j]).seats@.contains(k),
    decreases sugs.len(),
{
    if sugs.len() > 0 {
        let head = sugs.drop_last();
        let lastv = sugs.last().seats@;
        assert(forall|j: int| 0 <= j < head.len() ==> head[j] == sugs[j]);
        assert(groups_disjoint(sug_groups(head))) by {
            assert forall|j1: int, j2: int, a: int, b: int|
                #![trigger sug_groups(head)[j1][a], sug_groups(head)[j2][b]]
                0 <= j1 < j2 < head.len() && 0 <= a < sug_groups(head)[j1].len() && 0 <= b
                    < sug_groups(head)[j2].len() implies sug_groups(head)[j1][a] != sug_groups(
                head,
            )[j2][b] by {
                assert(sug_groups(head)[j1] == head[j1].seats@);
                assert(sug_groups(head)[j2] == head[j2].seats@);
                assert(sug_groups(sugs)[j1] == sugs[j1].seats@);
                assert(sug_groups(sugs)[j2] == sugs[j2].seats@);
            }
        }
        lemma_keys_of(head);
        let q = keys_of(sugs);
        let hq = keys_of(head);
        assert(q == hq + lastv);
        assert forall|k: SeatKey| #[trigger] q.contains(k) implies exists|j: int|
            0 <= j < sugs.len() && (#[trigger] sugs[j]).seats@.contains(k) by {
            let i = choose|i: int| 0 <= i < q.len() && q[i] == k;
            if i < hq.len() {
                assert(hq[i] == k);
                assert(hq.contains(k));
                let j = choose|j: int| 0 <= j < head.len() && (#[trigger] head[j]).seats@.contains(k);
                assert(sugs[j].seats@.contains(k));
            } else {
                assert(lastv[i - hq.len()] == k);
                assert(sugs[sugs.len() - 1].seats@.contains(k));
            }
        }
        assert forall|k: SeatKey|
            exists|j: int|
                0 <= j < sugs.len() && (#[trigger] sugs[j]).seats@.contains(k) implies #[trigger]
            q.contains(k) by {
            let j = choose|j: int| 0 <= j < sugs.len() && (#[trigger] sugs[j]).seats@.contains(k);
            if j < sugs.len() - 1 {
                assert(head[j].seats@.contains(k));
                assert(hq.contains(k));
                let i = choose|i: int| 0 <= i < hq.len() && hq[i] == k;
                assert(q[i] == k);
            } else {
                let a = choose|a: int| 0 <= a < lastv.len() && lastv[a] == k;
                assert(q[hq.len() + a] == k);
            }
        }
        // No key of the last suggestion already occurs among the earlier ones.
        assert forall|x: int, y: int|
            0 <= x < q.len() && 0 <= y < q.len() && x != y implies q[x] != q[y] by {
            if x < hq.len() && y < hq.len() {
                assert(q[x] == hq[x] && q[y] == hq[y]);
            } else if x >= hq.len() && y >= hq.len() {
                assert(q[x] == lastv[x - hq.len()] && q[y] == lastv[y - hq.len()]);
                assert(sugs.last().seats@.no_duplicates());
            } else {
                let (hx, lx) = if x < hq.len() {
                    (x, y)
                } else {
                    (y, x)
                };
                assert(q[hx] == hq[hx]);
                assert(hq.contains(hq[hx]));
                let j = choose|j: int|
                    0 <= j < head.len() && (#[trigger] head[j]).seats@.contains(hq[hx]);
                let a = choose|a: int| 0 <= a < head[j].seats@.len() && head[j].seats@[a] == hq[hx];
                assert(q[lx] == lastv[lx - hq.len()]);
                assert(sug_groups(sugs)[j][a] == hq[hx]);
                assert(sug_groups(sugs)[sugs.len() - 1][lx - hq.len()] == q[lx]);
            }
        }
    }
}

impl SeatStore {
    /// Sets every listed seat to status `s`, as one atomic bulk update. All
    /// listed keys must exist.
    fn mark_all(&mut self, keys: &Vec<SeatKey>, s: SeatStatus)
        requires
            old(self).wf(),
            forall|i: int| 0 <= i < keys@.len() ==> has_key(old(self)@, #[trigger] keys@[i]),
        ensures
            final(self).wf(),
            marked(old(self)@, final(self)@, keys@, s),
    {
        let ghost st0 = self@;
        let mut i: usize = 0;
        while i < keys.len()
            invariant
                self.wf(),
                wf_seats(st0),
                i <= keys@.len(),
                forall|j: int| 0 <= j < keys@.len() ==> has_key(st0, #[trigger] keys@[j]),
                marked(st0, self@, keys@.take(i as int), s),
            decreases keys@.len() - i,
        {
            let k = keys[i];
            let ghost prev = self@;
            proof {
                assert(has_key(prev, k)) by {
                    let w = key_at(st0, k);
                    assert(prev[w].key == st0[w].key);
                }
            }
            let res = self.set_status(k, s);
            proof {
                assert(res is Ok);
                assert(self@ == update_status(prev, k, s));
                assert(keys@.take(i as int + 1) =~= keys@.take(i as int).push(k));
                assert forall|j: int| 0 <= j < st0.len() implies (#[trigger] self@[j]).key
                    == st0[j].key && self@[j].price == st0[j].price && self@[j].visibility
                    == st0[j].visibility && self@[j].status == (if keys@.take(
                    i as int + 1,
                ).contains(st0[j].key) {
                    s
                } else {
                    st0[j].status
                }) by {
                    if keys@.take(i as int + 1).contains(st0[j].key) {
                        if st0[j].key == k {
                        } else {
                            assert(keys@.take(i as int).contains(st0[j].key));
                        }
                    } else {
                        assert(!keys@.take(i as int).contains(st0[j].key));
                        assert(st0[j].key != k) by {
                            assert(keys@.take(i as int + 1)[i as int] == k);
                        }
                    }
                }
            }
            i += 1;
        }
        proof {
            assert(keys@.take(keys@.len() as int) =~= keys@);
        }
    }
}

impl Session {
    /// A fresh session for a new connection.
    pub fn new() -> (s: Session)
        ensures
            s.phase == SessionPhase::Connected,
            s.held@ == Seq::<SeatKey>::empty(),
            s.offered@ == Seq::<Suggestion>::empty(),
    {
        Session { held: Vec::new(), offered: Vec::new(), phase: SessionPhase::Connected }
    }

    /// The joint invariant of a session and the store it works against: the
    /// held keys are distinct, exist in the store and are all `Held`; they are
    /// exactly the keys of the offered suggestions, which are pairwise
    /// disjoint; and away from `Offered` the session holds nothing.
    pub open spec fn wf_with(self, st: Seq<Seat>) -> bool {
        &&& self.held@.no_duplicates()
        &&& forall|i: int|
            0 <= i < self.held@.len() ==> has_key(st, #[trigger] self.held@[i]) && status_of(
                st,
                self.held@[i],
            ) == SeatStatus::Held
        &&& forall|j: int| 0 <= j < self.offered@.len() ==> (#[trigger] self.offered@[j]).seats@.no_duplicates()
        &&& groups_disjoint(sug_groups(self.offered@))
        &&& forall|k: SeatKey| #[trigger]
            self.held@.contains(k) <==> exists|j: int|
                0 <= j < self.offered@.len() && (#[trigger] self.offered@[j]).seats@.contains(k)
        &&& self.phase != SessionPhase::Offered ==> self.held@.len() == 0 && self.offered@.len()
            == 0
    }

    /// Handles one seat request in `Connected`: searches within `scope` and,
    /// in the same atomic step against the store, holds every seat of every
    /// returned suggestion. With at least one suggestion the session moves to
    /// `Offered`; with none it stays `Connected` (the caller reports
    /// "unavailable") and the store is untouched. Returns how many
    /// suggestions were offered; the suggestions themselves are in `offered`.
    pub fn on_request(&mut self, store: &mut SeatStore, amount: u32, scope: Scope) -> (n: usize)
        requires
            old(self).phase == SessionPhase::Connected,
            old(self).wf_with(old(store)@),
            old(store).wf(),
        ensures
            final(store).wf(),
            final(self).wf_with(final(store)@),
            suggest_post(old(store)@, amount as int, scope, final(self).offered@),
            n == final(self).offered@.len(),
            n >= 1 ==> final(self).phase == SessionPhase::Offered,
            n == 0 ==> final(self).phase == SessionPhase::Connected && final(store)@ == old(
                store,
            )@ && final(self).held@.len() == 0,
            final(self).held@ == keys_of(final(self).offered@),
            holds_transition(old(store)@, final(store)@, final(self).held@),
    {
        let ghost st0 = store@;
        let sugs = suggest(store, amount, scope);
        proof {
            lemma_keys_of(sugs@);
        }
        if sugs.len() == 0 {
            proof {
                assert(keys_of(sugs@) =~= Seq::<SeatKey>::empty());
                assert(self.held@ =~= keys_of(sugs@));
                assert(self.offered@ =~= sugs@);
                assert(marked(st0, store@, self.held@, SeatStatus::Held));
            }
            self.offered = sugs;
            return 0;
        }
        let n = sugs.len();
        let mut keys: Vec<SeatKey> = Vec::new();
        let mut j: usize = 0;
        proof {
            assert(keys@ =~= keys_of(sugs@.take(0)));
        }
        while j < sugs.len()
            invariant
                j <= sugs@.len(),
                keys@ == keys_of(sugs@.take(j as int)),
            decreases sugs@.len() - j,
        {
            let g = &sugs[j];
            let mut a: usize = 0;
            while a < g.seats.len()
                invariant
                    j < sugs@.len(),
                    a <= g.seats@.len(),
                    g == &sugs[j as int],
                    keys@ == keys_of(sugs@.take(j as int)) + g.seats@.take(a as int),
                decreases g.seats@.len() - a,
            {
                keys.push(g.seats[a]);
                proof {
                    assert(g.seats@.take(a as int + 1) =~= g.seats@.take(a as int).push(
                        g.seats@[a as int],
                    ));
                    assert(keys@ =~= keys_of(sugs@.take(j as int)) + g.seats@.take(a as int + 1));
                }
                a += 1;
            }
            proof {
                assert(g.seats@.take(g.seats@.len() as int) =~= g.seats@);
                assert(sugs@.take(j as int + 1).drop_last() =~= sugs@.take(j as int));
                assert(sugs@.take(j as int + 1).last() == sugs@[j as int]);
                assert(keys_of(sugs@.take(j as int + 1)) == keys_of(sugs@.take(j as int))
                    + sugs@[j as int].seats@);
                assert(keys@ =~= keys_of(sugs@.take(j as int + 1)));
            }
            j += 1;
        }
        proof {
            assert(sugs@.take(sugs@.len() as int) =~= sugs@);
            assert(keys@ == keys_of(sugs@));
            assert forall|i: int| 0 <= i < keys@.len() implies free_at(st0, #[trigger] keys@[i])
                && has_key(st0, keys@[i]) by {
                assert(keys@.contains(keys@[i]));
                let w = choose|w: int|
                    0 <= w < sugs@.len() && (#[trigger] sugs@[w]).seats@.contains(keys@[i]);
                assert(sug_wf(st0, sugs@[w], amount as int));
                let b = choose|b: int|
                    0 <= b < sugs@[w].seats@.len() && sugs@[w].seats@[b] == keys@[i];
                assert(free_at(st0, sugs@[w].seats@[b]));
            }
        }
        store.mark_all(&keys, SeatStatus::Held);
        proof {
            lemma_marked(st0, store@, keys@, SeatStatus::Held);
        }
        self.held = keys;
        self.offered = sugs;
        self.phase = SessionPhase::Offered;
        proof {
            assert forall|i: int| 0 <= i < self.held@.len() implies has_key(
                store@,
                #[trigger] self.held@[i],
            ) && status_of(store@, self.held@[i]) == SeatStatus::Held by {
                assert(self.held@.contains(self.held@[i]));
            }
        }
        n
    }

    /// Handles the client's decision in `Offered`. A choice `i` with
    /// `1 <= i <= offered.len()` accepts suggestion `i`: its seats are booked
    /// and every other offered seat reverts to `Free`, ending in `Confirmed`.
    /// Any other choice declines: every offered seat reverts to `Free`,
    /// ending in `Declined`. Either way the session then holds nothing.
    pub fn on_choice(&mut self, store: &mut SeatStore, choice: usize) -> (accepted: bool)
        requires
            old(self).phase == SessionPhase::Offered,
            old(self).wf_with(old(store)@),
            old(store).wf(),
        ensures
            final(store).wf(),
            final(self).wf_with(final(store)@),
            accepted == (1 <= choice <= old(self).offered@.len()),
            final(self).phase == if accepted {
                SessionPhase::Confirmed
            } else {
                SessionPhase::Declined
            },
            final(self).held@.len() == 0,
            final(self).offered@.len() == 0,
            forall|k: SeatKey| #[trigger] has_key(final(store)@, k) == has_key(old(store)@, k),
            forall|k: SeatKey|
                has_key(old(store)@, k) ==> #[trigger] status_of(final(store)@, k) == (
                if accepted && old(self).offered@[choice - 1].seats@.contains(k) {
                    SeatStatus::Booked
                } else if keys_of(old(self).offered@).contains(k) {
                    SeatStatus::Free
                } else {
                    status_of(old(store)@, k)
                }),
    {
        let ghost st0 = store@;
        let ghost off = self.offered@;
        proof {
            lemma_keys_of(off);
        }
        let accepted = 1 <= choice && choice <= self.offered.len();
        if accepted {
            let ghost cidx = choice - 1int;
            let mut j: usize = 0;
            while j < self.offered.len()
                invariant
                    store.wf(),
                    wf_seats(st0),
                    self == old(self),
                    off == self.offered@,
                    old(self).wf_with(st0),
                    1 <= choice <= off.len(),
                    cidx == choice - 1int,
                    j <= off.len(),
                    store@.len() == st0.len(),
                    forall|k: SeatKey| #[trigger] has_key(store@, k) == has_key(st0, k),
                    forall|k: SeatKey|
                        has_key(st0, k) ==> #[trigger] status_of(store@, k) == (if j > cidx
                            && off[cidx].seats@.contains(k) {
                            SeatStatus::Booked
                        } else if exists|jj: int|
                            0 <= jj < j && jj != cidx && (#[trigger] off[jj]).seats@.contains(k) {
                            SeatStatus::Free
                        } else {
                            status_of(st0, k)
                        }),
                decreases off.len() - j,
            {
                let status = if j == choice - 1 {
                    SeatStatus::Booked
                } else {
                    SeatStatus::Free
                };
                let ghost prev = store@;
                let g = &self.offered[j];
                proof {
                    assert forall|i: int| 0 <= i < g.seats@.len() implies has_key(
                        prev,
                        #[trigger] g.seats@[i],
                    ) by {
                        assert(g.seats@.contains(g.seats@[i]));
                        assert(self.held@.contains(g.seats@[i]));
                        let w = choose|w: int|
                            0 <= w < self.held@.len() && self.held@[w] == g.seats@[i];
                        assert(has_key(st0, self.held@[w]));
                    }
                }
                store.mark_all(&g.seats, status);
                proof {
                    lemma_marked(prev, store@, g.seats@, status);
                    assert forall|k: SeatKey| has_key(st0, k) implies #[trigger] status_of(
                        store@,
                        k,
                    ) == (if j + 1 > cidx && off[cidx].seats@.contains(k) {
                        SeatStatus::Booked
                    } else if exists|jj: int|
                        0 <= jj < j + 1 && jj != cidx && (#[trigger] off[jj]).seats@.contains(k) {
                        SeatStatus::Free
                    } else {
                        status_of(st0, k)
                    }) by {
                        if g.seats@.contains(k) {
                            // The seat belongs to the grouping just processed;
                            // disjointness rules it out of every other one.
                            assert(sug_groups(off)[j as int] == off[j as int].seats@);
                            assert forall|jj: int|
                                0 <= jj < off.len() && jj != j implies !(#[trigger] off[jj]).seats@.contains(
                                k,
                            ) by {
                                if off[jj].seats@.contains(k) {
                                    let a = choose|a: int|
                                        0 <= a < off[jj].seats@.len() && off[jj].seats@[a] == k;
                                    let b = choose|b: int|
                                        0 <= b < off[j as int].seats@.len() && off[j as int].seats@[b]
                                            == k;
                                    assert(sug_groups(off)[jj] == off[jj].seats@);
                                    if jj < j {
                                        assert(sug_groups(off)[jj][a] != sug_groups(
                                            off,
                                        )[j as int][b]);
                                    } else {
                                        assert(sug_groups(off)[j as int][b] != sug_groups(
                                            off,
                                        )[jj][a]);
                                    }
                                }
                            }
                            if j as int == cidx {
                                assert(status_of(store@, k) == SeatStatus::Booked);
                            } else {
                                assert(status_of(store@, k) == SeatStatus::Free);
                                assert(0 <= j as int && (j as int) < j + 1 && j as int != cidx
                                    && off[j as int].seats@.contains(k));
                            }
                        } else {
                            assert(status_of(store@, k) == status_of(prev, k));
                            if j + 1 > cidx && off[cidx].seats@.contains(k) {
                                if !(j > cidx) {
                                    assert(j as int == cidx);
                                    assert(false);
                                }
                            }
                            if exists|jj: int|
                                0 <= jj < j + 1 && jj != cidx && (#[trigger] off[jj]).seats@.contains(
                                k,
                            ) {
                                let jj = choose|jj: int|
                                    0 <= jj < j + 1 && jj != cidx && (#[trigger] off[jj]).seats@.contains(
                                    k,
                                );
                                assert(jj != j);
                                assert(0 <= jj < j && jj != cidx && off[jj].seats@.contains(k));
                            }
                        }
                    }
                }
                j += 1;
            }
            self.held = Vec::new();
            self.offered = Vec::new();
            self.phase = SessionPhase::Confirmed;
            proof {
                assert forall|k: SeatKey| has_key(st0, k) implies #[trigger] status_of(store@, k)
                    == (if off[cidx].seats@.contains(k) {
                    SeatStatus::Booked
                } else if keys_of(off).contains(k) {
                    SeatStatus::Free
                } else {
                    status_of(st0, k)
                }) by {
                    if !off[cidx].seats@.contains(k) && keys_of(off).contains(k) {
                        let jj = choose|jj: int|
                            0 <= jj < off.len() && (#[trigger] off[jj]).seats@.contains(k);
                        assert(jj != cidx);
                    }
                    if !off[cidx].seats@.contains(k) && !keys_of(off).contains(k) {
                        assert(forall|jj: int|
                            0 <= jj < off.len() ==> !(#[trigger] off[jj]).seats@.contains(k));
                    }
                }
            }
            true
        } else {
            let ghost prev = store@;
            proof {
                assert forall|i: int| 0 <= i < self.held@.len() implies has_key(
                    prev,
                    #[trigger] self.held@[i],
                ) by {}
            }
            store.mark_all(&self.held, SeatStatus::Free);
            proof {
                lemma_marked(st0, store@, self.held@, SeatStatus::Free);
                assert forall|k: SeatKey| has_key(st0, k) implies #[trigger] status_of(store@, k)
                    == (if keys_of(off).contains(k) {
                    SeatStatus::Free
                } else {
                    status_of(st0, k)
                }) by {
                    assert(self.held@.contains(k) <==> keys_of(off).contains(k));
                }
            }
            self.held = Vec::new();
            self.offered = Vec::new();
            self.phase = SessionPhase::Declined;
            false
        }
    }

    /// Handles a disconnect from any state: every seat the session still
    /// holds reverts to `Free`, and the session is closed. This is the only
    /// place seats are guaranteed released without an explicit decision.
    pub fn on_disconnect(&mut self, store: &mut SeatStore)
        requires
            old(self).wf_with(old(store)@),
            old(store).wf(),
        ensures
            final(store).wf(),
            final(self).wf_with(final(store)@),
            final(self).phase == SessionPhase::Closed,
            final(self).held@.len() == 0,
            final(self).offered@.len() == 0,
            marked(old(store)@, final(store)@, old(self).held@, SeatStatus::Free),
    {
        let ghost st0 = store@;
        proof {
            assert(forall|i: int|
                0 <= i < self.held@.len() ==> has_key(st0, #[trigger] self.held@[i]));
        }
        store.mark_all(&self.held, SeatStatus::Free);
        self.held = Vec::new();
        self.offered = Vec::new();
        self.phase = SessionPhase::Closed;
    }

    /// Applies a payment result in `Offered`: on success every held seat is
    /// booked, on failure every held seat reverts to `Free`; the session ends
    /// in `Confirmed` or `Declined` accordingly.
    pub fn on_payment(&mut self, store: &mut SeatStore, success: bool)
        requires
            old(self).phase == SessionPhase::Offered,
            old(self).wf_with(old(store)@),
            old(store).wf(),
        ensures
            final(store).wf(),
            final(self).wf_with(final(store)@),
            final(self).phase == if success {
                SessionPhase::Confirmed
            } else {
                SessionPhase::Declined
            },
            final(self).held@.len() == 0,
            final(self).offered@.len() == 0,
            marked(old(store)@, final(store)@, old(self).held@, if success {
                SeatStatus::Booked
            } else {
                SeatStatus::Free
            }),
    {
        let ghost st0 = store@;
        proof {
            assert(forall|i: int|
                0 <= i < self.held@.len() ==> has_key(st0, #[trigger] self.held@[i]));
        }
        let status = if success {
            SeatStatus::Booked
        } else {
            SeatStatus::Free
        };
        store.mark_all(&self.held, status);
        self.held = Vec::new();
        self.offered = Vec::new();
        self.phase = if success {
            SessionPhase::Confirmed
        } else {
            SessionPhase::Declined
        };
    }
}

} // verus!
