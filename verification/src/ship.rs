//! The server's view of one ship: which shipments it has applied, which wait for their turn,
//! and which responses it keeps for resending.
use crate::order::{
    insert_by_order, is_sorted_by_order, lemma_sort_by_order, lemma_sort_sorted, sort_by_order, sort_shipments,
};
use crate::shipment::{shipment_wire, Shipment, ShipmentView, SpringTank};
use crate::uid::UniqueId;
use vstd::prelude::*;

verus! {

/// The most responses a ship keeps for resending.
pub const BACKLOG_MAX: usize = 30;

/// Ordering state of a ship. The springs of the ship live beside it, with the I/O.
pub struct Ship {
    pub latest_order: u64,
    pub response_order: u64,
    pub queued_shipments: Vec<Shipment>,
    pub order_backlog: Vec<Shipment>,
}

/// What to do with one tank of an applied shipment.
#[derive(Debug, Clone, Copy, PartialEq, Eq, Structural)]
pub enum TankAction {
    /// Nothing.
    Skip,
    /// Open a new connection to the tank's host and send its data there.
    Open,
    /// Send the data to the existing spring, and end the spring when `end` holds.
    Deliver { end: bool },
}

/// The server's answer to a client's request for an earlier response.
pub enum Answer {
    /// The kept response, sent again.
    Resend(Vec<u8>),
    /// A shipment that tells the client to start over, the response being no longer kept; the
    /// ship has started over too, and its springs are to be dropped.
    Reset(Vec<u8>),
}

/// How many shipments at the front of `q` continue the run after `latest`, each one order
/// number after the previous.
pub open spec fn next_run(q: Seq<Shipment>, latest: u64) -> nat
    decreases q.len(),
{
    if q.len() > 0 && q[0].order == latest + 1 {
        1 + next_run(q.drop_first(), q[0].order)
    } else {
        0
    }
}

/// The last order number of the run of `q` after `latest`.
pub open spec fn run_end(q: Seq<Shipment>, latest: u64) -> u64 {
    if next_run(q, latest) == 0 {
        latest
    } else {
        q[next_run(q, latest) - 1].order
    }
}

/// What accepting `s` does, given the latest applied order number and the waiting shipments:
/// the shipments to apply, in that order, the shipments left waiting, and the new latest
/// order number. A shipment that is not newer than the latest one is dropped; one that skips
/// ahead waits; the next one is applied, followed by every waiting one that continues the run.
pub open spec fn spec_accept(latest: u64, queued: Seq<Shipment>, s: Shipment) -> (
    Seq<Shipment>,
    Seq<Shipment>,
    u64,
) {
    let fresh = s.order == latest + 1;
    let waiting = if s.order > latest + 1 {
        queued.push(s)
    } else {
        queued
    };
    let sorted = sort_by_order(waiting);
    let l1 = if fresh {
        s.order
    } else {
        latest
    };
    let k = next_run(sorted, l1) as int;
    let first = if fresh {
        seq![s]
    } else {
        Seq::empty()
    };
    (first + sorted.take(k), sorted.skip(k), run_end(sorted, l1))
}

/// The backlog after keeping `s`: sorted by order number, the oldest dropped beyond the limit.
pub open spec fn spec_new_backlog(backlog: Seq<Shipment>, s: Shipment) -> Seq<Shipment> {
    let sorted = sort_by_order(backlog.push(s));
    if sorted.len() > BACKLOG_MAX {
        sorted.drop_first()
    } else {
        sorted
    }
}

/// Index of the first shipment of `s` with order number `o`.
pub open spec fn find_order(s: Seq<Shipment>, o: u64) -> Option<int>
    decreases s.len(),
{
    if s.len() == 0 {
        None
    } else if s[0].order == o {
        Some(0)
    } else {
        match find_order(s.drop_first(), o) {
            Some(i) => Some(i + 1),
            None => None,
        }
    }
}

/// The shipment that tells the client to start over.
pub open spec fn reset_shipment(ship_id: UniqueId) -> ShipmentView {
    ShipmentView { ship_id, order: 0, reset: true, order_request: 0, tanks: Seq::empty() }
}

/// The first shipment with order number `o` is at `k` when `s[k]` has it and none before does.
proof fn lemma_find_order_at(s: Seq<Shipment>, o: u64, k: int)
    requires
        0 <= k < s.len(),
        s[k].order == o,
        forall|j: int| 0 <= j < k ==> #[trigger] s[j].order != o,
    ensures
        find_order(s, o) == Some(k),
    decreases s.len(),
{
    if k > 0 {
        let r = s.drop_first();
        assert forall|j: int| 0 <= j < k - 1 implies #[trigger] r[j].order != o by {
            assert(r[j] == s[j + 1]);
        }
        lemma_find_order_at(r, o, k - 1);
    }
}

/// Keeping a response newer than every kept one, in a sorted backlog, puts it last.
proof fn lemma_push_newest(backlog: Seq<Shipment>, s: Shipment)
    requires
        is_sorted_by_order(backlog),
        forall|i: int| 0 <= i < backlog.len() ==> #[trigger] backlog[i].order < s.order,
    ensures
        sort_by_order(backlog.push(s)) == backlog.push(s),
{
    let pushed = backlog.push(s);
    lemma_sort_sorted(backlog);
    if backlog.len() > 0 {
        assert(backlog.last().order <= s.order);
    }
    assert(sort_by_order(pushed) == insert_by_order(s, sort_by_order(backlog))) by {
        assert(pushed.drop_last() =~= backlog);
    }
    assert(insert_by_order(s, backlog) =~= pushed);
}

/// A shipment that is not the next one applies nothing when the waiting shipments are sorted and
/// the first of them is not the next one either; one that is not newer than the latest applied
/// leaves the waiting shipments as they are.
proof fn lemma_no_skip_applied(latest: u64, queued: Seq<Shipment>, s: Shipment)
    requires
        is_sorted_by_order(queued),
        queued.len() > 0 ==> queued[0].order != latest + 1,
        s.order != latest + 1,
    ensures
        spec_accept(latest, queued, s).0.len() == 0,
        spec_accept(latest, queued, s).2 == latest,
        s.order <= latest ==> spec_accept(latest, queued, s).1 == queued,
{
    broadcast use vstd::seq_lib::group_to_multiset_ensures;
    let w = if s.order > latest + 1 {
        queued.push(s)
    } else {
        queued
    };
    let sorted = sort_by_order(w);
    lemma_sort_by_order(w);
    if s.order <= latest {
        lemma_sort_sorted(queued);
        assert(queued.skip(0) =~= queued);
    } else if sorted.len() > 0 {
        assert(sorted.to_multiset().count(sorted[0]) > 0);
        assert(w.contains(sorted[0]));
        let j = choose|j: int| 0 <= j < w.len() && w[j] == sorted[0];
        if j < queued.len() {
            assert(w[0] == queued[0]);
            assert(w.to_multiset().count(queued[0]) > 0);
            assert(sorted.contains(queued[0]));
            let m = choose|m: int| 0 <= m < sorted.len() && sorted[m] == queued[0];
            assert(sorted[0].order <= sorted[m].order);
            assert(queued[0].order <= queued[j].order);
        }
    }
    lemma_next_run(sorted, latest);
    assert(sorted.take(0) =~= Seq::<Shipment>::empty());
    assert(Seq::<Shipment>::empty() + sorted.take(0) =~= Seq::<Shipment>::empty());
}

/// The kept responses stay sorted by order number, and never more than `BACKLOG_MAX` of them.
pub proof fn lemma_backlog_bounded(backlog: Seq<Shipment>, s: Shipment)
    requires
        backlog.len() <= BACKLOG_MAX,
    ensures
        is_sorted_by_order(spec_new_backlog(backlog, s)),
        spec_new_backlog(backlog, s).len() <= BACKLOG_MAX,
{
    lemma_sort_by_order(backlog.push(s));
}

/// What the server sends it finds again: right after it keeps a response newer than every
/// kept one, the response is the last kept one and the first with its order number, so a
/// request for that number is answered with the same response.
pub proof fn lemma_resend_what_was_sent(backlog: Seq<Shipment>, s: Shipment)
    requires
        is_sorted_by_order(backlog),
        forall|i: int| 0 <= i < backlog.len() ==> #[trigger] backlog[i].order < s.order,
    ensures
        ({
            let kept = spec_new_backlog(backlog, s);
            &&& kept.len() > 0
            &&& kept.last() == s
            &&& find_order(kept, s.order) == Some(kept.len() - 1)
        }),
{
    let pushed = backlog.push(s);
    lemma_push_newest(backlog, s);
    let kept = spec_new_backlog(backlog, s);
    assert forall|j: int| 0 <= j < kept.len() - 1 implies #[trigger] kept[j].order != s.order by {
        if pushed.len() > BACKLOG_MAX {
            assert(kept[j] == backlog[j + 1]);
        } else {
            assert(kept[j] == backlog[j]);
        }
    }
    lemma_find_order_at(kept, s.order, kept.len() - 1);
}

/// A run counts only shipments that are there, and ends at the order number after which it
/// started, plus its length; its members are numbered one after another.
pub proof fn lemma_next_run(q: Seq<Shipment>, latest: u64)
    ensures
        next_run(q, latest) <= q.len(),
        run_end(q, latest) == latest + next_run(q, latest),
        forall|i: int| 0 <= i < next_run(q, latest) ==> #[trigger] q[i].order == latest + 1 + i,
        next_run(q, latest) < q.len() ==> q[next_run(q, latest) as int].order != run_end(q, latest)
            + 1,
    decreases q.len(),
{
    if q.len() > 0 && q[0].order == latest + 1 {
        let r = q.drop_first();
        lemma_next_run(r, q[0].order);
        assert forall|i: int| 0 <= i < next_run(q, latest) implies #[trigger] q[i].order == latest
            + 1 + i by {
            if i > 0 {
                assert(q[i] == r[i - 1]);
            }
        }
        if next_run(r, q[0].order) > 0 {
            assert(q[next_run(q, latest) - 1] == r[next_run(r, q[0].order) - 1]);
        }
        if next_run(q, latest) < q.len() {
            assert(q[next_run(q, latest) as int] == r[next_run(r, q[0].order) as int]);
        }
    }
}

/// Shipments are applied strictly in order: the applied ones are numbered one after another
/// from the order after the latest applied one, the latest applied order number advances by
/// their count, the waiting ones stay sorted and hold no shipment whose turn has come first,
/// and no shipment newer than the latest applied one is lost.
pub proof fn lemma_accept_in_order(latest: u64, queued: Seq<Shipment>, s: Shipment)
    ensures
        ({
            let (applied, waiting, l) = spec_accept(latest, queued, s);
            &&& forall|i: int| 0 <= i < applied.len() ==> #[trigger] applied[i].order == latest
                + 1 + i
            &&& l == latest + applied.len()
            &&& is_sorted_by_order(waiting)
            &&& waiting.len() > 0 ==> waiting[0].order != l + 1
            &&& applied.to_multiset().add(waiting.to_multiset()) == (if s.order > latest {
                queued.push(s)
            } else {
                queued
            }).to_multiset()
        }),
{
    broadcast use vstd::seq_lib::group_to_multiset_ensures;
    let fresh = s.order == latest + 1;
    let w = if s.order > latest + 1 {
        queued.push(s)
    } else {
        queued
    };
    let sorted = sort_by_order(w);
    let l1 = if fresh {
        s.order
    } else {
        latest
    };
    lemma_sort_by_order(w);
    lemma_next_run(sorted, l1);
    let k = next_run(sorted, l1) as int;
    let first: Seq<Shipment> = if fresh {
        seq![s]
    } else {
        Seq::empty()
    };
    let (applied, waiting, l) = spec_accept(latest, queued, s);
    assert(applied == first + sorted.take(k));
    assert forall|i: int| 0 <= i < applied.len() implies #[trigger] applied[i].order == latest + 1
        + i by {
        if fresh {
            if i > 0 {
                assert(applied[i] == sorted[i - 1]);
            }
        } else {
            assert(applied[i] == sorted[i]);
        }
    }
    assert(sorted =~= sorted.take(k) + sorted.skip(k));
    vstd::seq_lib::lemma_multiset_commutative(sorted.take(k), sorted.skip(k));
    vstd::seq_lib::lemma_multiset_commutative(first, sorted.take(k));
    if fresh {
        assert(first =~= Seq::<Shipment>::empty().push(s));
        assert(queued.push(s) =~= queued + first);
        vstd::seq_lib::lemma_multiset_commutative(queued, first);
    } else {
        assert(first + sorted.take(k) =~= sorted.take(k));
    }
    assert(waiting.len() > 0 ==> waiting[0] == sorted[k]);
}

impl Ship {
    /// The waiting shipments are sorted by order number, and the first of them is not the next
    /// one to apply (it would have been applied).
    pub open spec fn queue_wf(&self) -> bool {
        &&& is_sorted_by_order(self.queued_shipments@)
        &&& self.queued_shipments@.len() > 0 ==> self.queued_shipments@[0].order
            != self.latest_order + 1
    }

    /// The kept responses are sorted by order number, at most `BACKLOG_MAX` of them, and none is
    /// newer than the latest response sent.
    pub open spec fn backlog_wf(&self) -> bool {
        &&& is_sorted_by_order(self.order_backlog@)
        &&& self.order_backlog@.len() <= BACKLOG_MAX
        &&& forall|i: int|
            0 <= i < self.order_backlog@.len() ==> #[trigger] self.order_backlog@[i].order
                <= self.response_order
    }

    /// A ship that has applied and sent nothing.
    pub fn new() -> (r: Ship)
        ensures
            r.latest_order == 0,
            r.response_order == 0,
            r.queued_shipments@ == Seq::<Shipment>::empty(),
            r.order_backlog@ == Seq::<Shipment>::empty(),
            r.backlog_wf(),
            r.queue_wf(),
    {
        Ship {
            latest_order: 0,
            response_order: 0,
            queued_shipments: Vec::new(),
            order_backlog: Vec::new(),
        }
    }

    /// Forgets every shipment and starts the numbering over.
    pub fn reset(&mut self)
        ensures
            final(self).latest_order == 0,
            final(self).response_order == 0,
            final(self).queued_shipments@ == Seq::<Shipment>::empty(),
            final(self).order_backlog@ == Seq::<Shipment>::empty(),
            final(self).backlog_wf(),
            final(self).queue_wf(),
    {
        self.queued_shipments.clear();
        self.order_backlog.clear();
        self.latest_order = 0;
        self.response_order = 0;
    }

    /// Keeps a sent response for resending, sorted by order number, at most `BACKLOG_MAX` of them.
    pub fn new_backlog(&mut self, sm: Shipment)
        ensures
            final(self).order_backlog@ == spec_new_backlog(old(self).order_backlog@, sm),
            final(self).latest_order == old(self).latest_order,
            final(self).response_order == old(self).response_order,
            final(self).queued_shipments == old(self).queued_shipments,
    {
        self.order_backlog.push(sm);
        sort_shipments(&mut self.order_backlog);
        if self.order_backlog.len() > BACKLOG_MAX {
            self.order_backlog.remove(0);
            assert(self.order_backlog@ =~= spec_new_backlog(old(self).order_backlog@, sm));
        }
    }

    /// Takes a shipment from the client and returns the shipments to apply now, in order.
    pub fn accept(&mut self, shipment: Shipment) -> (applied: Vec<Shipment>)
        ensures
            (applied@, final(self).queued_shipments@, final(self).latest_order) == spec_accept(
                old(self).latest_order,
                old(self).queued_shipments@,
                shipment,
            ),
            final(self).response_order == old(self).response_order,
            final(self).order_backlog == old(self).order_backlog,
            final(self).queue_wf(),
            final(self).latest_order == old(self).latest_order + applied@.len(),
            old(self).queue_wf() && shipment.order != old(self).latest_order + 1 ==> applied@.len()
                == 0,
            old(self).queue_wf() && shipment.order <= old(self).latest_order
                ==> final(self).queued_shipments@ == old(self).queued_shipments@,
    {
        proof {
            lemma_accept_in_order(old(self).latest_order, old(self).queued_shipments@, shipment);
            if old(self).queue_wf() && shipment.order != old(self).latest_order + 1 {
                lemma_no_skip_applied(
                    old(self).latest_order,
                    old(self).queued_shipments@,
                    shipment,
                );
            }
        }
        let ghost s = shipment;
        let mut applied: Vec<Shipment> = Vec::new();
        if shipment.order <= self.latest_order {
        } else if shipment.order - self.latest_order > 1 {
            self.queued_shipments.push(shipment);
        } else {
            self.latest_order = shipment.order;
            applied.push(shipment);
        }
        sort_shipments(&mut self.queued_shipments);
        let ghost sorted = self.queued_shipments@;
        let ghost l1 = self.latest_order;
        let n = self.queued_shipments.len();
        let mut k: usize = 0;
        proof {
            lemma_next_run(sorted, l1);
        }
        while k < n && self.latest_order < u64::MAX && self.queued_shipments[k].order
            == self.latest_order + 1
            invariant
                n == sorted.len(),
                self.queued_shipments@ == sorted,
                k <= next_run(sorted, l1),
                self.latest_order == l1 + k,
                forall|i: int| 0 <= i < next_run(sorted, l1) ==> #[trigger] sorted[i].order == l1
                    + 1 + i,
                next_run(sorted, l1) < sorted.len() ==> sorted[next_run(sorted, l1) as int].order
                    != run_end(sorted, l1) + 1,
                run_end(sorted, l1) == l1 + next_run(sorted, l1),
                next_run(sorted, l1) <= sorted.len(),
                self.response_order == old(self).response_order,
                self.order_backlog == old(self).order_backlog,
            decreases n - k,
        {
            self.latest_order = self.queued_shipments[k].order;
            k = k + 1;
        }
        let rest = self.queued_shipments.split_off(k);
        let ghost head = self.queued_shipments@;
        applied.append(&mut self.queued_shipments);
        self.queued_shipments = rest;
        assert(head =~= sorted.take(k as int));
        assert(self.queued_shipments@ =~= sorted.skip(k as int));
        applied
    }

    /// What the server does with a client's request for an earlier response: nothing when the
    /// request is 0 or names a response not yet sent; else the bytes of the kept response with
    /// that order number, or, when none is kept, the bytes of a reset shipment after starting over.
    pub fn answer_request(&mut self, ship_id: UniqueId, order_request: u64) -> (r: Option<
        Answer,
    >)
        ensures
            !(order_request != 0 && order_request <= old(self).response_order) ==> r is None
                && *final(self) == *old(self),
            (order_request != 0 && order_request <= old(self).response_order) ==> match find_order(
                old(self).order_backlog@,
                order_request,
            ) {
                Some(i) => r matches Some(Answer::Resend(b)) && b@ == shipment_wire(
                    old(self).order_backlog@[i]@,
                ) && *final(self) == *old(self),
                None => r matches Some(Answer::Reset(b)) && b@ == shipment_wire(reset_shipment(ship_id))
                    && final(self).latest_order == 0 && final(self).response_order == 0
                    && final(self).queued_shipments@.len() == 0
                    && final(self).order_backlog@.len() == 0,
            },
            old(self).backlog_wf() ==> final(self).backlog_wf(),
            old(self).queue_wf() ==> final(self).queue_wf(),
    {
        if !(order_request != 0 && order_request <= self.response_order) {
            return None;
        }
        let n = self.order_backlog.len();
        let mut i: usize = 0;
        assert(self.order_backlog@.skip(0) =~= self.order_backlog@);
        while i < n
            invariant
                n == self.order_backlog@.len(),
                i <= n,
                find_order(old(self).order_backlog@, order_request) == match find_order(
                    self.order_backlog@.skip(i as int),
                    order_request,
                ) {
                    Some(j) => Some(j + i),
                    None => None::<int>,
                },
                *self == *old(self),
                order_request != 0 && order_request <= old(self).response_order,
            decreases n - i,
        {
            let ghost tail = self.order_backlog@.skip(i as int);
            assert(tail.drop_first() =~= self.order_backlog@.skip(i + 1));
            if self.order_backlog[i].order == order_request {
                return Some(Answer::Resend(self.order_backlog[i].to_bytes()));
            }
            i = i + 1;
        }
        self.reset();
        let s = Shipment {
            ship_id,
            order: 0,
            reset: true,
            order_request: 0,
            tanks: Vec::new(),
        };
        assert(s@.tanks =~= Seq::<crate::shipment::TankView>::empty());
        Some(Answer::Reset(s.to_bytes()))
    }

    /// Numbers, keeps and encodes the next response, carrying `tanks`.
    pub fn respond(&mut self, ship_id: UniqueId, tanks: Vec<SpringTank>) -> (bytes: Vec<u8>)
        requires
            old(self).response_order < u64::MAX,
        ensures
            final(self).response_order == old(self).response_order + 1,
            ({
                let s = Shipment {
                    ship_id,
                    order_request: 0,
                    reset: false,
                    tanks,
                    order: (old(self).response_order + 1) as u64,
                };
                &&& bytes@ == shipment_wire(s@)
                &&& final(self).order_backlog@ == spec_new_backlog(old(self).order_backlog@, s)
            }),
            final(self).latest_order == old(self).latest_order,
            final(self).queued_shipments == old(self).queued_shipments,
            old(self).backlog_wf() ==> final(self).backlog_wf(),
    {
        let ghost old_backlog = self.order_backlog@;
        self.response_order = self.response_order + 1;
        let response_shipment = Shipment {
            ship_id,
            order_request: 0,
            reset: false,
            tanks,
            order: self.response_order,
        };
        let bytes = response_shipment.to_bytes();
        let ghost s = response_shipment;
        self.new_backlog(response_shipment);
        proof {
            if old(self).backlog_wf() {
                lemma_push_newest(old_backlog, s);
                lemma_backlog_bounded(old_backlog, s);
                let pushed = old_backlog.push(s);
                assert forall|i: int| 0 <= i < self.order_backlog@.len() implies #[trigger] self.order_backlog@[i].order
                    <= self.response_order by {
                    if pushed.len() > BACKLOG_MAX {
                        assert(self.order_backlog@[i] == pushed[i + 1]);
                    } else {
                        assert(self.order_backlog@[i] == pushed[i]);
                    }
                }
            }
        }
        bytes
    }

    /// What to do with one tank of an applied shipment, given whether a spring with its id
    /// exists and has ended: a tank for an unknown spring opens one, unless it only ends a
    /// connection without data; a tank for an ended spring is dropped.
    pub fn tank_action(spring_ended: Option<bool>, tank_ended: bool, data_empty: bool) -> (r:
        TankAction)
        ensures
            r == (match spring_ended {
                None => if tank_ended && data_empty {
                    TankAction::Skip
                } else {
                    TankAction::Open
                },
                Some(true) => TankAction::Skip,
                Some(false) => TankAction::Deliver { end: tank_ended },
            }),
    {
        match spring_ended {
            None => {
                if tank_ended && data_empty {
                    TankAction::Skip
                } else {
                    TankAction::Open
                }
            },
            Some(true) => TankAction::Skip,
            Some(false) => TankAction::Deliver { end: tank_ended },
        }
    }
}

} // verus!
