//! The client's side of a ship: numbering the shipments it sends and putting the responses
//! back in order.
use crate::order::{sort_by_order, sort_shipments};
use crate::order::{is_sorted_by_order, lemma_sort_by_order};
use crate::ship::{lemma_next_run, next_run, run_end, TankAction};
use crate::shipment::{shipment_wire, Shipment, ShipmentView, SpringTank};
use crate::uid::UniqueId;
use vstd::prelude::*;

verus! {

/// The index of the identifier of a fresh ship.
pub const FIRST_SHIP_INDEX: u64 = 77;

/// The index of the identifier of a ship started over.
pub const RESET_SHIP_INDEX: u64 = 44;

/// The client's state of its ship.
pub struct State {
    pub ship_id: UniqueId,
    pub order: u64,
    pub response_order: u64,
    pub queued_shipments: Vec<Shipment>,
    pub cycle: u64,
    /// The order numbers of the shipments sent in this cycle, in the order they were numbered.
    pub sent: Ghost<Seq<u64>>,
}

/// The order numbers of a cycle in which `n` shipments were sent: 1, 2, ..., `n`.
pub open spec fn cycle_orders(n: u64) -> Seq<u64> {
    Seq::new(n as nat, |i: int| (i + 1) as u64)
}

/// How many responses may wait before the client asks again for the ones missing before them.
pub const QUEUE_TOLERANCE: usize = 7;

/// A pass over the waiting responses, in order, that asks again for every response missing
/// before each of them and then applies it.
pub struct Recovery {
    waiting: Vec<Shipment>,
    asked: u64,
}

/// The next step of a recovery.
pub enum RecoveryAction {
    /// Ask the server again for the response with this order number.
    Request(u64),
    /// Apply this waiting response now.
    Apply(Shipment),
    /// Every waiting response has been applied.
    Done,
}

impl Recovery {
    /// The waiting responses not yet applied, in the order they will be.
    pub closed spec fn waiting(&self) -> Seq<Shipment> {
        self.waiting@
    }

    /// The order number after which the missing responses are still to be asked for.
    pub closed spec fn asked(&self) -> u64 {
        self.asked
    }
}

/// The order numbers a recovery asks for, in that order: after `asked`, every number below the
/// first waiting response, then every number between it and the next one, and so on.
pub open spec fn missing_orders(asked: u64, waiting: Seq<Shipment>) -> Seq<u64>
    decreases waiting.len(), (if waiting.len() > 0 {
        waiting[0].order - asked
    } else {
        0
    }),
{
    if waiting.len() == 0 {
        Seq::empty()
    } else if asked + 1 < waiting[0].order {
        seq![(asked + 1) as u64] + missing_orders((asked + 1) as u64, waiting)
    } else {
        missing_orders(waiting[0].order, waiting.drop_first())
    }
}

/// A recovery over sorted waiting responses, none of them at or before the latest applied
/// order number, asks for each missing order number exactly once, in increasing order: the
/// numbers after the latest applied one and before the last waiting one that no waiting
/// response carries.
pub proof fn lemma_recovery_asks_missing(asked: u64, waiting: Seq<Shipment>)
    requires
        is_sorted_by_order(waiting),
        forall|i: int| 0 <= i < waiting.len() ==> asked <= #[trigger] waiting[i].order,
    ensures
        forall|n: u64|
            #![trigger missing_orders(asked, waiting).contains(n)]
            missing_orders(asked, waiting).contains(n) <==> (waiting.len() > 0 && asked < n
                < waiting.last().order && forall|i: int|
                0 <= i < waiting.len() ==> #[trigger] waiting[i].order != n),
        forall|i: int, j: int|
            0 <= i < j < missing_orders(asked, waiting).len() ==> missing_orders(asked, waiting)[i]
                < missing_orders(asked, waiting)[j],
        forall|i: int|
            0 <= i < missing_orders(asked, waiting).len() ==> asked < #[trigger] missing_orders(
                asked,
                waiting,
            )[i],
    decreases waiting.len(), (if waiting.len() > 0 {
        waiting[0].order - asked
    } else {
        0
    }),
{
    let m = missing_orders(asked, waiting);
    if waiting.len() == 0 {
    } else if asked + 1 < waiting[0].order {
        let a1 = (asked + 1) as u64;
        lemma_recovery_asks_missing(a1, waiting);
        let rest = missing_orders(a1, waiting);
        assert(m == seq![a1] + rest);
        assert forall|n: u64|
            #![trigger m.contains(n)]
            m.contains(n) <==> (waiting.len() > 0 && asked < n < waiting.last().order && forall|
                i: int,
            | 0 <= i < waiting.len() ==> #[trigger] waiting[i].order != n) by {
            if m.contains(n) {
                let k = choose|k: int| 0 <= k < m.len() && m[k] == n;
                if k > 0 {
                    assert(rest[k - 1] == n);
                    assert(rest.contains(n));
                } else {
                    assert(waiting[0].order <= waiting.last().order);
                    assert forall|i: int| 0 <= i < waiting.len() implies #[trigger] waiting[i].order
                        != n by {
                        assert(waiting[0].order <= waiting[i].order);
                    }
                }
            }
            if waiting.len() > 0 && asked < n < waiting.last().order && forall|i: int|
                0 <= i < waiting.len() ==> #[trigger] waiting[i].order != n {
                if n == a1 {
                    assert(m[0] == n);
                } else {
                    assert(rest.contains(n));
                    let k = choose|k: int| 0 <= k < rest.len() && rest[k] == n;
                    assert(m[k + 1] == n);
                }
            }
        }
        assert forall|i: int, j: int| 0 <= i < j < m.len() implies m[i] < m[j] by {
            if i > 0 {
                assert(m[i] == rest[i - 1]);
            }
            assert(m[j] == rest[j - 1]);
        }
        assert forall|i: int| 0 <= i < m.len() implies asked < #[trigger] m[i] by {
            if i > 0 {
                assert(m[i] == rest[i - 1]);
            }
        }
    } else {
        let w1 = waiting.drop_first();
        let a1 = waiting[0].order;
        assert(is_sorted_by_order(w1));
        assert forall|i: int| 0 <= i < w1.len() implies a1 <= #[trigger] w1[i].order by {
            assert(w1[i] == waiting[i + 1]);
        }
        lemma_recovery_asks_missing(a1, w1);
        assert(m == missing_orders(a1, w1));
        assert forall|n: u64|
            #![trigger m.contains(n)]
            m.contains(n) <==> (waiting.len() > 0 && asked < n < waiting.last().order && forall|
                i: int,
            | 0 <= i < waiting.len() ==> #[trigger] waiting[i].order != n) by {
            if w1.len() > 0 {
                assert(w1.last() == waiting.last());
            }
            if m.contains(n) {
                assert forall|i: int| 0 <= i < waiting.len() implies #[trigger] waiting[i].order
                    != n by {
                    if i > 0 {
                        assert(waiting[i] == w1[i - 1]);
                    }
                }
            }
            if waiting.len() > 0 && asked < n < waiting.last().order && forall|i: int|
                0 <= i < waiting.len() ==> #[trigger] waiting[i].order != n {
                assert(waiting[0].order != n);
                assert(w1.len() > 0);
                assert forall|i: int| 0 <= i < w1.len() implies #[trigger] w1[i].order != n by {
                    assert(w1[i] == waiting[i + 1]);
                }
            }
        }
    }
}

/// What became of a response.
pub enum ResponseOutcome {
    /// It belongs to an earlier cycle of the ship; nothing changed.
    Stale,
    /// The server asked to start over, and the ship did.
    Reset,
    /// It came before its turn and waits.
    Queued,
    /// These shipments are applied now, in this order.
    Applied(Vec<Shipment>),
}

/// What accepting the response `s` does to the latest applied order number and the waiting
/// responses: one that skips ahead waits; any other is applied, its order number becoming the
/// latest, followed by every waiting one that continues the run.
pub open spec fn spec_on_response(latest: u64, queued: Seq<Shipment>, s: Shipment) -> (
    Seq<Shipment>,
    Seq<Shipment>,
    u64,
) {
    if s.order > latest + 1 {
        (Seq::empty(), queued.push(s), latest)
    } else {
        let sorted = sort_by_order(queued);
        let k = next_run(sorted, s.order) as int;
        (seq![s] + sorted.take(k), sorted.skip(k), run_end(sorted, s.order))
    }
}

/// What to do with one tank of a response, given whether the spring it belongs to is known
/// and has ended: a tank for an unknown or ended spring is dropped; the data of any other
/// goes to its spring, which ends with the tank.
pub fn apply_action(spring_ended: Option<bool>, tank_ended: bool) -> (r: TankAction)
    ensures
        r == (match spring_ended {
            Some(false) => TankAction::Deliver { end: tank_ended },
            _ => TankAction::Skip,
        }),
{
    match spring_ended {
        Some(false) => TankAction::Deliver { end: tank_ended },
        _ => TankAction::Skip,
    }
}

/// The request the client sends for a missed response `needed`.
pub open spec fn request_view(ship_id: UniqueId, needed: u64) -> ShipmentView {
    ShipmentView { ship_id, order_request: needed, reset: false, order: 0, tanks: Seq::empty() }
}

/// Responses are applied in order: after the first, each applied response is numbered one
/// after the previous, and the latest applied order number ends at the last of them.
pub proof fn lemma_response_in_order(latest: u64, queued: Seq<Shipment>, s: Shipment)
    ensures
        ({
            let (applied, waiting, l) = spec_on_response(latest, queued, s);
            &&& forall|i: int| 0 <= i < applied.len() ==> #[trigger] applied[i].order == s.order + i
            &&& applied.len() > 0 ==> l == s.order + applied.len() - 1
            &&& applied.len() == 0 ==> l == latest
        }),
{
    if s.order <= latest + 1 {
        let sorted = sort_by_order(queued);
        lemma_next_run(sorted, s.order);
        let k = next_run(sorted, s.order) as int;
        let applied = seq![s] + sorted.take(k);
        assert forall|i: int| 0 <= i < applied.len() implies #[trigger] applied[i].order == s.order
            + i by {
            if i > 0 {
                assert(applied[i] == sorted[i - 1]);
            }
        }
    }
}

/// No response is lost: the responses applied and those left waiting are, together, the
/// responses that were waiting and the new one, each as often as before.
pub proof fn lemma_response_keeps_all(latest: u64, queued: Seq<Shipment>, s: Shipment)
    ensures
        ({
            let (applied, waiting, l) = spec_on_response(latest, queued, s);
            applied.to_multiset().add(waiting.to_multiset()) == queued.push(s).to_multiset()
        }),
{
    broadcast use vstd::seq_lib::group_to_multiset_ensures;
    let (applied, waiting, l) = spec_on_response(latest, queued, s);
    if s.order > latest + 1 {
        assert(applied.to_multiset() =~= vstd::multiset::Multiset::empty());
        assert(applied.to_multiset().add(waiting.to_multiset()) =~= waiting.to_multiset());
    } else {
        let sorted = sort_by_order(queued);
        lemma_sort_by_order(queued);
        let k = next_run(sorted, s.order) as int;
        lemma_next_run(sorted, s.order);
        let first: Seq<Shipment> = seq![s];
        assert(sorted =~= sorted.take(k) + sorted.skip(k));
        vstd::seq_lib::lemma_multiset_commutative(sorted.take(k), sorted.skip(k));
        vstd::seq_lib::lemma_multiset_commutative(first, sorted.take(k));
        assert(first =~= Seq::<Shipment>::empty().push(s));
        assert(queued.push(s) =~= queued + first);
        vstd::seq_lib::lemma_multiset_commutative(queued, first);
        assert(applied.to_multiset().add(waiting.to_multiset()) =~= queued.push(s).to_multiset());
    }
}

/// In a cycle in which `n` shipments were sent, the `i`-th one sent has order number `i + 1`:
/// each number from 1 to `n` was used exactly once, and no other.
pub proof fn lemma_cycle_orders(n: u64)
    ensures
        cycle_orders(n).len() == n,
        forall|i: int| 0 <= i < n ==> #[trigger] cycle_orders(n)[i] == i + 1,
        forall|i: int, j: int|
            0 <= i < j < n ==> #[trigger] cycle_orders(n)[i] != #[trigger] cycle_orders(n)[j],
        forall|o: u64| #[trigger] cycle_orders(n).contains(o) <==> 1 <= o <= n,
{
    assert forall|o: u64| #[trigger] cycle_orders(n).contains(o) <==> 1 <= o <= n by {
        if 1 <= o <= n {
            assert(cycle_orders(n)[o - 1] == o);
        }
    }
}

impl State {
    /// In every cycle the shipments sent are numbered 1, 2, 3, ..., each number once, and
    /// `order` is the number of the last one.
    pub open spec fn wf(&self) -> bool {
        self.sent@ == cycle_orders(self.order)
    }

    /// A fresh ship.
    pub fn new() -> (r: State)
        ensures
            r.ship_id.spec_index() == FIRST_SHIP_INDEX,
            r.order == 0,
            r.response_order == 0,
            r.cycle == 0,
            r.queued_shipments@.len() == 0,
            r.wf(),
    {
        let r = State {
            ship_id: UniqueId::new(FIRST_SHIP_INDEX),
            order: 0,
            response_order: 0,
            cycle: 0,
            queued_shipments: Vec::new(),
            sent: Ghost(Seq::empty()),
        };
        assert(r.sent@ =~= cycle_orders(0));
        r
    }

    /// Starts the ship over under a new identifier, in the next cycle.
    pub fn reset(&mut self)
        ensures
            final(self).ship_id.spec_index() == RESET_SHIP_INDEX,
            final(self).order == 0,
            final(self).response_order == 0,
            final(self).queued_shipments@.len() == 0,
            final(self).cycle == (if old(self).cycle == u64::MAX {
                0
            } else {
                (old(self).cycle + 1) as u64
            }),
            final(self).wf(),
    {
        self.ship_id = UniqueId::new(RESET_SHIP_INDEX);
        self.sent = Ghost(Seq::empty());
        assert(self.sent@ =~= cycle_orders(0));
        self.order = 0;
        self.response_order = 0;
        self.queued_shipments.clear();
        self.cycle = self.cycle.wrapping_add(1);
    }

    /// Keeps a response that came before its turn; returns how many wait.
    pub fn queue(&mut self, shipment: Shipment) -> (n: usize)
        ensures
            final(self).queued_shipments@ == old(self).queued_shipments@.push(shipment),
            n == final(self).queued_shipments@.len(),
            final(self).ship_id == old(self).ship_id,
            final(self).order == old(self).order,
            final(self).response_order == old(self).response_order,
            final(self).cycle == old(self).cycle,
            old(self).wf() ==> final(self).wf(),
    {
        self.queued_shipments.push(shipment);
        self.queued_shipments.len()
    }

    /// Numbers the next shipment to send.
    pub fn next_order(&mut self) -> (order: u64)
        requires
            old(self).order < u64::MAX,
        ensures
            order == old(self).order + 1,
            final(self).order == order,
            final(self).ship_id == old(self).ship_id,
            final(self).response_order == old(self).response_order,
            final(self).queued_shipments == old(self).queued_shipments,
            final(self).cycle == old(self).cycle,
            final(self).sent@ == old(self).sent@.push(order),
            old(self).wf() ==> final(self).wf(),
    {
        self.order = self.order + 1;
        self.sent = Ghost(self.sent@.push(self.order));
        assert(old(self).wf() ==> self.sent@ =~= cycle_orders(self.order));
        self.order
    }

    /// The next shipment to send, carrying `tanks`: the ship's identifier and the next order
    /// number, asking for nothing and not resetting.
    pub fn next_shipment(&mut self, tanks: Vec<SpringTank>) -> (r: Shipment)
        requires
            old(self).order < u64::MAX,
        ensures
            r.ship_id == old(self).ship_id,
            r.order == old(self).order + 1,
            r.order_request == 0,
            !r.reset,
            r.tanks == tanks,
            final(self).order == r.order,
            final(self).sent@ == old(self).sent@.push(r.order),
            final(self).ship_id == old(self).ship_id,
            final(self).response_order == old(self).response_order,
            final(self).queued_shipments == old(self).queued_shipments,
            final(self).cycle == old(self).cycle,
            old(self).wf() ==> final(self).wf(),
    {
        let order = self.next_order();
        Shipment { ship_id: self.ship_id, order, order_request: 0, reset: false, tanks }
    }

    /// Starts over when the ship is still in `cycle`; returns whether it did.
    pub fn reset_if(&mut self, cycle: u64) -> (r: bool)
        ensures
            r == (old(self).cycle == cycle),
            !r ==> *final(self) == *old(self),
            r ==> final(self).ship_id.spec_index() == RESET_SHIP_INDEX && final(self).order == 0
                && final(self).response_order == 0 && final(self).queued_shipments@.len() == 0
                && final(self).cycle == (if cycle == u64::MAX {
                0
            } else {
                (cycle + 1) as u64
            }),
            old(self).wf() ==> final(self).wf(),
    {
        if self.cycle == cycle {
            self.reset();
            true
        } else {
            false
        }
    }

    /// Takes a response sent in `cycle` and tells what became of it.
    pub fn on_response(&mut self, cycle: u64, shipment: Shipment) -> (r: ResponseOutcome)
        ensures
            (shipment.reset && old(self).cycle == cycle) ==> r is Reset
                && final(self).ship_id.spec_index() == RESET_SHIP_INDEX && final(self).order == 0
                && final(self).response_order == 0 && final(self).queued_shipments@.len() == 0
                && final(self).cycle == (if cycle == u64::MAX {
                0
            } else {
                (cycle + 1) as u64
            }),
            (old(self).cycle != cycle) ==> r is Stale && *final(self) == *old(self),
            (!shipment.reset && old(self).cycle == cycle) ==> ({
                let (applied, waiting, l) = spec_on_response(
                    old(self).response_order,
                    old(self).queued_shipments@,
                    shipment,
                );
                &&& final(self).queued_shipments@ == waiting
                &&& final(self).response_order == l
                &&& final(self).ship_id == old(self).ship_id
                &&& final(self).order == old(self).order
                &&& final(self).cycle == old(self).cycle
                &&& match r {
                    ResponseOutcome::Queued => applied.len() == 0,
                    ResponseOutcome::Applied(v) => v@ == applied && applied.len() > 0,
                    _ => false,
                }
            }),
            old(self).wf() ==> final(self).wf(),
    {
        if shipment.reset {
            if self.reset_if(cycle) {
                return ResponseOutcome::Reset;
            }
            return ResponseOutcome::Stale;
        }
        if self.cycle != cycle {
            return ResponseOutcome::Stale;
        }
        if shipment.order > self.response_order && shipment.order - self.response_order > 1 {
            self.queue(shipment);
            return ResponseOutcome::Queued;
        }
        self.response_order = shipment.order;
        let mut applied: Vec<Shipment> = Vec::new();
        applied.push(shipment);
        sort_shipments(&mut self.queued_shipments);
        let ghost sorted = self.queued_shipments@;
        let ghost l1 = self.response_order;
        let n = self.queued_shipments.len();
        let mut k: usize = 0;
        proof {
            lemma_next_run(sorted, l1);
        }
        while k < n && self.response_order < u64::MAX && self.queued_shipments[k].order
            == self.response_order + 1
            invariant
                n == sorted.len(),
                self.queued_shipments@ == sorted,
                k <= next_run(sorted, l1),
                self.response_order == l1 + k,
                forall|i: int| 0 <= i < next_run(sorted, l1) ==> #[trigger] sorted[i].order == l1
                    + 1 + i,
                next_run(sorted, l1) < sorted.len() ==> sorted[next_run(sorted, l1) as int].order
                    != run_end(sorted, l1) + 1,
                run_end(sorted, l1) == l1 + next_run(sorted, l1),
                next_run(sorted, l1) <= sorted.len(),
                self.ship_id == old(self).ship_id,
                self.order == old(self).order,
                self.cycle == old(self).cycle,
                self.sent == old(self).sent,
            decreases n - k,
        {
            self.response_order = self.queued_shipments[k].order;
            k = k + 1;
        }
        let rest = self.queued_shipments.split_off(k);
        let ghost head = self.queued_shipments@;
        applied.append(&mut self.queued_shipments);
        self.queued_shipments = rest;
        assert(head =~= sorted.take(k as int));
        assert(self.queued_shipments@ =~= sorted.skip(k as int));
        ResponseOutcome::Applied(applied)
    }

    /// Whether so many responses wait that the client should ask for the missing ones.
    pub fn needs_recovery(&self) -> (r: bool)
        ensures
            r == (self.queued_shipments@.len() > QUEUE_TOLERANCE),
    {
        self.queued_shipments.len() > QUEUE_TOLERANCE
    }

    /// Starts a recovery: the waiting responses, sorted by order number, leave the queue for
    /// the recovery, which starts after the latest applied order number.
    pub fn start_recovery(&mut self) -> (r: Recovery)
        ensures
            r.waiting() == sort_by_order(old(self).queued_shipments@),
            r.asked() == old(self).response_order,
            final(self).queued_shipments@.len() == 0,
            final(self).ship_id == old(self).ship_id,
            final(self).order == old(self).order,
            final(self).response_order == old(self).response_order,
            final(self).cycle == old(self).cycle,
            old(self).wf() ==> final(self).wf(),
    {
        sort_shipments(&mut self.queued_shipments);
        let mut waiting: Vec<Shipment> = Vec::new();
        std::mem::swap(&mut waiting, &mut self.queued_shipments);
        Recovery { waiting, asked: self.response_order }
    }

    /// The next step of a recovery: a request for the next missing order number before the
    /// first waiting response, or else that response, which becomes the latest applied one.
    pub fn recovery_step(&mut self, rec: &mut Recovery) -> (r: RecoveryAction)
        ensures
            old(rec).waiting().len() == 0 ==> r is Done && *final(rec) == *old(rec)
                && *final(self) == *old(self),
            old(rec).waiting().len() > 0 && old(rec).asked() + 1 < old(rec).waiting()[0].order
                ==> r == RecoveryAction::Request((old(rec).asked() + 1) as u64)
                && final(rec).asked() == old(rec).asked() + 1
                && final(rec).waiting() == old(rec).waiting() && *final(self) == *old(self),
            old(rec).waiting().len() > 0 && old(rec).asked() + 1 >= old(rec).waiting()[0].order
                ==> r == RecoveryAction::Apply(old(rec).waiting()[0])
                && final(rec).waiting() == old(rec).waiting().drop_first()
                && final(rec).asked() == old(rec).waiting()[0].order
                && final(self).response_order == old(rec).waiting()[0].order
                && final(self).ship_id == old(self).ship_id && final(self).order == old(self).order
                && final(self).queued_shipments == old(self).queued_shipments
                && final(self).cycle == old(self).cycle,
            missing_orders(old(rec).asked(), old(rec).waiting()) == (match r {
                RecoveryAction::Request(n) => seq![n],
                _ => Seq::empty(),
            }) + missing_orders(final(rec).asked(), final(rec).waiting()),
            old(self).wf() ==> final(self).wf(),
    {
        if rec.waiting.len() == 0 {
            return RecoveryAction::Done;
        }
        let next = rec.waiting[0].order;
        if next > rec.asked && next - rec.asked > 1 {
            rec.asked = rec.asked + 1;
            return RecoveryAction::Request(rec.asked);
        }
        let q = rec.waiting.remove(0);
        assert(rec.waiting@ =~= old(rec).waiting@.drop_first());
        rec.asked = q.order;
        self.response_order = q.order;
        RecoveryAction::Apply(q)
    }

    /// Takes the server's answer to a request made during a recovery: a reset starts the ship
    /// over (and ends the recovery); any other answer becomes the latest applied response.
    pub fn on_recovered(&mut self, shipment: &Shipment) -> (reset: bool)
        requires
            shipment.ship_id == old(self).ship_id,
        ensures
            reset == shipment.reset,
            reset ==> final(self).ship_id.spec_index() == RESET_SHIP_INDEX && final(self).order == 0
                && final(self).response_order == 0 && final(self).queued_shipments@.len() == 0
                && final(self).cycle == (if old(self).cycle == u64::MAX {
                0
            } else {
                (old(self).cycle + 1) as u64
            }),
            !reset ==> final(self).response_order == shipment.order && final(self).ship_id
                == old(self).ship_id && final(self).order == old(self).order
                && final(self).queued_shipments == old(self).queued_shipments && final(self).cycle
                == old(self).cycle,
            old(self).wf() ==> final(self).wf(),
    {
        if shipment.reset {
            self.reset();
            return true;
        }
        self.response_order = shipment.order;
        false
    }

    /// The bytes of the request for the missed response `needed`.
    pub fn request_for(&self, needed: u64) -> (r: Vec<u8>)
        ensures
            r@ == shipment_wire(request_view(self.ship_id, needed)),
    {
        let s = Shipment {
            ship_id: self.ship_id,
            order_request: needed,
            reset: false,
            order: 0,
            tanks: Vec::new(),
        };
        assert(s@.tanks =~= Seq::<crate::shipment::TankView>::empty());
        s.to_bytes()
    }
}

} // verus!
