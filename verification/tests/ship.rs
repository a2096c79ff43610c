use evergreen::body::decode_shipment;
use evergreen::body::encode_bytes;
use evergreen::order::sort_shipments;
use evergreen::ship::{Answer, Ship, TankAction, BACKLOG_MAX};
use evergreen::shiper::{apply_action, RecoveryAction, ResponseOutcome, State, QUEUE_TOLERANCE};
use evergreen::shipment::{Shipment, SpringTank};
use evergreen::uid::UniqueId;
use evergreen::utils::SocksHost;

fn numbered(id: UniqueId, order: u64) -> Shipment {
    Shipment { ship_id: id, order, order_request: 0, reset: false, tanks: vec![] }
}

fn orders(v: &[Shipment]) -> Vec<u64> {
    v.iter().map(|s| s.order).collect()
}

#[test]
fn ship_applies_in_order() {
    let id = UniqueId::new(1);
    let mut ship = Ship::new();
    assert_eq!(orders(&ship.accept(numbered(id, 1))), vec![1]);
    assert_eq!(ship.latest_order, 1);
    assert_eq!(orders(&ship.accept(numbered(id, 3))), Vec::<u64>::new());
    assert_eq!(orders(&ship.accept(numbered(id, 5))), Vec::<u64>::new());
    assert_eq!(orders(&ship.queued_shipments), vec![3, 5]);
    assert_eq!(orders(&ship.accept(numbered(id, 2))), vec![2, 3]);
    assert_eq!(ship.latest_order, 3);
    assert_eq!(orders(&ship.queued_shipments), vec![5]);
    // an old shipment is dropped
    assert_eq!(orders(&ship.accept(numbered(id, 2))), Vec::<u64>::new());
    assert_eq!(ship.latest_order, 3);
    assert_eq!(orders(&ship.accept(numbered(id, 4))), vec![4, 5]);
    assert_eq!(ship.latest_order, 5);
    assert!(ship.queued_shipments.is_empty());
}

#[test]
fn ship_duplicate_waiting_shipment_stays() {
    let id = UniqueId::new(1);
    let mut ship = Ship::new();
    ship.latest_order = 3;
    ship.accept(numbered(id, 5));
    ship.accept(numbered(id, 5));
    ship.accept(numbered(id, 6));
    assert_eq!(orders(&ship.accept(numbered(id, 4))), vec![4, 5]);
    assert_eq!(ship.latest_order, 5);
    assert_eq!(orders(&ship.queued_shipments), vec![5, 6]);
}

#[test]
fn ship_backlog_keeps_the_newest() {
    let id = UniqueId::new(1);
    let mut ship = Ship::new();
    for o in (1..=35u64).rev() {
        ship.new_backlog(numbered(id, o));
    }
    assert_eq!(ship.order_backlog.len(), BACKLOG_MAX);
    // a response older than all thirty kept ones is dropped at once
    let expected: Vec<u64> = (6..=35).collect();
    assert_eq!(orders(&ship.order_backlog), expected);
    ship.new_backlog(numbered(id, 40));
    assert_eq!(ship.order_backlog.len(), 30);
    assert_eq!(ship.order_backlog[0].order, 7);
    assert_eq!(ship.order_backlog[29].order, 40);
}

#[test]
fn ship_responds_and_answers_requests() {
    let id = UniqueId::new(9);
    let mut ship = Ship::new();
    assert!(ship.answer_request(id, 1).is_none());
    let tank = SpringTank { id: UniqueId::new(4), ended: true, host: SocksHost::Ipv4([1, 1, 1, 1]), port: 53, data: vec![7] };
    let first = ship.respond(id, vec![tank]);
    let back = Shipment::read(&first).unwrap();
    assert_eq!(back.order, 1);
    assert_eq!(back.ship_id, id);
    assert_eq!(back.tanks.len(), 1);
    assert_eq!(back.tanks[0].data, vec![7]);
    let second = ship.respond(id, vec![]);
    assert_eq!(Shipment::read(&second).unwrap().order, 2);
    assert_eq!(ship.response_order, 2);
    assert!(ship.answer_request(id, 0).is_none());
    assert!(ship.answer_request(id, 3).is_none());
    assert!(matches!(ship.answer_request(id, 1), Some(Answer::Resend(b)) if b == first));
    assert!(matches!(ship.answer_request(id, 2), Some(Answer::Resend(b)) if b == second));
    ship.order_backlog.remove(0);
    let bytes = match ship.answer_request(id, 1) {
        Some(Answer::Reset(b)) => b,
        _ => panic!("expected a reset"),
    };
    let reset = Shipment::read(&bytes).unwrap();
    assert!(reset.reset);
    assert_eq!(reset.order, 0);
    assert!(reset.tanks.is_empty());
    assert_eq!(ship.response_order, 0);
    assert!(ship.order_backlog.is_empty());
}

#[test]
fn ship_reset_forgets_everything() {
    let id = UniqueId::new(1);
    let mut ship = Ship::new();
    ship.accept(numbered(id, 1));
    ship.accept(numbered(id, 4));
    ship.respond(id, vec![]);
    ship.reset();
    assert_eq!(ship.latest_order, 0);
    assert_eq!(ship.response_order, 0);
    assert!(ship.queued_shipments.is_empty());
    assert!(ship.order_backlog.is_empty());
}

#[test]
fn ship_tank_actions() {
    assert_eq!(Ship::tank_action(None, true, true), TankAction::Skip);
    assert_eq!(Ship::tank_action(None, true, false), TankAction::Open);
    assert_eq!(Ship::tank_action(None, false, true), TankAction::Open);
    assert_eq!(Ship::tank_action(Some(true), false, false), TankAction::Skip);
    assert_eq!(Ship::tank_action(Some(false), true, false), TankAction::Deliver { end: true });
    assert_eq!(Ship::tank_action(Some(false), false, true), TankAction::Deliver { end: false });
}

#[test]
fn sorting_is_stable() {
    let a = UniqueId::new(1);
    let b = UniqueId::new(2);
    let mut v = vec![numbered(a, 3), numbered(a, 1), numbered(b, 3), numbered(b, 1), numbered(a, 2)];
    sort_shipments(&mut v);
    assert_eq!(orders(&v), vec![1, 1, 2, 3, 3]);
    assert_eq!(v[0].ship_id, a);
    assert_eq!(v[1].ship_id, b);
    assert_eq!(v[3].ship_id, a);
    assert_eq!(v[4].ship_id, b);
}

#[test]
fn client_state_numbers_and_resets() {
    let mut st = State::new();
    assert_eq!(st.order, 0);
    assert_eq!(st.next_order(), 1);
    assert_eq!(st.next_order(), 2);
    let first_id = st.ship_id;
    st.queue(numbered(first_id, 9));
    st.reset();
    assert_ne!(st.ship_id, first_id);
    assert_eq!(st.order, 0);
    assert_eq!(st.cycle, 1);
    assert!(st.queued_shipments.is_empty());
    assert!(!st.reset_if(0));
    assert_eq!(st.cycle, 1);
    st.cycle = u64::MAX;
    assert!(st.reset_if(u64::MAX));
    assert_eq!(st.cycle, 0);
}

#[test]
fn client_state_puts_responses_in_order() {
    let mut st = State::new();
    let id = st.ship_id;
    assert!(matches!(st.on_response(0, numbered(id, 2)), ResponseOutcome::Queued));
    assert!(matches!(st.on_response(0, numbered(id, 4)), ResponseOutcome::Queued));
    assert!(matches!(st.on_response(1, numbered(id, 1)), ResponseOutcome::Stale));
    match st.on_response(0, numbered(id, 1)) {
        ResponseOutcome::Applied(v) => assert_eq!(orders(&v), vec![1, 2]),
        _ => panic!("expected applied"),
    }
    assert_eq!(st.response_order, 2);
    assert_eq!(orders(&st.queued_shipments), vec![4]);
    // an old response is applied again and moves the latest order number back
    match st.on_response(0, numbered(id, 1)) {
        ResponseOutcome::Applied(v) => assert_eq!(orders(&v), vec![1]),
        _ => panic!("expected applied"),
    }
    assert_eq!(st.response_order, 1);
    let mut reset = numbered(id, 0);
    reset.reset = true;
    assert!(matches!(st.on_response(0, reset), ResponseOutcome::Reset));
    assert_eq!(st.cycle, 1);
    assert_eq!(st.response_order, 0);
    assert!(st.queued_shipments.is_empty());
}

#[test]
fn client_recovery_asks_for_missing_orders() {
    let mut st = State::new();
    let id = st.ship_id;
    st.response_order = 1;
    for o in [12u64, 4, 6, 7, 9, 10, 11, 14] {
        st.queue(numbered(id, o));
    }
    assert!(st.queued_shipments.len() > QUEUE_TOLERANCE);
    assert!(st.needs_recovery());
    let mut rec = st.start_recovery();
    assert!(st.queued_shipments.is_empty());
    let mut asked = Vec::new();
    let mut applied = Vec::new();
    loop {
        match st.recovery_step(&mut rec) {
            RecoveryAction::Request(n) => {
                asked.push(n);
                assert!(!st.on_recovered(&numbered(id, n)));
                assert_eq!(st.response_order, n);
            }
            RecoveryAction::Apply(q) => {
                assert_eq!(st.response_order, q.order);
                applied.push(q.order);
            }
            RecoveryAction::Done => break,
        }
    }
    assert_eq!(asked, vec![2, 3, 5, 8, 13]);
    assert_eq!(applied, vec![4, 6, 7, 9, 10, 11, 12, 14]);
    assert_eq!(st.response_order, 14);
    let mut reset = numbered(id, 0);
    reset.reset = true;
    assert!(st.on_recovered(&reset));
    assert_eq!(st.cycle, 1);
}

#[test]
fn client_recovery_not_needed_with_few_waiting() {
    let mut st = State::new();
    let id = st.ship_id;
    for o in 3..10u64 {
        st.queue(numbered(id, o));
    }
    assert!(!st.needs_recovery());
}

#[test]
fn client_apply_actions() {
    assert_eq!(apply_action(None, false), TankAction::Skip);
    assert_eq!(apply_action(Some(true), true), TankAction::Skip);
    assert_eq!(apply_action(Some(false), true), TankAction::Deliver { end: true });
    assert_eq!(apply_action(Some(false), false), TankAction::Deliver { end: false });
}

#[test]
fn client_request_for_missing_response() {
    let st = State::new();
    let bytes = st.request_for(6);
    let s = decode_shipment(&encode_bytes(&bytes)).unwrap();
    assert_eq!(s.ship_id, st.ship_id);
    assert_eq!(s.order_request, 6);
    assert_eq!(s.order, 0);
    assert!(!s.reset);
    assert!(s.tanks.is_empty());
}

#[test]
fn client_shipments_numbered_per_cycle() {
    let mut st = State::new();
    let a = st.next_shipment(vec![]);
    let b = st.next_shipment(vec![]);
    assert_eq!((a.order, b.order), (1, 2));
    assert_eq!(a.ship_id, st.ship_id);
    assert_eq!(a.order_request, 0);
    assert!(!a.reset);
    st.reset();
    let c = st.next_shipment(vec![]);
    assert_eq!(c.order, 1);
    assert_eq!(c.ship_id, st.ship_id);
    assert_ne!(c.ship_id, a.ship_id);
}
