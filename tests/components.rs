use tp2::ack::{Ack, AckKind};
use tp2::ack_manager::{AckManager, MAX_TRIES};
use tp2::addr::{Addr, Datagram};
use tp2::gateway::GatewayPayment;
use tp2::ice_cream::{IceCreamContainer, StockTable};
use tp2::interface::Interface;
use tp2::leader_order_processing::{LeaderFlag, LeaderOrderProcessing, OrderEntry};
use tp2::log::{LogLevel, Logger};
use tp2::order::Order;
use tp2::protocol::DTO;
use tp2::record::{Record, RecordList};
use tp2::robot::{Outbox, Robot};
use tp2::status_order::StatusOrder;

fn texts_to(out: &[Datagram], to: Addr) -> Vec<String> {
    out.iter().filter(|d| d.to == to).map(|d| d.text.clone()).collect()
}

fn entry(id: usize) -> OrderEntry {
    OrderEntry {
        dto: DTO {
            id_order: id,
            id_interface: 1,
            ice_creams: vec!["Chocolate".to_string()],
            size_order: 250_000,
            cash_card: 1000,
            total_amount: 500,
        },
        body: format!("#{}", id),
    }
}

#[test]
fn container_deducts_only_what_it_has() {
    let mut c = IceCreamContainer::new(1_000);
    assert!(c.use_stock(400));
    assert_eq!(c.get_stock(), 600);
    assert!(!c.use_stock(601));
    assert_eq!(c.get_stock(), 600);
    assert!(c.use_stock(600));
    assert_eq!(c.get_stock(), 0);
}

#[test]
fn stock_deduction_is_all_or_nothing() {
    let mut t = StockTable::initial();
    let choc = "Chocolate".to_string();
    let fru = "Frutilla".to_string();
    assert_eq!(t.stock_of(&choc), Some(10_000_000));
    assert!(t.use_stock(&vec![choc.clone(), fru.clone()], 4_000_000));
    assert!(!t.use_stock(&vec![choc.clone(), fru.clone(), fru.clone()], 4_000_000));
    assert_eq!(t.stock_of(&choc), Some(6_000_000));
    assert_eq!(t.stock_of(&fru), Some(6_000_000));
    assert!(t.use_stock(&vec!["Pistacho".to_string()], 1));
    assert_eq!(t.stock_of(&"Pistacho".to_string()), None);
    assert!(t.use_stock(&vec![], 7));
}

#[test]
fn ack_clears_only_the_oldest_match() {
    let a = Addr::robot(1).unwrap();
    let mut m = AckManager::new();
    m.add(Ack::new(a, "Work:1".to_string(), AckKind::Work), 0, 100);
    m.add(Ack::new(a, "Work:2".to_string(), AckKind::Work), 0, 100);
    m.remove(AckKind::Work, a);
    let mut out = Vec::new();
    m.tick(100, &mut out);
    assert_eq!(texts_to(&out, a), vec!["Work:2".to_string()]);
    m.remove(AckKind::Hello, a);
    m.remove(AckKind::Work, Addr::robot(2).unwrap());
    assert!(!m.is_idle());
    m.remove(AckKind::Work, a);
    assert!(m.is_idle());
}

#[test]
fn records_are_dropped_after_max_tries_without_escalation() {
    let a = Addr::robot(4).unwrap();
    let mut m = AckManager::new();
    m.add(Ack::new(a, "Hello:1".to_string(), AckKind::Hello), 0, 0);
    let mut out = Vec::new();
    for t in 0..(MAX_TRIES as u64) {
        m.tick(t * 1000, &mut out);
    }
    assert_eq!(out.len(), MAX_TRIES);
    m.tick(10_000, &mut out);
    assert_eq!(out.len(), MAX_TRIES);
    assert!(m.is_idle());
}

#[test]
fn smallest_pending_id_is_dispatched_first() {
    let mut e = LeaderOrderProcessing::new();
    let src = Addr::interface(1).unwrap();
    let mut out = Vec::new();
    e.add_order(entry(9), src, 0, &mut out);
    e.add_order(entry(3), src, 0, &mut out);
    e.add_order(entry(6), src, 0, &mut out);
    let w1 = Addr::robot(1).unwrap();
    let w2 = Addr::robot(2).unwrap();
    let mut out = Vec::new();
    e.send_work_to_robot(w1, 0, &mut out);
    e.send_work_to_robot(w2, 0, &mut out);
    assert_eq!(texts_to(&out, w1), vec!["Work:#3".to_string()]);
    assert_eq!(texts_to(&out, w2), vec!["Work:#6".to_string()]);
    e.send_work_to_robot(w1, 0, &mut out);
    assert_eq!(texts_to(&out, w1).len(), 1);
}

#[test]
fn parked_worker_gets_the_next_order() {
    let mut e = LeaderOrderProcessing::new();
    let w = Addr::robot(7).unwrap();
    let src = Addr::interface(2).unwrap();
    let mut out = Vec::new();
    e.send_work_to_robot(w, 0, &mut out);
    e.send_work_to_robot(w, 0, &mut out);
    assert!(out.is_empty());
    e.add_order(entry(5), src, 1, &mut out);
    assert_eq!(texts_to(&out, src), vec!["Ack:Order".to_string()]);
    assert_eq!(texts_to(&out, w), vec!["Work:#5".to_string()]);
    let mut out = Vec::new();
    e.add_order(entry(8), src, 2, &mut out);
    assert_eq!(texts_to(&out, w), Vec::<String>::new());
    assert!(e.wait_for_orders());
}

#[test]
fn availability_completes_and_reassigns() {
    let mut e = LeaderOrderProcessing::new();
    let w = Addr::robot(3).unwrap();
    let src = Addr::interface(1).unwrap();
    let mut out = Vec::new();
    e.add_order(entry(1), src, 0, &mut out);
    e.add_order(entry(2), src, 0, &mut out);
    e.send_work_to_robot(w, 0, &mut out);
    e.finish_order(w);
    let mut out = Vec::new();
    e.send_work_to_robot(w, 10, &mut out);
    assert_eq!(texts_to(&out, w), vec!["Work:#2".to_string()]);
    let mut out = Vec::new();
    e.checking_work(1_000_000, &mut out);
    assert!(e.wait_for_orders());
    e.finish_order(w);
    e.send_work_to_robot(w, 1_000_001, &mut out);
    assert_eq!(texts_to(&out, w), vec!["Work:#2".to_string()]);
}

#[test]
fn duplicate_order_replaces_pending_and_ignores_assigned() {
    let mut e = LeaderOrderProcessing::new();
    let src = Addr::interface(1).unwrap();
    let w = Addr::robot(1).unwrap();
    let mut out = Vec::new();
    e.add_order(entry(4), src, 0, &mut out);
    e.add_order(entry(4), src, 0, &mut out);
    e.send_work_to_robot(w, 0, &mut out);
    assert!(!e.wait_for_orders());
    e.add_order(entry(4), src, 0, &mut out);
    assert!(!e.wait_for_orders());
}

#[test]
fn leader_flag_latches() {
    let mut f = LeaderFlag::new();
    assert!(!f.wait_for_leader());
    f.set_leader();
    assert!(f.wait_for_leader());
    f.set_leader();
    assert!(f.wait_for_leader());
    let mut e = LeaderOrderProcessing::new();
    assert!(!e.is_active());
    e.update_leader();
    assert!(e.is_active());
}

#[test]
fn election_forwards_or_declares() {
    let a1 = Addr::robot(1).unwrap();
    let a2 = Addr::robot(2).unwrap();
    let a4 = Addr::robot(4).unwrap();
    let mut r = Robot::new(3);
    let mut o = Outbox::new();
    r.handle_hello(1, a1, &mut o);
    r.handle_hello(2, a2, &mut o);
    let mut o = Outbox::new();
    r.handle_election(4, a4, &mut o);
    assert!(o.robot.is_empty());
    r.handle_election(1, a1, &mut o);
    assert_eq!(texts_to(&o.robot, a2), vec!["Election:3".to_string()]);
    assert!(!r.is_leader());

    let mut lone = Robot::new(8);
    let mut o = Outbox::new();
    lone.handle_hello(1, a1, &mut o);
    let mut o = Outbox::new();
    lone.handle_election(1, a1, &mut o);
    assert!(lone.is_leader());
    assert_eq!(texts_to(&o.robot, a1), vec!["Leader:8".to_string()]);
}

#[test]
fn follower_greets_joiner_and_frees_itself() {
    let a2 = Addr::robot(2).unwrap();
    let a3 = Addr::robot(3).unwrap();
    let mut r = Robot::new(6);
    let mut o = Outbox::new();
    r.handle_leader(2, a2, &mut o);
    let mut o = Outbox::new();
    r.handle_announce(3, a3, 0, &mut o);
    assert_eq!(texts_to(&o.robot, a3), vec!["Ack:Announce".to_string(), "Hello:6".to_string()]);
    assert!(!r.is_leader());
    let mut o = Outbox::new();
    r.handle_ack(AckKind::Resilience, Addr::interface(1).unwrap(), 0, &mut o);
    assert_eq!(texts_to(&o.robot, a2), vec!["Availability".to_string()]);
}

#[test]
fn robot_without_order_ignores_stock_result() {
    let mut r = Robot::new(4);
    let mut o = Outbox::new();
    assert!(r.handle_stock_result(true, Addr::leader(), &mut o).is_none());
    assert!(o.robot.is_empty());
}

#[test]
fn failed_stock_draws_shorter_delay() {
    let mut r = Robot::new(4);
    let mut o = Outbox::new();
    let d = DTO {
        id_order: 1,
        id_interface: 1,
        ice_creams: vec!["A".to_string(), "B".to_string(), "C".to_string()],
        size_order: 1_000_000,
        cash_card: 0,
        total_amount: 0,
    };
    r.handle_leader(2, Addr::robot(2).unwrap(), &mut o);
    let mut o = Outbox::new();
    r.handle_work(d, Addr::leader(), 0, &mut o);
    assert_eq!(
        texts_to(&o.robot, Addr::robot(2).unwrap()),
        vec!["UseStock:\"A,B,C\";0.333333".to_string()]
    );
    for _ in 0..20 {
        let mut o = Outbox::new();
        assert_eq!(r.handle_stock_result(false, Addr::leader(), &mut o), Some(2));
    }
}

#[test]
fn interface_prices_orders_by_size() {
    let mut i = Interface::new(3, "catalogue.json".to_string());
    let rec = |id: usize, size: u64| Record {
        id,
        client_id: 3,
        ice_creams: vec!["Vainilla".to_string()],
        size_order: size,
        cash_card: 2000,
    };
    let list = RecordList { orders: vec![rec(1, 250_000), rec(2, 500_000), rec(3, 1_000_000), rec(4, 750_000), rec(2, 250_000)] };
    i.load_orders(&list.get_records());
    let dtos = i.process_orders();
    let totals: Vec<(usize, usize)> = dtos.iter().map(|d| (d.id_order, d.total_amount)).collect();
    assert_eq!(totals, vec![(1, 500), (2, 500), (3, 1500), (4, 0)]);
    assert!(dtos.iter().all(|d| d.id_interface == 3));
    let fwd = i.handle_gateway(3, true).unwrap();
    assert_eq!(fwd.total_amount, 1500);
    assert!(i.handle_gateway(99, true).is_none());
    assert!(i.handle_gateway(3, false).is_none());
    let mut out = Vec::new();
    i.send_order_to_robot("{\"id_order\":3}".to_string(), 0, &mut out);
    assert_eq!(texts_to(&out, Addr::leader()), vec!["Order:{\"id_order\":3}".to_string()]);
    i.handle_ack(AckKind::Order, Addr::leader());
    let mut out = Vec::new();
    i.tick(100_000, &mut out);
    assert!(out.is_empty());
}

#[test]
fn settled_status_does_not_move() {
    let mut o = Order::new(1, 2, vec!["A".to_string()], 0, 500_000, 10);
    assert_eq!(o.get_status(), StatusOrder::Pending);
    o.change_status(StatusOrder::Canceled);
    o.change_status(StatusOrder::Completed);
    assert_eq!(o.get_status(), StatusOrder::Canceled);
    let d = Order::default();
    assert_eq!((d.id, d.id_client, d.total_price), (0, 1, 0));
    assert_eq!(o.copy().products, vec!["A".to_string()]);
    let two = Order::new(1, 2, vec!["A".to_string(), "B".to_string()], 0, 500_000, 10);
    assert_eq!(two.get_total_price(), 250_000);
}

#[test]
fn record_getters_return_fields() {
    let r = Record { id: 5, client_id: 6, ice_creams: vec!["X".to_string()], size_order: 7, cash_card: 8 };
    assert_eq!((r.get_id(), r.get_client_id(), r.get_size_order(), r.get_cash_card()), (5, 6, 7, 8));
    assert_eq!(r.get_ice_creams(), vec!["X".to_string()]);
}

#[test]
fn log_lines_are_coloured_labels() {
    assert_eq!(Logger.line(LogLevel::Error, "boom"), "\x1b[0;31m[Error]\x1b[0m boom");
    assert_eq!(Logger.line(LogLevel::GatewayPayment, "ok"), "\x1b[0;36m[Payment]\x1b[0m ok");
    assert_eq!(LogLevel::OrderAproved.label(), "Order Aproved");
    assert_eq!(LogLevel::AckInfo.color(), "0;94");
}

#[test]
fn gateway_notes_settlement() {
    let mut g = GatewayPayment::new();
    assert_eq!(g.finish_order(7, true), "Order 7 completed, payment done.");
    assert_eq!(g.finish_order(8, false), "Order 8 rejected, payment not done.");
}

#[test]
fn addresses_follow_the_port_plan() {
    assert_eq!(Addr::robot(5).unwrap().port, 6005);
    assert_eq!(Addr::interface(3).unwrap().port, 9003);
    assert_eq!(Addr::leader().port, 5000);
    assert!(Addr::interface(60_000).is_none());
}
