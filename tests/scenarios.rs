use tp2::ack::{Ack, AckKind};
use tp2::ack_manager::AckManager;
use tp2::addr::{Addr, Datagram};
use tp2::gateway::GatewayPayment;
use tp2::ice_cream::StockTable;
use tp2::interface::Interface;
use tp2::leader_order_processing::{LeaderOrderProcessing, OrderEntry};
use tp2::protocol::{Message, DTO};
use tp2::record::Record;
use tp2::robot::{Outbox, Robot};
use tp2::status_order::StatusOrder;

fn texts_to(out: &[Datagram], to: Addr) -> Vec<String> {
    out.iter().filter(|d| d.to == to).map(|d| d.text.clone()).collect()
}

fn dto(id: usize, interface: usize, flavours: &[&str], size: u64, card: usize, total: usize) -> DTO {
    DTO {
        id_order: id,
        id_interface: interface,
        ice_creams: flavours.iter().map(|s| s.to_string()).collect(),
        size_order: size,
        cash_card: card,
        total_amount: total,
    }
}

fn entry(d: DTO) -> OrderEntry {
    let body = format!("{{\"id_order\":{}}}", d.id_order);
    OrderEntry { dto: d, body }
}

#[test]
fn happy_path_order_is_completed() {
    let a3 = Addr::robot(3).unwrap();
    let a5 = Addr::robot(5).unwrap();
    let leader_sock = Addr::leader();
    let mut r3 = Robot::new(3);
    let mut r5 = Robot::new(5);

    let mut o3 = Outbox::new();
    r3.handle_announce(5, a5, 0, &mut o3);
    assert!(r3.is_leader());
    assert_eq!(texts_to(&o3.robot, a5), vec!["Ack:Announce".to_string(), "Leader:3".to_string()]);
    let mut o5 = Outbox::new();
    r5.handle_leader(3, a3, &mut o5);
    assert_eq!(r5.get_leader(), Some(a3));

    let iface = Addr::interface(1).unwrap();
    let order = dto(7, 1, &["Chocolate"], 250_000, 1000, 0);
    let mut o3 = Outbox::new();
    r3.leader_add_order(entry(order.copy()), iface, 10, &mut o3);
    assert_eq!(texts_to(&o3.leader, iface), vec!["Ack:Order".to_string()]);
    assert_eq!(texts_to(&o3.leader, a5), vec!["Work:{\"id_order\":7}".to_string()]);

    let mut o5 = Outbox::new();
    r5.handle_work(order, leader_sock, 20, &mut o5);
    assert_eq!(texts_to(&o5.robot, leader_sock), vec!["Ack:Work".to_string()]);
    assert_eq!(texts_to(&o5.robot, a3), vec!["UseStock:\"Chocolate\";0.25".to_string()]);

    let mut o3 = Outbox::new();
    r3.handle_use_stock(&vec!["Chocolate".to_string()], 250_000, a5, 30, &mut o3);
    assert_eq!(texts_to(&o3.leader, a5), vec!["StockResult:true".to_string()]);
    assert_eq!(r3.engine().stock_of(&"Chocolate".to_string()), Some(9_750_000));

    let mut o5 = Outbox::new();
    let delay = r5.handle_stock_result(true, leader_sock, &mut o5).unwrap();
    assert!(delay >= 2 && delay < 4);
    r5.report_result(40, &mut o5);
    assert_eq!(texts_to(&o5.robot, iface), vec!["Robot:7,true".to_string()]);

    let mut i1 = Interface::new(1, "orders.json".to_string());
    i1.load_orders(&vec![Record {
        id: 7,
        client_id: 1,
        ice_creams: vec!["Chocolate".to_string()],
        size_order: 250_000,
        cash_card: 1000,
    }]);
    let mut oi = Vec::new();
    let line = i1.handle_robot(7, true, a5, &mut oi);
    assert_eq!(line, "Payment:7,true");
    assert_eq!(texts_to(&oi, a5), vec!["Ack:Result_Interface".to_string()]);
    assert_eq!(i1.get_orders()[0].get_status(), StatusOrder::Completed);
}

#[test]
fn insufficient_stock_leaves_stock_unchanged() {
    let mut table = StockTable::new();
    table.add_flavour("Vainilla".to_string(), 100_000);
    assert!(!table.use_stock(&vec!["Vainilla".to_string()], 500_000));
    assert_eq!(table.stock_of(&"Vainilla".to_string()), Some(100_000));
    assert_eq!(Message::StockResult(false).to_text(), "StockResult:false");
    assert_eq!(Message::Robot(3, false).to_text(), "Robot:3,false");
}

#[test]
fn failed_worker_order_is_redispatched() {
    let a = Addr::robot(1).unwrap();
    let b = Addr::robot(2).unwrap();
    let iface = Addr::interface(1).unwrap();
    let mut e = LeaderOrderProcessing::new();
    e.update_leader();
    let mut out = Vec::new();
    e.add_order(entry(dto(4, 1, &["Frutilla"], 500_000, 900, 850)), iface, 0, &mut out);
    e.send_work_to_robot(a, 0, &mut out);
    assert_eq!(texts_to(&out, a), vec!["Work:{\"id_order\":4}".to_string()]);
    assert!(!e.wait_for_orders());

    let mut out = Vec::new();
    e.checking_work(4_999, &mut out);
    assert!(!e.wait_for_orders());
    e.checking_work(5_000, &mut out);
    assert!(e.wait_for_orders());
    assert!(out.is_empty());

    e.send_work_to_robot(b, 5_001, &mut out);
    assert_eq!(texts_to(&out, b), vec!["Work:{\"id_order\":4}".to_string()]);
}

#[test]
fn unreachable_interface_gets_failover_to_neighbours() {
    let i3 = Addr::interface(3).unwrap();
    let mut m = AckManager::new();
    m.add(Ack::new(i3, "Robot:9,true".to_string(), AckKind::ResultInterface), 0, 1000);
    let mut sent = Vec::new();
    for t in [1000u64, 2000, 3000] {
        m.tick(t, &mut sent);
    }
    assert_eq!(texts_to(&sent, i3).len(), 3);
    assert!(!m.is_idle());
    let mut fail = Vec::new();
    m.tick(4000, &mut fail);
    assert!(m.is_idle());
    assert_eq!(fail.len(), 2);
    assert_eq!(texts_to(&fail, Addr::interface(4).unwrap()), vec!["Resilience:9,true".to_string()]);
    assert_eq!(texts_to(&fail, Addr::interface(2).unwrap()), vec!["Resilience:9,true".to_string()]);

    let mut i2 = Interface::new(2, "orders.json".to_string());
    let mut out = Vec::new();
    let robot = Addr::robot(5).unwrap();
    assert_eq!(i2.handle_resilience(9, true, robot, &mut out), "Payment:9,true");
    assert_eq!(texts_to(&out, robot), vec!["Ack:Resilience".to_string()]);
}

#[test]
fn lone_robot_leads_when_another_joins() {
    let a2 = Addr::robot(2).unwrap();
    let a5 = Addr::robot(5).unwrap();
    let mut r2 = Robot::new(2);
    let mut r5 = Robot::new(5);
    let mut o5 = Outbox::new();
    r5.announce(0, &mut o5);
    assert_eq!(o5.robot.len(), 8);
    assert_eq!(texts_to(&o5.robot, a2), vec!["Announce:5".to_string()]);
    let mut o2 = Outbox::new();
    r2.handle_announce(5, a5, 0, &mut o2);
    assert!(r2.is_leader());
    assert_eq!(r2.get_leader(), Some(a2));
    assert_eq!(texts_to(&o2.robot, a5), vec!["Ack:Announce".to_string(), "Leader:2".to_string()]);
    let mut o5 = Outbox::new();
    r5.handle_leader(2, a2, &mut o5);
    assert!(!r5.is_leader());
    assert_eq!(r5.get_leader(), Some(a2));
    assert_eq!(r5.get_peers(), vec![a2]);
    assert_eq!(texts_to(&o5.robot, a2), vec!["Ack:Leader".to_string()]);
}

#[test]
fn gateway_rejects_uncovered_card() {
    let g = GatewayPayment::new();
    let poor = dto(11, 1, &["Chocolate"], 500_000, 100, 850);
    for draw in 1..10 {
        let d = g.decide(&poor, draw).unwrap();
        assert_eq!(d.text, "Payment:false,11");
        assert_eq!(d.to, Addr::interface(1).unwrap());
    }
    let mut g2 = GatewayPayment::new();
    assert_eq!(g2.process_order(&poor).unwrap().text, "Payment:false,11");
    let rich = dto(12, 2, &["Chocolate"], 500_000, 1000, 850);
    assert_eq!(g.decide(&rich, 5).unwrap().text, "Payment:true,12");
    assert_eq!(g.decide(&rich, 1).unwrap().text, "Payment:false,12");
    let i1 = Interface::new(1, "f".to_string());
    assert!(i1.handle_gateway(11, false).is_none());
}

#[test]
fn robots_joining_in_turn_share_one_leader() {
    let ids = [2usize, 5, 7];
    let addrs: Vec<Addr> = ids.iter().map(|&i| Addr::robot(i).unwrap()).collect();
    let mut ring: Vec<Robot> = Vec::new();
    for (k, &id) in ids.iter().enumerate() {
        let mut joiner = Robot::new(id);
        for (j, member) in ring.iter_mut().enumerate() {
            let mut out = Outbox::new();
            member.handle_announce(id, addrs[k], 0, &mut out);
            for text in texts_to(&out.robot, addrs[k]) {
                let mut back = Outbox::new();
                if text.starts_with("Leader:") {
                    joiner.handle_leader(ids[j], addrs[j], &mut back);
                } else if text.starts_with("Hello:") {
                    joiner.handle_hello(ids[j], addrs[j], &mut back);
                }
            }
        }
        ring.push(joiner);
    }
    let leaders: Vec<usize> = ring.iter().enumerate().filter(|(_, r)| r.is_leader()).map(|(i, _)| ids[i]).collect();
    assert_eq!(leaders, vec![2]);
    assert!(ring.iter().all(|r| r.get_leader() == Some(addrs[0])));
}

#[test]
fn leader_works_orders_too() {
    let a3 = Addr::robot(3).unwrap();
    let a5 = Addr::robot(5).unwrap();
    let iface = Addr::interface(1).unwrap();
    let mut r3 = Robot::new(3);
    let mut out = Outbox::new();
    r3.handle_announce(5, a5, 0, &mut out);
    let mut out = Outbox::new();
    r3.leader_add_order(entry(dto(1, 1, &["Vainilla"], 500_000, 900, 850)), iface, 1, &mut out);
    r3.leader_add_order(entry(dto(2, 1, &["Vainilla"], 500_000, 900, 850)), iface, 1, &mut out);
    assert_eq!(texts_to(&out.leader, a5), vec!["Work:{\"id_order\":1}".to_string()]);
    assert_eq!(texts_to(&out.leader, a3), vec!["Work:{\"id_order\":2}".to_string()]);

    let mut out = Outbox::new();
    r3.handle_work(dto(2, 1, &["Vainilla"], 500_000, 900, 850), Addr::leader(), 2, &mut out);
    assert_eq!(texts_to(&out.robot, a3), vec!["UseStock:\"Vainilla\";0.5".to_string()]);
    let mut out = Outbox::new();
    r3.handle_use_stock(&vec!["Vainilla".to_string()], 500_000, a3, 3, &mut out);
    assert_eq!(r3.engine().stock_of(&"Vainilla".to_string()), Some(9_500_000));
    let mut out = Outbox::new();
    assert!(r3.handle_stock_result(true, Addr::leader(), &mut out).is_some());
    r3.report_result(4, &mut out);
    assert_eq!(texts_to(&out.robot, iface), vec!["Robot:2,true".to_string()]);

    let mut out = Outbox::new();
    r3.handle_ack(AckKind::ResultInterface, iface, 5, &mut out);
    assert_eq!(texts_to(&out.robot, a3), vec!["Ack:Availability".to_string()]);
    assert!(out.leader.is_empty());
    assert!(!r3.engine().wait_for_orders());

    let mut out = Outbox::new();
    r3.leader_add_order(entry(dto(3, 1, &["Frutilla"], 250_000, 900, 500)), iface, 6, &mut out);
    assert_eq!(texts_to(&out.leader, a3), vec!["Work:{\"id_order\":3}".to_string()]);
    let mut later = Outbox::new();
    r3.leader_resolve_ack(AckKind::Work, a3);
    r3.tick(6 + 5_000, &mut later);
    assert_eq!(
        texts_to(&later.leader, a3),
        vec!["StockResult:true".to_string(), "Work:{\"id_order\":3}".to_string()]
    );
    assert_eq!(texts_to(&later.leader, a5), vec!["Work:{\"id_order\":1}".to_string()]);
    assert!(r3.engine().wait_for_orders());
}
