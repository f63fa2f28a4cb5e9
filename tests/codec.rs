use tp2::ack::AckKind;
use tp2::codec::decode;
use tp2::protocol::Message;

fn round_trip(m: Message, text: &str) {
    assert_eq!(m.to_text(), text);
    let back = decode(text).expect("decodes");
    assert_eq!(back.to_text(), text);
}

#[test]
fn every_tag_round_trips() {
    round_trip(Message::Order("{\"id_order\":1}".to_string()), "Order:{\"id_order\":1}");
    round_trip(Message::Work("{}".to_string()), "Work:{}");
    round_trip(Message::PaymentResult(true, 7), "Payment:true,7");
    round_trip(Message::Payment(7, false), "Payment:7,false");
    round_trip(Message::Announce(5), "Announce:5");
    round_trip(Message::Hello(12), "Hello:12");
    round_trip(Message::Leader(3), "Leader:3");
    round_trip(Message::Election(9), "Election:9");
    round_trip(Message::Availability, "Availability");
    round_trip(
        Message::UseStock(vec!["Chocolate".to_string(), "Dulce de Leche".to_string()], 125_000),
        "UseStock:\"Chocolate,Dulce de Leche\";0.125",
    );
    round_trip(Message::StockResult(true), "StockResult:true");
    round_trip(Message::Robot(9, true), "Robot:9,true");
    round_trip(Message::Resilience(9, false), "Resilience:9,false");
    round_trip(Message::Ack(AckKind::ResultInterface), "Ack:Result_Interface");
    round_trip(Message::Ack(AckKind::Resilience), "Ack:Resilience");
}

#[test]
fn payment_directions_are_told_apart() {
    assert!(matches!(decode("Payment:true,4"), Some(Message::PaymentResult(true, 4))));
    assert!(matches!(decode("Payment:4,true"), Some(Message::Payment(4, true))));
    assert!(matches!(decode("Payment:false,0"), Some(Message::PaymentResult(false, 0))));
}

#[test]
fn decoded_fields_are_the_encoded_ones() {
    match decode("UseStock:\"Vainilla\";0.5") {
        Some(Message::UseStock(fl, a)) => {
            assert_eq!(fl, vec!["Vainilla".to_string()]);
            assert_eq!(a, 500_000);
        }
        _ => panic!("not a stock request"),
    }
    assert!(matches!(decode("Announce:42"), Some(Message::Announce(42))));
    assert!(matches!(decode("Ack:Work"), Some(Message::Ack(AckKind::Work))));
    assert!(matches!(decode("StockResult:false"), Some(Message::StockResult(false))));
}

#[test]
fn malformed_text_is_dropped() {
    for bad in [
        "",
        "Announce:",
        "Announce:x",
        "Announce:07",
        "Leader:-1",
        "Payment:7",
        "Payment:yes,7",
        "Robot:9;true",
        "Robot:9,maybe",
        "StockResult:TRUE",
        "Ack:Nothing",
        "UseStock:Chocolate;0.5",
        "UseStock:\"Chocolate\"0.5",
        "UseStock:\"Chocolate\";0.50",
        "UseStock:\"Chocolate\";0.1234567",
        "Availability!",
        "Hello:99999999999999999999999",
    ] {
        assert!(decode(bad).is_none(), "accepted {:?}", bad);
    }
}

#[test]
fn amounts_are_written_like_decimals() {
    let t = |a: u64| Message::UseStock(vec!["A".to_string()], a).to_text();
    assert_eq!(t(250_000), "UseStock:\"A\";0.25");
    assert_eq!(t(1_000_000), "UseStock:\"A\";1");
    assert_eq!(t(83_333), "UseStock:\"A\";0.083333");
    assert_eq!(t(10_500_000), "UseStock:\"A\";10.5");
    assert_eq!(t(0), "UseStock:\"A\";0");
    assert_eq!(t(1), "UseStock:\"A\";0.000001");
}

#[test]
fn large_numbers_round_trip() {
    round_trip(Message::Announce(usize::MAX), &format!("Announce:{}", usize::MAX));
    round_trip(
        Message::UseStock(vec!["B".to_string()], u64::MAX),
        &format!("UseStock:\"B\";{}.{:06}", u64::MAX / 1_000_000, u64::MAX % 1_000_000),
    );
}
