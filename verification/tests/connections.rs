use mlat_server::connection::{Action, Connection, Event, Phase};

fn line(s: &str) -> Event {
    Event::Line(s.to_string())
}

#[test]
fn receiver_introduces_itself() {
    let mut c = Connection::new("10.0.0.1".to_string());
    match c.step(line("{\"user\":\"x\"}\n")) {
        Action::ReadRequest(s) => assert_eq!(s, "{\"user\":\"x\"}\n"),
        other => panic!("{:?}", other),
    }
    assert_eq!(c.peer_ip, "10.0.0.1");
    assert!(matches!(c.step(Event::Accepted), Action::ReadHeader));
    assert!(matches!(c.step(Event::HeaderRead(1, 0)), Action::ReadPacket(256)));
    assert!(matches!(c.step(Event::PacketRead), Action::ReadHeader));
    assert!(matches!(c.step(Event::HeaderRead(0, 0)), Action::Close { known: true }));
    assert_eq!(c.phase, Phase::Closed);
}

#[test]
fn proxy_comes_before_the_receiver() {
    let mut c = Connection::new("10.0.0.1".to_string());
    assert!(matches!(c.step(line("PROXY TCP4 192.0.2.7 x 1 2\r\n")), Action::ReadLine));
    assert_eq!(c.peer_ip, "192.0.2.7");
    match c.step(line("PROXY TCP4 192.0.2.8 x 1 2\r\n")) {
        Action::ReadRequest(s) => assert_eq!(s, "PROXY TCP4 192.0.2.8 x 1 2\r\n"),
        other => panic!("{:?}", other),
    }
    assert_eq!(c.peer_ip, "192.0.2.7");
    assert!(matches!(c.step(Event::Refused), Action::Close { known: false }));
    let mut c = Connection::new("10.0.0.1".to_string());
    assert!(matches!(c.step(line("PROXY UNKNOWN\r\n")), Action::ReadLine));
    assert_eq!(c.peer_ip, "10.0.0.1");
}

#[test]
fn connection_that_is_lost_is_closed() {
    let mut c = Connection::new("a".to_string());
    assert!(matches!(c.step(Event::Lost), Action::Close { known: false }));
    assert!(matches!(c.step(line("x")), Action::Close { known: false }));
    let mut c = Connection::new("a".to_string());
    c.step(line("{}"));
    c.step(Event::Accepted);
    c.step(Event::HeaderRead(0, 9));
    assert_eq!(c.phase, Phase::Packet(9));
    assert!(matches!(c.step(Event::Lost), Action::Close { known: true }));
    let mut c = Connection::new("a".to_string());
    c.step(line("{}"));
    c.step(Event::Accepted);
    assert!(matches!(c.step(Event::Lost), Action::Close { known: true }));
}

#[test]
fn packet_needs_a_request() {
    let mut c = Connection::new("a".to_string());
    assert!(matches!(c.step(Event::HeaderRead(0, 9)), Action::Close { known: false }));
}
