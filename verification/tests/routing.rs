use othismo::Message;
use othismo::router::Namespace;

fn header(send_to: &str) -> bson::Document {
    let mut inner = bson::Document::new();
    inner.insert("send_to", send_to);
    let mut document = bson::Document::new();
    document.insert("othismo", inner);
    document
}

fn envelope(send_to: &str) -> Message {
    let mut bytes: Vec<u8> = Vec::new();
    header(send_to).to_writer(&mut bytes).unwrap();
    Message::new(bytes)
}

#[test]
fn envelope_for_known_process_reaches_it() {
    let mut ns = Namespace::new();
    assert!(ns.create_process(b"/echo".to_vec()));
    assert!(ns.send_message(envelope("/echo"), 1));
    ns.route_all();
    assert_eq!(ns.processes[1].inbox.len(), 1);
    assert_eq!(ns.processes[0].inbox.len(), 0);
    assert!(!ns.is_idle());
}

#[test]
fn unresolved_envelope_falls_back_to_root() {
    let mut ns = Namespace::new();
    assert!(ns.create_process(b"/echo".to_vec()));
    assert!(ns.send_message(envelope("/missing"), 1));
    ns.route_all();
    assert_eq!(ns.processes[0].inbox.len(), 1);
    assert_eq!(ns.processes[1].inbox.len(), 0);
}

#[test]
fn per_pair_order_is_kept() {
    let mut ns = Namespace::new();
    assert!(ns.create_process(b"/echo".to_vec()));
    let mut m1 = header("/echo");
    m1.insert("n", 1i64);
    let mut m2 = header("/echo");
    m2.insert("n", 2i64);
    let mut b1: Vec<u8> = Vec::new();
    let mut b2: Vec<u8> = Vec::new();
    m1.to_writer(&mut b1).unwrap();
    m2.to_writer(&mut b2).unwrap();
    assert!(ns.send_message(Message::new(b1.clone()), 1));
    assert!(ns.send_message(Message::new(b2.clone()), 2));
    ns.route_all();
    assert_eq!(ns.processes[1].inbox.len(), 2);
    assert_eq!(ns.processes[1].inbox[0].bytes(), b1.as_slice());
    assert_eq!(ns.processes[1].inbox[1].bytes(), b2.as_slice());
}

#[test]
fn fresh_router_is_idle() {
    let ns = Namespace::new();
    assert!(ns.is_idle());
    assert!(Namespace::idleness_reached(20, 5, 10, 0, 60));
    assert!(!Namespace::idleness_reached(12, 5, 10, 0, 60));
}
