use std::cell::RefCell;
use std::rc::Rc;

use broadcast_relay::frame::{decode_frame, decode_message, encode_frame, encode_message, FRAME_SIZE};
use broadcast_relay::registry::Registry;
use broadcast_relay::worker::{ReadOutcome, ReceiveWorker, WorkerAction, WorkerState};

/// A stand-in for a client's socket: writes succeed while it is open and
/// land in its inbox, which the test keeps a second reference to.
struct Peer {
    open: Rc<RefCell<bool>>,
    inbox: Rc<RefCell<Vec<Vec<u8>>>>,
}

impl Peer {
    fn write_frame(&mut self, frame: &[u8]) -> bool {
        if *self.open.borrow() {
            self.inbox.borrow_mut().push(frame.to_vec());
            true
        } else {
            false
        }
    }
}

struct PeerView {
    open: Rc<RefCell<bool>>,
    inbox: Rc<RefCell<Vec<Vec<u8>>>>,
}

fn peer() -> (Peer, PeerView) {
    let open = Rc::new(RefCell::new(true));
    let inbox = Rc::new(RefCell::new(Vec::new()));
    (
        Peer { open: open.clone(), inbox: inbox.clone() },
        PeerView { open, inbox },
    )
}

fn broadcast(registry: &mut Registry<Peer>, message: &str) -> Vec<u64> {
    let frame = encode_message(&message.to_string());
    let mut delivered = Vec::new();
    for i in 0..registry.len() {
        delivered.push(registry.handle_mut(i).write_frame(&frame));
    }
    registry.complete_round(&frame, &delivered)
}

fn received_texts(view: &PeerView) -> Vec<String> {
    view.inbox
        .borrow()
        .iter()
        .map(|f| {
            assert_eq!(f.len(), FRAME_SIZE);
            decode_message(f).expect("frame holds UTF-8")
        })
        .collect()
}

/// Runs a frame through a fresh worker and returns the forwarded message.
fn forwarded(frame: Vec<u8>) -> String {
    let mut worker = ReceiveWorker::new();
    match worker.on_read(ReadOutcome::Frame(frame)) {
        WorkerAction::Forward(m) => m,
        other => panic!("expected a forwarded message, got {:?}", other),
    }
}

#[test]
fn two_clients_then_one_leaves() {
    let mut registry: Registry<Peer> = Registry::new();
    let (pa, va) = peer();
    let (pb, vb) = peer();
    let a = registry.register(pa).unwrap();
    let b = registry.register(pb).unwrap();

    let hi = forwarded(encode_message(&"hi".to_string()));
    assert_eq!(hi, "hi");
    let dropped = broadcast(&mut registry, &hi);
    assert!(dropped.is_empty());
    assert_eq!(received_texts(&va), vec!["hi".to_string()]);
    assert_eq!(received_texts(&vb), vec!["hi".to_string()]);

    *va.open.borrow_mut() = false;
    let hello = forwarded(encode_message(&"hello".to_string()));
    let dropped = broadcast(&mut registry, &hello);
    assert_eq!(dropped, vec![a]);
    assert_eq!(received_texts(&va), vec!["hi".to_string()]);
    assert_eq!(received_texts(&vb), vec!["hi".to_string(), "hello".to_string()]);
    assert_eq!(registry.ids(), vec![b]);
}

#[test]
fn frame_pads_with_zeros() {
    let frame = encode_frame(b"hi");
    assert_eq!(frame.len(), 32);
    assert_eq!(&frame[..2], b"hi");
    assert!(frame[2..].iter().all(|&b| b == 0));
}

#[test]
fn frame_truncates_long_text() {
    let text: Vec<u8> = (0..40u8).map(|i| b'a' + (i % 26)).collect();
    let frame = encode_frame(&text);
    assert_eq!(frame, text[..32].to_vec());
    assert_eq!(decode_frame(&frame), text[..32].to_vec());
}

#[test]
fn empty_text_round_trip() {
    let frame = encode_frame(b"");
    assert_eq!(frame, vec![0u8; 32]);
    assert_eq!(decode_frame(&frame), Vec::<u8>::new());
}

#[test]
fn decode_stops_at_first_zero() {
    let mut frame = vec![0u8; 32];
    frame[0] = b'o';
    frame[1] = b'k';
    frame[3] = b'x';
    assert_eq!(decode_frame(&frame), b"ok".to_vec());
}

#[test]
fn text_round_trip_up_to_frame_size() {
    let text: Vec<u8> = vec![b'z'; 31];
    assert_eq!(decode_frame(&encode_frame(&text)), text);
    let canonical = encode_frame(b"abc");
    assert_eq!(encode_frame(&decode_frame(&canonical)), canonical);
}

#[test]
fn message_round_trip_multibyte() {
    let m = "olá, mundo ✓".to_string();
    assert_eq!(decode_message(&encode_message(&m)), Some(m));
}

#[test]
fn invalid_utf8_is_rejected() {
    let mut frame = vec![0u8; 32];
    frame[0] = 0xff;
    frame[1] = b'a';
    assert_eq!(decode_message(&frame), None);
    let mut worker = ReceiveWorker::new();
    assert!(matches!(worker.on_read(ReadOutcome::Frame(frame)), WorkerAction::Stop));
    assert_eq!(worker.state, WorkerState::Terminated);
}

#[test]
fn worker_waits_when_no_data() {
    let mut worker = ReceiveWorker::new();
    assert!(matches!(worker.on_read(ReadOutcome::WouldBlock), WorkerAction::Wait));
    assert_eq!(worker.state, WorkerState::Reading);
}

#[test]
fn worker_stops_on_failure_and_stays_stopped() {
    let mut worker = ReceiveWorker::new();
    assert!(matches!(worker.on_read(ReadOutcome::Failed), WorkerAction::Stop));
    assert_eq!(worker.state, WorkerState::Terminated);
    let frame = encode_message(&"late".to_string());
    assert!(matches!(worker.on_read(ReadOutcome::Frame(frame)), WorkerAction::Stop));
    assert!(matches!(worker.on_read(ReadOutcome::WouldBlock), WorkerAction::Stop));
    assert_eq!(worker.state, WorkerState::Terminated);
}

#[test]
fn worker_stops_on_partial_frame() {
    let mut worker = ReceiveWorker::new();
    assert!(matches!(worker.on_read(ReadOutcome::Frame(b"hi".to_vec())), WorkerAction::Stop));
    assert_eq!(worker.state, WorkerState::Terminated);
}

#[test]
fn worker_keeps_reading_after_a_message() {
    let mut worker = ReceiveWorker::new();
    let action = worker.on_read(ReadOutcome::Frame(encode_message(&"one".to_string())));
    assert!(matches!(action, WorkerAction::Forward(ref m) if m == "one"));
    assert_eq!(worker.state, WorkerState::Reading);
    let action = worker.on_read(ReadOutcome::Frame(encode_message(&"two".to_string())));
    assert!(matches!(action, WorkerAction::Forward(ref m) if m == "two"));
}

#[test]
fn registration_adds_exactly_one_entry() {
    let mut registry: Registry<Peer> = Registry::new();
    assert_eq!(registry.len(), 0);
    let (p, _v) = peer();
    let id = registry.register(p).unwrap();
    assert_eq!(registry.ids(), vec![id]);
    let (q, _w) = peer();
    let id2 = registry.register(q).unwrap();
    assert_ne!(id, id2);
    assert_eq!(registry.ids(), vec![id, id2]);
    assert_eq!(registry.ids().iter().filter(|&&x| x == id).count(), 1);
}

#[test]
fn fan_out_reaches_every_client() {
    let mut registry: Registry<Peer> = Registry::new();
    let mut views = Vec::new();
    for _ in 0..3 {
        let (p, v) = peer();
        registry.register(p).unwrap();
        views.push(v);
    }
    let before = registry.ids();
    assert!(broadcast(&mut registry, "ping").is_empty());
    assert_eq!(registry.ids(), before);
    for v in &views {
        assert_eq!(received_texts(v), vec!["ping".to_string()]);
        assert_eq!(v.inbox.borrow()[0], encode_frame(b"ping"));
    }
}

#[test]
fn closed_client_does_not_disturb_others() {
    let mut registry: Registry<Peer> = Registry::new();
    let (first, first_view) = peer();
    let (second, second_view) = peer();
    let (third, third_view) = peer();
    let i0 = registry.register(first).unwrap();
    let i1 = registry.register(second).unwrap();
    let i2 = registry.register(third).unwrap();
    *second_view.open.borrow_mut() = false;
    assert_eq!(broadcast(&mut registry, "m"), vec![i1]);
    assert_eq!(registry.ids(), vec![i0, i2]);
    assert_eq!(received_texts(&first_view), vec!["m".to_string()]);
    assert_eq!(received_texts(&third_view), vec!["m".to_string()]);
    assert!(received_texts(&second_view).is_empty());
    assert!(broadcast(&mut registry, "n").is_empty());
    assert_eq!(received_texts(&third_view), vec!["m".to_string(), "n".to_string()]);
}

#[test]
fn messages_arrive_in_send_order() {
    let mut registry: Registry<Peer> = Registry::new();
    let (p, v) = peer();
    let (q, w) = peer();
    registry.register(p).unwrap();
    registry.register(q).unwrap();
    for m in ["M1", "M2", "M3"] {
        broadcast(&mut registry, m);
    }
    let expected: Vec<String> = ["M1", "M2", "M3"].iter().map(|s| s.to_string()).collect();
    assert_eq!(received_texts(&v), expected);
    assert_eq!(received_texts(&w), expected);
}

#[test]
fn late_joiner_gets_only_later_messages() {
    let mut registry: Registry<Peer> = Registry::new();
    let (p, v) = peer();
    registry.register(p).unwrap();
    broadcast(&mut registry, "early");
    let (q, w) = peer();
    registry.register(q).unwrap();
    broadcast(&mut registry, "late");
    assert_eq!(received_texts(&v), vec!["early".to_string(), "late".to_string()]);
    assert_eq!(received_texts(&w), vec!["late".to_string()]);
}
