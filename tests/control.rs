use p2p_chat::control::{decode, encode, ControlMessage};
use p2p_chat::registry::{Assignment, ClientTransfer, Registry};

fn b(s: &str) -> Vec<u8> {
    s.as_bytes().to_vec()
}

#[test]
fn spread_bytes() {
    let m = ControlMessage::Spread(vec![b("c1")]);
    let bytes = encode(&m);
    assert_eq!(bytes, vec![1, 0, 0, 0, 1, 0, 0, 0, 2, b'c', b'1']);
    match decode(&bytes) {
        Some(ControlMessage::Spread(cs)) => assert_eq!(cs, vec![b("c1")]),
        _ => panic!("spread not decoded"),
    }
}

#[test]
fn empty_spread_bytes() {
    let bytes = encode(&ControlMessage::Spread(vec![]));
    assert_eq!(bytes, vec![1, 0, 0, 0, 0]);
    assert!(matches!(decode(&bytes), Some(ControlMessage::Spread(cs)) if cs.is_empty()));
}

#[test]
fn transfer_bytes() {
    let t = ClientTransfer { client: b("c1"), candidate: b("Q"), generation: 1 };
    let bytes = encode(&ControlMessage::Transfer(t));
    assert_eq!(
        bytes,
        vec![2, 0, 0, 0, 2, b'c', b'1', 0, 0, 0, 1, b'Q', 0, 0, 0, 0, 0, 0, 0, 1]
    );
    match decode(&bytes) {
        Some(ControlMessage::Transfer(t)) => {
            assert_eq!(t.client, b("c1"));
            assert_eq!(t.candidate, b("Q"));
            assert_eq!(t.generation, 1);
        }
        _ => panic!("transfer not decoded"),
    }
}

#[test]
fn confirm_round_trip() {
    let a = Assignment { client: b("client"), provider: b("peer"), generation: 0x0102_0304_0506_0708 };
    let bytes = encode(&ControlMessage::Confirm(a));
    assert_eq!(bytes[0], 3);
    assert_eq!(&bytes[bytes.len() - 8..], &[1, 2, 3, 4, 5, 6, 7, 8]);
    match decode(&bytes) {
        Some(ControlMessage::Confirm(a)) => {
            assert_eq!(a.client, b("client"));
            assert_eq!(a.provider, b("peer"));
            assert_eq!(a.generation, 0x0102_0304_0506_0708);
        }
        _ => panic!("confirmation not decoded"),
    }
}

#[test]
fn malformed_control_bytes() {
    assert!(decode(&vec![]).is_none());
    assert!(decode(&vec![9]).is_none());
    assert!(decode(&vec![1, 0, 0, 0, 1, 0, 0, 0, 5, b'a']).is_none());
    assert!(decode(&vec![1, 0, 0, 0, 0, 7]).is_none());
    assert!(decode(&vec![2, 0, 0, 0, 0, 0, 0, 0, 0, 0, 0, 0]).is_none());
    let mut long = encode(&ControlMessage::Spread(vec![b("x")]));
    long.push(0);
    assert!(decode(&long).is_none());
}

#[test]
fn registry_over_control_messages() {
    let mut p = Registry::new(b("P"), 0);
    p.serve(b("c1"));
    let spread = encode(&ControlMessage::Spread(p.spread(1).unwrap()));
    let mut q = Registry::new(b("Q"), 1);
    let proposals = q.on_control(0, &spread);
    let expected = ClientTransfer { client: b("c1"), candidate: b("Q"), generation: 1 };
    assert_eq!(proposals, vec![encode(&ControlMessage::Transfer(expected))]);
    let confirmations = p.on_control(1, &proposals[0]);
    let committed = Assignment { client: b("c1"), provider: b("Q"), generation: 1 };
    assert_eq!(confirmations, vec![encode(&ControlMessage::Confirm(committed))]);
    assert_eq!(p.lookup(&b("c1")).unwrap().provider, b("Q"));
    assert!(q.on_control(0, &confirmations[0]).is_empty());
    assert_eq!(q.lookup(&b("c1")).unwrap().generation, 1);
    let late = ClientTransfer { client: b("c1"), candidate: b("R"), generation: 0 };
    assert!(p.on_control(1, &encode(&ControlMessage::Transfer(late))).is_empty());
    assert_eq!(p.lookup(&b("c1")).unwrap().provider, b("Q"));
    assert!(p.on_control(1, &vec![7, 7, 7]).is_empty());
}
