use p2p_chat::address::{parse_address, rfind_slash, without_first, AddressError};
use p2p_chat::chat::{Chat, ChatEvent, DiscoveryEvent, PubSubEvent, RegistryEvent};
use p2p_chat::control::{encode, ControlMessage};
use p2p_chat::discovery::{Health, RoutingTable};
use p2p_chat::identity::{get_keypair, IdentityError};
use p2p_chat::ids::{bytes_eq, bytes_less, contains_bytes, copy_bytes};
use p2p_chat::pubsub::{Message, Overlay};
use p2p_chat::registry::{Assignment, ClientTransfer, Registry};

const PEER_ID: &str = "QmNnooDu7bfjPFoTZYxMNLWUQJyrVwtbZg5gBMjTezGAJN";

fn b(s: &str) -> Vec<u8> {
    s.as_bytes().to_vec()
}

fn message(source: &str, topic: &str, seqno: u64, data: &str) -> Message {
    Message { source: b(source), topic: b(topic), seqno, data: b(data) }
}

fn discovered(peer: &str, addr: &str) -> ChatEvent {
    ChatEvent::Discovery(DiscoveryEvent::Discovered { peer: b(peer), addresses: vec![b(addr)] })
}

fn received(from: &str, m: Message) -> ChatEvent {
    ChatEvent::PubSub(PubSubEvent::Message { from: b(from), message: m })
}

#[test]
fn without_first_drops_one_char() {
    assert_eq!(without_first("/abc"), "abc");
    assert_eq!(without_first("x"), "");
    assert_eq!(without_first(""), "");
    assert_eq!(without_first("éa"), "a");
}

#[test]
fn rfind_slash_finds_last() {
    assert_eq!(rfind_slash("/ip4/1.2.3.4/tcp/1"), Some(16));
    assert_eq!(rfind_slash("abc"), None);
}

#[test]
fn parse_address_valid() {
    let raw = format!("/ip4/127.0.0.1/tcp/4001/{}", PEER_ID);
    let (addr, peer) = parse_address(&raw).unwrap();
    assert_eq!(addr.to_string(), "/ip4/127.0.0.1/tcp/4001");
    assert_eq!(peer.to_base58(), PEER_ID);
}

#[test]
fn parse_address_errors() {
    assert_eq!(parse_address("no-separator").err(), Some(AddressError::MissingSeparator));
    let bad_addr = format!("ip4/127.0.0.1/{}", PEER_ID);
    assert_eq!(parse_address(&bad_addr).err(), Some(AddressError::InvalidMultiaddr));
    assert_eq!(
        parse_address("/ip4/127.0.0.1/tcp/4001/not-a-peer").err(),
        Some(AddressError::InvalidPeerId)
    );
    assert_eq!(parse_address("/ip4/127.0.0.1/tcp/4001/").err(), Some(AddressError::InvalidPeerId));
}

#[test]
fn keypair_sources() {
    assert!(get_keypair(true, None).is_ok());
    assert_eq!(get_keypair(false, None).err(), Some(IdentityError::MissingKeySource));
    assert_eq!(get_keypair(false, Some(vec![0u8; 10])).err(), Some(IdentityError::Corrupt));
}

#[test]
fn keypair_round_trip() {
    let kp = get_keypair(true, None).unwrap();
    let bytes = kp.clone().try_into_ed25519().unwrap().to_bytes().to_vec();
    let loaded = get_keypair(false, Some(bytes)).unwrap();
    assert_eq!(kp.public().to_peer_id(), loaded.public().to_peer_id());
}

#[test]
fn byte_helpers() {
    assert!(bytes_eq(&b("ab"), &b("ab")));
    assert!(!bytes_eq(&b("ab"), &b("abc")));
    assert!(bytes_less(&b("ab"), &b("abc")));
    assert!(bytes_less(&b("aa"), &b("ab")));
    assert!(!bytes_less(&b("b"), &b("ab")));
    assert!(!bytes_less(&b("ab"), &b("ab")));
    assert_eq!(copy_bytes(&b("xyz")), b("xyz"));
    assert!(contains_bytes(&vec![b("a"), b("b")], &b("b")));
    assert!(!contains_bytes(&vec![b("a")], &b("c")));
}

#[test]
fn bootstrap_makes_peer_reachable_and_member() {
    let mut a = Chat::new(b("A"), 16, b("registry"), 1);
    assert!(a.subscribe(b("chat")));
    a.add_known_address(&b("B"), &b("/ip4/10.0.0.2/tcp/4001"));
    assert_eq!(a.kad().health(&b("B")), Health::Unknown);
    assert!(!a.floodsub().is_member(&b("chat"), &b("B")));
    let r = a.inject_event(discovered("B", "/ip4/10.0.0.2/tcp/4001"));
    assert!(r.delivered.is_none() && r.forward.is_empty());
    assert_eq!(a.kad().health(&b("B")), Health::Reachable);
    assert!(a.floodsub().is_member(&b("chat"), &b("B")));
}

#[test]
fn bootstrap_result_marks_reachable() {
    let mut a = Chat::new(b("A"), 16, b("registry"), 1);
    a.inject_event(ChatEvent::Discovery(DiscoveryEvent::BootstrapOk { peer: b("B") }));
    assert_eq!(a.kad().health(&b("B")), Health::Reachable);
    a.inject_event(ChatEvent::Discovery(DiscoveryEvent::BootstrapFailed));
    assert_eq!(a.kad().health(&b("B")), Health::Reachable);
}

#[test]
fn publish_and_deliver_once() {
    let mut a = Chat::new(b("A"), 16, b("registry"), 1);
    let mut bn = Chat::new(b("B"), 16, b("registry"), 1);
    a.subscribe(b("chat"));
    bn.subscribe(b("chat"));
    a.inject_event(discovered("B", "/ip4/10.0.0.2/tcp/1"));
    bn.inject_event(discovered("A", "/ip4/10.0.0.1/tcp/1"));
    let out = a.publish(b("chat"), b("hello")).unwrap();
    assert_eq!(out.targets, vec![b("B")]);
    assert_eq!(out.message.source, b("A"));
    assert_eq!(out.message.seqno, 0);
    let m = out.message;
    let copy = message("A", "chat", m.seqno, "hello");
    let first = bn.inject_event(received("A", m));
    let got = first.delivered.unwrap();
    assert_eq!(got.source, b("A"));
    assert_eq!(got.topic, b("chat"));
    assert_eq!(got.data, b("hello"));
    assert!(first.forward.is_empty());
    let second = bn.inject_event(received("A", copy));
    assert!(second.delivered.is_none());
    assert!(second.forward.is_empty());
}

#[test]
fn duplicates_delivered_once() {
    let mut o = Overlay::new(b("X"), 4);
    let mut count = 0;
    for _ in 0..5 {
        if o.receive(&b("P"), message("S", "t", 7, "d")).delivered.is_some() {
            count += 1;
        }
    }
    assert_eq!(count, 1);
    assert!(o.has_seen(&b("S"), 7));
}

#[test]
fn cache_evicts_oldest() {
    let mut o = Overlay::new(b("X"), 2);
    o.receive(&b("P"), message("S", "t", 1, ""));
    o.receive(&b("P"), message("S", "t", 2, ""));
    o.receive(&b("P"), message("S", "t", 3, ""));
    assert!(!o.has_seen(&b("S"), 1));
    assert!(o.has_seen(&b("S"), 2));
    assert!(o.has_seen(&b("S"), 3));
    let mut z = Overlay::new(b("X"), 0);
    assert!(z.receive(&b("P"), message("S", "t", 1, "")).delivered.is_some());
    assert!(z.receive(&b("P"), message("S", "t", 1, "")).delivered.is_none());
}

#[test]
fn no_forward_back_to_sender() {
    let mut a = Chat::new(b("A"), 16, b("registry"), 1);
    a.subscribe(b("chat"));
    a.inject_event(discovered("B", "/b"));
    a.inject_event(discovered("C", "/c"));
    let r = a.inject_event(received("B", message("B", "chat", 1, "x")));
    assert!(r.delivered.is_some());
    assert_eq!(r.forward, vec![b("C")]);
}

#[test]
fn unroutable_leaves_every_topic() {
    let mut a = Chat::new(b("A"), 16, b("registry"), 1);
    a.subscribe(b("chat"));
    a.subscribe(b("news"));
    a.inject_event(discovered("B", "/b"));
    assert!(a.floodsub().is_member(&b("news"), &b("B")));
    a.inject_event(ChatEvent::Discovery(DiscoveryEvent::Unroutable { peer: b("B") }));
    assert!(!a.floodsub().is_member(&b("chat"), &b("B")));
    assert!(!a.floodsub().is_member(&b("news"), &b("B")));
    assert_eq!(a.kad().health(&b("B")), Health::Unroutable);
    let out = a.publish(b("chat"), b("x")).unwrap();
    assert!(out.targets.is_empty());
}

#[test]
fn subscribe_twice() {
    let mut a = Chat::new(b("A"), 16, b("registry"), 1);
    a.inject_event(discovered("B", "/b"));
    assert!(a.subscribe(b("chat")));
    assert!(a.floodsub().is_member(&b("chat"), &b("B")));
    assert!(!a.subscribe(b("chat")));
    assert!(a.floodsub().is_subscribed(&b("chat")));
}

#[test]
fn subscription_notices_change_nothing() {
    let mut a = Chat::new(b("A"), 16, b("registry"), 1);
    a.subscribe(b("chat"));
    let r = a.inject_event(ChatEvent::PubSub(PubSubEvent::Subscribed { peer: b("B"), topic: b("chat") }));
    assert!(r.delivered.is_none());
    assert!(!a.floodsub().is_member(&b("chat"), &b("B")));
}

#[test]
fn routing_table_addresses() {
    let mut t = RoutingTable::new();
    t.add_address(&b("B"), &b("/x"));
    t.add_address(&b("B"), &b("/x"));
    t.set_health(&b("B"), Health::Reachable);
    t.set_health(&b("C"), Health::Unroutable);
    t.set_health(&b("B"), Health::Unroutable);
    assert_eq!(t.health(&b("B")), Health::Unroutable);
    assert_eq!(t.health(&b("D")), Health::Unknown);
    assert!(t.reachable_peers().is_empty());
    t.set_health(&b("C"), Health::Reachable);
    assert_eq!(t.reachable_peers(), vec![b("C")]);
}

#[test]
fn load_spread_transfer_commit() {
    let mut p = Registry::new(b("P"), 0);
    assert!(p.serve(b("c1")));
    assert!(!p.serve(b("c1")));
    assert!(p.spread(0).is_none());
    assert_eq!(p.spread(1), Some(vec![b("c1")]));
    let q = Registry::new(b("Q"), 1);
    let proposals = q.on_spread(0, &vec![b("c1")]);
    assert_eq!(proposals.len(), 1);
    assert_eq!(proposals[0].client, b("c1"));
    assert_eq!(proposals[0].candidate, b("Q"));
    assert_eq!(proposals[0].generation, 1);
    let t = ClientTransfer { client: b("c1"), candidate: b("Q"), generation: 1 };
    let committed = p.on_transfer(t).unwrap();
    assert_eq!(committed.provider, b("Q"));
    assert_eq!(committed.generation, 1);
    let a = p.lookup(&b("c1")).unwrap();
    assert_eq!((a.provider.clone(), a.generation), (b("Q"), 1));
    let late = ClientTransfer { client: b("c1"), candidate: b("R"), generation: 0 };
    assert!(p.on_transfer(late).is_none());
    let a = p.lookup(&b("c1")).unwrap();
    assert_eq!((a.provider.clone(), a.generation), (b("Q"), 1));
}

#[test]
fn spread_limits_and_spare_capacity() {
    let mut p = Registry::new(b("P"), 1);
    p.serve(b("c1"));
    p.serve(b("c2"));
    p.serve(b("c3"));
    assert_eq!(p.spread(3), Some(vec![b("c1"), b("c2")]));
    assert_eq!(p.spread(10), Some(vec![b("c1"), b("c2"), b("c3")]));
    let q = Registry::new(b("Q"), 3);
    assert!(q.on_spread(3, &vec![b("c1")]).is_empty());
    assert_eq!(q.on_spread(1, &vec![b("c1"), b("c2"), b("c3")]).len(), 2);
}

#[test]
fn transfer_needs_local_provider_and_newer_generation() {
    let mut p = Registry::new(b("P"), 0);
    p.serve(b("c1"));
    let stale = ClientTransfer { client: b("c1"), candidate: b("Q"), generation: 0 };
    assert!(p.on_transfer(stale).is_none());
    let unknown = ClientTransfer { client: b("c9"), candidate: b("Q"), generation: 5 };
    assert!(p.on_transfer(unknown).is_none());
    assert!(p.lookup(&b("c9")).is_none());
}

#[test]
fn confirmations_last_writer_wins() {
    let mut r = Registry::new(b("X"), 0);
    assert!(r.on_confirm(Assignment { client: b("c"), provider: b("Q"), generation: 2 }));
    assert!(!r.on_confirm(Assignment { client: b("c"), provider: b("A"), generation: 1 }));
    assert!(r.on_confirm(Assignment { client: b("c"), provider: b("M"), generation: 2 }));
    assert!(!r.on_confirm(Assignment { client: b("c"), provider: b("Z"), generation: 2 }));
    let a = r.lookup(&b("c")).unwrap();
    assert_eq!((a.provider.clone(), a.generation), (b("M"), 2));
    assert!(r.on_confirm(Assignment { client: b("c"), provider: b("Z"), generation: 3 }));
    assert_eq!(r.lookup(&b("c")).unwrap().generation, 3);
}

fn control_event(from: &str, seqno: u64, bytes: Vec<u8>) -> ChatEvent {
    ChatEvent::PubSub(PubSubEvent::Message {
        from: b(from),
        message: Message { source: b(from), topic: b("registry"), seqno, data: bytes },
    })
}

#[test]
fn registry_through_dispatcher() {
    let mut p = Chat::new(b("P"), 16, b("registry"), 0);
    let mut q = Chat::new(b("Q"), 16, b("registry"), 1);
    let r = p.inject_event(ChatEvent::Registry(RegistryEvent::Serve { client: b("c1") }));
    assert!(r.control.is_empty());
    let quiet = p.inject_event(ChatEvent::Registry(RegistryEvent::LoadSample { load: 0 }));
    assert!(quiet.control.is_empty());
    let spread = p.inject_event(ChatEvent::Registry(RegistryEvent::LoadSample { load: 1 }));
    assert_eq!(spread.control, vec![encode(&ControlMessage::Spread(vec![b("c1")]))]);
    let proposals = q.inject_event(control_event("P", 0, spread.control[0].clone()));
    assert!(proposals.delivered.is_none());
    let expected = ClientTransfer { client: b("c1"), candidate: b("Q"), generation: 1 };
    assert_eq!(proposals.control, vec![encode(&ControlMessage::Transfer(expected))]);
    assert!(q.registry().lookup(&b("c1")).is_none());
    let committed = p.inject_event(control_event("Q", 0, proposals.control[0].clone()));
    let confirmation = Assignment { client: b("c1"), provider: b("Q"), generation: 1 };
    assert_eq!(committed.control, vec![encode(&ControlMessage::Confirm(confirmation))]);
    let a = p.registry().lookup(&b("c1")).unwrap();
    assert_eq!((a.provider.clone(), a.generation), (b("Q"), 1));
    let late = ClientTransfer { client: b("c1"), candidate: b("R"), generation: 0 };
    let dropped = p.inject_event(control_event("R", 0, encode(&ControlMessage::Transfer(late))));
    assert!(dropped.control.is_empty() && dropped.delivered.is_none());
    assert_eq!(p.registry().lookup(&b("c1")).unwrap().provider, b("Q"));
    let junk = p.inject_event(control_event("R", 1, vec![9, 9]));
    assert!(junk.control.is_empty() && junk.delivered.is_none());
    q.inject_event(control_event("P", 1, committed.control[0].clone()));
    assert_eq!(q.registry().lookup(&b("c1")).unwrap().generation, 1);
}

#[test]
fn repeated_control_message_handled_once() {
    let mut p = Chat::new(b("P"), 16, b("registry"), 0);
    p.inject_event(ChatEvent::Registry(RegistryEvent::Serve { client: b("c1") }));
    let t = ClientTransfer { client: b("c1"), candidate: b("Q"), generation: 1 };
    let first = p.inject_event(control_event("Q", 5, encode(&ControlMessage::Transfer(t))));
    assert_eq!(first.control.len(), 1);
    let t = ClientTransfer { client: b("c1"), candidate: b("Q"), generation: 1 };
    let again = p.inject_event(control_event("Q", 5, encode(&ControlMessage::Transfer(t))));
    assert!(again.control.is_empty());
}

#[test]
fn forward_lists_each_peer_once() {
    let mut a = Chat::new(b("A"), 16, b("registry"), 1);
    a.subscribe(b("chat"));
    a.inject_event(discovered("B", "/b"));
    a.inject_event(discovered("B", "/b2"));
    a.inject_event(discovered("C", "/c"));
    let r = a.inject_event(received("C", message("C", "chat", 1, "x")));
    assert_eq!(r.forward, vec![b("B")]);
    let out = a.publish(b("chat"), b("y")).unwrap();
    assert_eq!(out.targets, vec![b("B"), b("C")]);
}
