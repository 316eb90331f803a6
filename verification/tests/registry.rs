use chat_relay::registry::PeerRegistry;
use chat_relay::roster::Roster;
use futures::channel::mpsc::unbounded;

fn s(text: &str) -> String {
    text.to_string()
}

#[test]
fn new_registry_is_empty() {
    let registry = PeerRegistry::new();
    assert!(registry.is_empty());
    assert!(!registry.contains(&s("alice")));
    assert!(registry.get(&s("alice")).is_none());
}

#[test]
fn inserted_name_is_found_with_its_link() {
    let mut registry = PeerRegistry::new();
    let (alice, _alice_rx) = unbounded::<String>();
    let (bob, _bob_rx) = unbounded::<String>();
    let alice_twin = alice.clone();
    let bob_twin = bob.clone();
    registry.insert(s("alice"), alice);
    registry.insert(s("bob"), bob);
    assert!(!registry.is_empty());
    assert!(registry.contains(&s("alice")));
    assert!(registry.contains(&s("bob")));
    assert!(!registry.contains(&s("carol")));
    assert!(!registry.contains(&s("Alice")));
    assert!(registry.get(&s("alice")).unwrap().same_receiver(&alice_twin));
    assert!(registry.get(&s("bob")).unwrap().same_receiver(&bob_twin));
    assert!(!registry.get(&s("bob")).unwrap().same_receiver(&alice_twin));
}

#[test]
fn taken_name_keeps_its_link_and_the_new_one_comes_back() {
    let mut registry = PeerRegistry::new();
    let (first, _first_rx) = unbounded::<String>();
    let (second, _second_rx) = unbounded::<String>();
    let first_twin = first.clone();
    let second_twin = second.clone();
    assert!(registry.insert(s("alice"), first).is_none());
    let refused = registry.insert(s("alice"), second).unwrap();
    assert!(refused.same_receiver(&second_twin));
    assert!(registry.get(&s("alice")).unwrap().same_receiver(&first_twin));
}

#[test]
fn line_is_queued_on_the_link_of_its_name_alone() {
    let mut registry = PeerRegistry::new();
    let (alice, mut alice_rx) = unbounded::<String>();
    let (bob, mut bob_rx) = unbounded::<String>();
    registry.insert(s("alice"), alice);
    registry.insert(s("bob"), bob);
    assert_eq!(registry.send(&s("bob"), &s("one\n")), Some(true));
    assert_eq!(registry.send(&s("carol"), &s("lost\n")), None);
    assert_eq!(registry.send(&s("bob"), &s("two\n")), Some(true));
    assert_eq!(bob_rx.try_recv().unwrap(), "one\n");
    assert_eq!(bob_rx.try_recv().unwrap(), "two\n");
    assert!(bob_rx.try_recv().unwrap_err().is_empty());
    assert!(alice_rx.try_recv().unwrap_err().is_empty());
    assert!(registry.contains(&s("alice")));
    assert!(registry.contains(&s("bob")));
}

#[test]
fn link_whose_consumer_is_gone_takes_no_line() {
    let mut registry = PeerRegistry::new();
    let (alice, alice_rx) = unbounded::<String>();
    registry.insert(s("alice"), alice);
    drop(alice_rx);
    assert_eq!(registry.send(&s("alice"), &s("x")), Some(false));
    assert!(registry.contains(&s("alice")));
}

#[test]
fn removed_name_is_gone_and_its_link_comes_back() {
    let mut registry = PeerRegistry::new();
    let (alice, _alice_rx) = unbounded::<String>();
    let (bob, _bob_rx) = unbounded::<String>();
    let (carol, _carol_rx) = unbounded::<String>();
    let bob_twin = bob.clone();
    let carol_twin = carol.clone();
    registry.insert(s("alice"), alice);
    registry.insert(s("bob"), bob);
    registry.insert(s("carol"), carol);
    let link = registry.remove(&s("bob")).unwrap();
    assert!(link.same_receiver(&bob_twin));
    assert!(!registry.contains(&s("bob")));
    assert!(registry.contains(&s("alice")));
    assert!(registry.get(&s("carol")).unwrap().same_receiver(&carol_twin));
    assert!(registry.remove(&s("bob")).is_none());
    assert!(registry.remove(&s("dave")).is_none());
    assert!(registry.remove(&s("alice")).is_some());
    assert!(registry.remove(&s("carol")).is_some());
    assert!(registry.is_empty());
}

#[test]
fn a_name_can_be_registered_again_once_removed() {
    let mut registry = PeerRegistry::new();
    let (first, _first_rx) = unbounded::<String>();
    let (second, _second_rx) = unbounded::<String>();
    let second_twin = second.clone();
    registry.insert(s("alice"), first);
    assert!(registry.remove(&s("alice")).is_some());
    registry.insert(s("alice"), second);
    assert!(registry.get(&s("alice")).unwrap().same_receiver(&second_twin));
}

#[test]
fn roster_keeps_the_names_and_drops_the_links() {
    let mut registry = PeerRegistry::new();
    let (alice, mut alice_rx) = unbounded::<String>();
    let (bob, mut bob_rx) = unbounded::<String>();
    registry.insert(s("alice"), alice);
    registry.insert(s("bob"), bob);
    let mut roster = registry.into_roster();
    assert!(alice_rx.try_recv().unwrap_err().is_closed());
    assert!(bob_rx.try_recv().unwrap_err().is_closed());
    assert!(!roster.is_empty());
    assert!(roster.contains(&s("alice")));
    assert!(roster.contains(&s("bob")));
    assert!(!roster.contains(&s("carol")));
    assert!(!roster.remove(&s("carol")));
    assert!(roster.remove(&s("alice")));
    assert!(!roster.remove(&s("alice")));
    assert!(!roster.is_empty());
    assert!(roster.remove(&s("bob")));
    assert!(roster.is_empty());
}

#[test]
fn new_roster_is_empty() {
    let mut roster = Roster::new();
    assert!(roster.is_empty());
    assert!(!roster.contains(&s("")));
    assert!(!roster.remove(&s("")));
    assert!(PeerRegistry::new().into_roster().is_empty());
}
