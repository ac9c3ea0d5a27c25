use chat_hub::{ChatManager, ChatMessage, Connect, Disconnect};

fn ids(entries: &[(usize, &&'static str)]) -> Vec<usize> {
    let mut v: Vec<usize> = entries.iter().map(|e| e.0).collect();
    v.sort();
    v
}

fn msg(client_id: usize, text: &str) -> ChatMessage {
    ChatMessage { client_id, message: text.to_string() }
}

#[test]
fn test_chat_manager() {
    let mut hub: ChatManager<&'static str> = ChatManager::new();
    let connect = Connect { client_addr: "client" };
    let client_id = hub.register(connect.client_addr);
    let message = "Hello, world!".to_string();
    let out = hub.broadcast(&ChatMessage { client_id, message: message.clone() });
    assert!(out.is_empty());
    hub.unregister(Disconnect { client_id }.client_id);
    let sessions = hub.snapshot();
    assert_eq!(sessions.len(), 0);
}

#[test]
fn scenario_two_clients() {
    let mut hub: ChatManager<&'static str> = ChatManager::new();
    let a = hub.register_from(1, "HA");
    assert_eq!(a, 1);
    let b = hub.register_from(2, "HB");
    assert_eq!(b, 2);
    let out = hub.broadcast(&msg(1, "hello"));
    assert_eq!(out.len(), 1);
    assert_eq!(out[0].0, 2);
    assert_eq!(*out[0].1, "HB");
    hub.unregister(1);
    let out = hub.broadcast(&msg(2, "bye"));
    assert!(out.is_empty());
}

#[test]
fn register_returns_distinct_active_ids() {
    let mut hub: ChatManager<&'static str> = ChatManager::new();
    let mut seen: Vec<usize> = Vec::new();
    for _ in 0..200 {
        let id = hub.register("h");
        assert!(!seen.contains(&id));
        seen.push(id);
    }
    assert_eq!(hub.len(), 200);
    let snap = hub.snapshot();
    seen.sort();
    assert_eq!(ids(&snap), seen);
}

#[test]
fn register_from_skips_taken_ids() {
    let mut hub: ChatManager<&'static str> = ChatManager::new();
    assert_eq!(hub.register_from(5, "a"), 5);
    assert_eq!(hub.register_from(5, "b"), 6);
    assert_eq!(hub.register_from(5, "c"), 7);
    assert_eq!(hub.register_from(6, "d"), 8);
    hub.unregister(6);
    assert_eq!(hub.register_from(5, "e"), 6);
}

#[test]
fn register_from_wraps_around() {
    let mut hub: ChatManager<&'static str> = ChatManager::new();
    assert_eq!(hub.register_from(usize::MAX, "a"), usize::MAX);
    assert_eq!(hub.register_from(usize::MAX, "b"), 0);
    assert_eq!(hub.register_from(usize::MAX - 1, "c"), usize::MAX - 1);
    assert_eq!(hub.register_from(usize::MAX - 1, "d"), 1);
}

#[test]
fn snapshot_lists_new_id_once() {
    let mut hub: ChatManager<&'static str> = ChatManager::new();
    hub.register_from(3, "x");
    let id = hub.register("y");
    let snap = hub.snapshot();
    assert_eq!(snap.len(), 2);
    let hits: Vec<&(usize, &&'static str)> = snap.iter().filter(|e| e.0 == id).collect();
    assert_eq!(hits.len(), 1);
    assert_eq!(*hits[0].1, "y");
}

#[test]
fn snapshot_of_empty_hub() {
    let hub: ChatManager<&'static str> = ChatManager::new();
    assert!(hub.snapshot().is_empty());
    assert_eq!(hub.len(), 0);
}

#[test]
fn unregister_removes_id() {
    let mut hub: ChatManager<&'static str> = ChatManager::new();
    let a = hub.register("a");
    let b = hub.register("b");
    hub.unregister(a);
    assert!(!hub.is_registered(a));
    assert!(hub.is_registered(b));
    assert_eq!(ids(&hub.snapshot()), vec![b]);
}

#[test]
fn unregister_unknown_is_noop() {
    let mut hub: ChatManager<&'static str> = ChatManager::new();
    hub.register_from(10, "a");
    hub.register_from(20, "b");
    hub.unregister(15);
    assert_eq!(ids(&hub.snapshot()), vec![10, 20]);
    hub.unregister(10);
    hub.unregister(10);
    assert_eq!(ids(&hub.snapshot()), vec![20]);
    assert_eq!(hub.len(), 1);
}

#[test]
fn broadcast_skips_sender_only() {
    let mut hub: ChatManager<&'static str> = ChatManager::new();
    let a = hub.register_from(1, "A");
    let b = hub.register_from(2, "B");
    let c = hub.register_from(3, "C");
    let out = hub.broadcast(&msg(a, "m"));
    assert_eq!(ids(&out), vec![b, c]);
    for (id, h) in &out {
        assert_eq!(**h, if *id == b { "B" } else { "C" });
    }
}

#[test]
fn broadcast_from_departed_sender() {
    let mut hub: ChatManager<&'static str> = ChatManager::new();
    let a = hub.register_from(1, "A");
    hub.register_from(2, "B");
    hub.register_from(3, "C");
    hub.unregister(a);
    let out = hub.broadcast(&msg(a, "m"));
    assert_eq!(ids(&out), vec![2, 3]);
}

#[test]
fn broadcast_from_unknown_sender_reaches_all() {
    let mut hub: ChatManager<&'static str> = ChatManager::new();
    hub.register_from(1, "A");
    hub.register_from(2, "B");
    let out = hub.broadcast(&msg(99, "m"));
    assert_eq!(ids(&out), vec![1, 2]);
}
