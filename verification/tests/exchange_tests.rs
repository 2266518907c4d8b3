use swamp_exchange::node::{Node, Path, ThreadMode};
use swamp_exchange::{Exchange, ExchangeError, MesgData, Msg, SimpleExchange, SimpleNode};

fn paths_of(v: &[Path]) -> Vec<String> {
    let mut out = Vec::new();
    for p in v {
        out.push(p.path.clone());
    }
    out
}

#[test]
fn create_a_message() {
    let mut x = SimpleExchange::new();
    let m = Msg::new(
        Path::new_str("/foo/bar"),
        MesgData::String("Hello, World!".to_string()),
    );

    let _ = x.create_node(Path::new_str("/foo"));
    let _ = x.send_mesg(m, Path::new_str("/foo/bar"));
}

#[test]
fn create_before_parent_fails() {
    let mut x = SimpleExchange::new();
    let r = x.create_node(Path::new_str("/foo/bar"));
    assert!(matches!(r, Err(ExchangeError::NodeNotFound)));
}

#[test]
fn create_top_down_then_lookup() {
    let mut x = SimpleExchange::new();
    assert!(x.create_node(Path::new_str("/foo")).is_ok());
    assert!(x.create_node(Path::new_str("/foo/bar")).is_ok());
    let h = x.get_node(Path::new_str("/foo/bar")).unwrap();
    assert!(h.get_path().path == "/foo/bar");
}

#[test]
fn get_node_root_and_missing() {
    let mut x = SimpleExchange::new();
    let root = x.get_node(Path::root()).unwrap();
    assert!(root.get_path() == Path::root());
    let r = x.get_node(Path::new_str("/missing"));
    assert!(matches!(r, Err(ExchangeError::NodeNotFound)));
}

#[test]
fn insert_collision_keeps_original() {
    let mut x = SimpleExchange::new();
    assert!(x.create_node(Path::new_str("/foo")).is_ok());
    let r = x.create_node(Path::new_str("/foo"));
    assert!(matches!(r, Err(ExchangeError::PathCollision)));
    // the registered node is unaffected and still resolvable
    let h = x.get_node(Path::new_str("/foo")).unwrap();
    assert!(h.get_path().path == "/foo");

    let again = x.insert_node(SimpleNode::new(Path::new_str("/foo"), None));
    assert!(matches!(again, Err(ExchangeError::PathCollision)));
}

#[test]
fn create_at_root_path_collides() {
    let mut x = SimpleExchange::new();
    let r = x.create_node(Path::root());
    assert!(matches!(r, Err(ExchangeError::PathCollision)));
}

#[test]
fn insert_node_registers_at_own_path() {
    let mut x = SimpleExchange::new();
    let n = SimpleNode::new(Path::new_str("/solo"), None);
    assert!(n.get_path().path == "/solo");
    let h = x.insert_node(n).unwrap();
    assert!(h.get_path().path == "/solo");
    assert!(x.get_node(Path::new_str("/solo")).is_ok());
}

#[test]
fn subscription_is_idempotent() {
    let mut x = SimpleExchange::new();
    x.create_node(Path::new_str("/a")).unwrap();
    x.create_node(Path::new_str("/b")).unwrap();
    x.add_subscription(Path::new_str("/a"), Path::new_str("/b")).unwrap();
    x.add_subscription(Path::new_str("/a"), Path::new_str("/b")).unwrap();
    let m = Msg::new(Path::new_str("/a"), MesgData::Bytes(vec![1, 2, 3]));
    let r = x.send_mesg(m, Path::new_str("/a")).unwrap();
    // delivered to /a and /b exactly once each, not twice
    assert_eq!(paths_of(&r), vec!["/a".to_string(), "/b".to_string()]);
}

#[test]
fn subscription_to_missing_node_fails() {
    let mut x = SimpleExchange::new();
    x.create_node(Path::new_str("/a")).unwrap();
    let r = x.add_subscription(Path::new_str("/a"), Path::new_str("/nope"));
    assert!(matches!(r, Err(ExchangeError::NodeNotFound)));
    let r2 = x.add_subscription(Path::new_str("/nope"), Path::new_str("/a"));
    assert!(matches!(r2, Err(ExchangeError::NodeNotFound)));
}

#[test]
fn unsubscribe_then_resend() {
    let mut x = SimpleExchange::new();
    x.create_node(Path::new_str("/a")).unwrap();
    x.create_node(Path::new_str("/b")).unwrap();
    x.add_subscription(Path::new_str("/a"), Path::new_str("/b")).unwrap();
    x.del_subscription(Path::new_str("/a"), Path::new_str("/b")).unwrap();
    let m = Msg::new(Path::new_str("/a"), MesgData::String("hi".to_string()));
    let r = x.send_mesg(m, Path::new_str("/a")).unwrap();
    assert_eq!(paths_of(&r), vec!["/a".to_string()]);
    // unsubscribing again, or from a subscription that never existed, is fine
    x.del_subscription(Path::new_str("/a"), Path::new_str("/b")).unwrap();
    x.del_subscription(Path::new_str("/a"), Path::new_str("/never")).unwrap();
}

#[test]
fn del_node_then_lookup_fails_but_handle_survives() {
    let mut x = SimpleExchange::new();
    x.create_node(Path::new_str("/foo")).unwrap();
    let h = x.get_node(Path::new_str("/foo")).unwrap();
    x.del_node(Path::new_str("/foo")).unwrap();
    let r = x.get_node(Path::new_str("/foo"));
    assert!(matches!(r, Err(ExchangeError::NodeNotFound)));
    // a handle obtained before deletion still reports its own path
    assert!(h.get_path().path == "/foo");
    // deleting an unregistered node, or the root, is NodeNotFound
    assert!(matches!(x.del_node(Path::new_str("/foo")), Err(ExchangeError::NodeNotFound)));
    assert!(matches!(x.del_node(Path::root()), Err(ExchangeError::NodeNotFound)));
}

#[test]
fn del_node_does_not_cascade() {
    let mut x = SimpleExchange::new();
    x.create_node(Path::new_str("/foo")).unwrap();
    x.create_node(Path::new_str("/foo/bar")).unwrap();
    x.del_node(Path::new_str("/foo")).unwrap();
    // the child keeps its own registry entry
    assert!(x.get_node(Path::new_str("/foo/bar")).is_ok());
}

#[test]
fn del_node_stops_fanout_to_it() {
    let mut x = SimpleExchange::new();
    x.create_node(Path::new_str("/a")).unwrap();
    x.create_node(Path::new_str("/b")).unwrap();
    x.add_subscription(Path::new_str("/a"), Path::new_str("/b")).unwrap();
    x.del_node(Path::new_str("/b")).unwrap();
    let m = Msg::new(Path::new_str("/a"), MesgData::Bytes(vec![]));
    let r = x.send_mesg(m, Path::new_str("/a")).unwrap();
    assert_eq!(paths_of(&r), vec!["/a".to_string()]);
}

#[test]
fn send_to_missing_node_fails() {
    let mut x = SimpleExchange::new();
    let m = Msg::new(Path::new_str("/a"), MesgData::Bytes(vec![7]));
    let r = x.send_mesg(m, Path::new_str("/a"));
    assert!(matches!(r, Err(ExchangeError::NodeNotFound)));
}

#[test]
fn subscribing_the_root_fans_out() {
    let mut x = SimpleExchange::new();
    x.create_node(Path::new_str("/log")).unwrap();
    x.add_subscription(Path::root(), Path::new_str("/log")).unwrap();
    let m = Msg::new(Path::root(), MesgData::String("boot".to_string()));
    let r = x.send_mesg(m, Path::root()).unwrap();
    assert_eq!(paths_of(&r), vec!["".to_string(), "/log".to_string()]);
}

#[test]
fn handles_share_storage_and_clone() {
    let mut x = SimpleExchange::new();
    x.create_node(Path::new_str("/n")).unwrap();
    let h = x.get_node(Path::new_str("/n")).unwrap();
    let h2 = h.clone();
    assert!(h.get_path() == h2.get_path());

    let root = SimpleNode::new_single_threaded_root();
    match &root {
        ThreadMode::Single(rc) => assert!(rc.get_path() == Path::root()),
        ThreadMode::Multi(_) => panic!("expected a single-threaded handle"),
    }
    let shared_root = SimpleNode::new_multi_threaded_root();
    match &shared_root {
        ThreadMode::Multi(arc) => assert!(arc.get_path() == Path::root()),
        ThreadMode::Single(_) => panic!("expected a multi-threaded handle"),
    }
}

fn observable_run(x: &mut SimpleExchange) -> Vec<String> {
    let mut log: Vec<String> = Vec::new();
    log.push(format!("create-a:{}", x.create_node(Path::new_str("/a")).is_ok()));
    log.push(format!("create-b:{}", x.create_node(Path::new_str("/b")).is_ok()));
    log.push(format!("create-deep:{}", x.create_node(Path::new_str("/c/d")).is_ok()));
    log.push(format!(
        "sub:{}",
        x.add_subscription(Path::new_str("/a"), Path::new_str("/b")).is_ok()
    ));
    log.push(format!(
        "sub-again:{}",
        x.add_subscription(Path::new_str("/a"), Path::new_str("/b")).is_ok()
    ));
    let m = Msg::new(Path::new_str("/a"), MesgData::Bytes(vec![9]));
    match x.send_mesg(m, Path::new_str("/a")) {
        Ok(r) => {
            for p in &r {
                log.push(p.path.clone());
            }
        },
        Err(_) => log.push("send-failed".to_string()),
    }
    log.push(format!("del-b:{}", x.del_node(Path::new_str("/b")).is_ok()));
    let m2 = Msg::new(Path::new_str("/a"), MesgData::Bytes(vec![9]));
    match x.send_mesg(m2, Path::new_str("/a")) {
        Ok(r) => {
            for p in &r {
                log.push(p.path.clone());
            }
        },
        Err(_) => log.push("send-failed".to_string()),
    }
    match x.get_node(Path::new_str("/a")) {
        Ok(h) => log.push(h.get_path().path),
        Err(_) => log.push("lookup-failed".to_string()),
    }
    log
}

#[test]
fn exclusive_and_shared_modes_are_interchangeable() {
    let mut exclusive = SimpleExchange::new();
    let mut shared = SimpleExchange::new_multi_threaded();
    let a = observable_run(&mut exclusive);
    let b = observable_run(&mut shared);
    assert_eq!(a, b);
}
