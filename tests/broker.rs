use std::cell::RefCell;
use std::collections::BTreeMap;
use std::rc::Rc;

use dim::addr::PeerAddr;
use dim::broker::{CtrlEvent, IntoCtrlEvent, Step};
use dim::registry::{Peer, Registry};

type Log = Rc<RefCell<Vec<(u16, String)>>>;

struct TestSink {
    port: u16,
    fail: Rc<RefCell<bool>>,
    log: Log,
}

impl TestSink {
    fn send(&mut self, text: &str) -> bool {
        self.log.borrow_mut().push((self.port, text.to_string()));
        !*self.fail.borrow()
    }
}

fn addr(port: u16) -> PeerAddr {
    PeerAddr::new(0x7f00_0001, port)
}

fn sink(port: u16, log: &Log) -> (TestSink, Rc<RefCell<bool>>) {
    let fail = Rc::new(RefCell::new(false));
    (TestSink { port, fail: fail.clone(), log: log.clone() }, fail)
}

/// Applies one command and carries out the sends it asks for; returns the
/// peers that left the registry.
fn run(reg: &mut Registry<TestSink, u32>, ev: CtrlEvent<TestSink, u32>) -> Vec<Peer<TestSink, u32>> {
    match reg.apply(ev) {
        Step::Release(gone) => gone,
        Step::Deliver { message, mut peers } => {
            let mut ok = Vec::new();
            for p in peers.iter_mut() {
                ok.push(p.sink.send(&message));
            }
            reg.settle(peers, ok)
        }
    }
}

fn ports(reg: &Registry<TestSink, u32>) -> Vec<u16> {
    let mut v: Vec<u16> = reg.addresses().iter().map(|a| a.port).collect();
    v.sort();
    v
}

fn attempted(log: &Log, text: &str) -> Vec<u16> {
    let mut v: Vec<u16> = log.borrow().iter().filter(|(_, t)| t == text).map(|(p, _)| *p).collect();
    v.sort();
    v
}

#[test]
fn broadcast_evicts_failing_peer() {
    let log: Log = Rc::new(RefCell::new(Vec::new()));
    let mut reg = Registry::new();
    let mut fail_b = None;
    for (port, id) in [(1u16, 10u32), (2, 20), (3, 30)] {
        let (s, f) = sink(port, &log);
        if port == 2 {
            fail_b = Some(f);
        }
        assert!(run(&mut reg, CtrlEvent::Track { addr: addr(port), sink: s, auth: id }).is_empty());
    }
    *fail_b.unwrap().borrow_mut() = true;
    let gone = run(&mut reg, CtrlEvent::SendAll("x".to_string()));
    assert_eq!(attempted(&log, "x"), vec![1, 2, 3]);
    assert_eq!(gone.len(), 1);
    assert_eq!(gone[0].addr, addr(2));
    assert_eq!(gone[0].auth, 20);
    assert_eq!(ports(&reg), vec![1, 3]);
    let gone = run(&mut reg, CtrlEvent::SendAll("y".to_string()));
    assert!(gone.is_empty());
    assert_eq!(attempted(&log, "y"), vec![1, 3]);
    assert_eq!(ports(&reg), vec![1, 3]);
}

#[test]
fn broadcast_attempts_every_peer_once() {
    let log: Log = Rc::new(RefCell::new(Vec::new()));
    let mut reg = Registry::new();
    let mut fails = Vec::new();
    for port in 1..=5u16 {
        let (s, f) = sink(port, &log);
        fails.push(f);
        run(&mut reg, CtrlEvent::Track { addr: addr(port), sink: s, auth: port as u32 });
    }
    *fails[0].borrow_mut() = true;
    *fails[3].borrow_mut() = true;
    let gone = run(&mut reg, CtrlEvent::SendAll("m".to_string()));
    assert_eq!(attempted(&log, "m"), vec![1, 2, 3, 4, 5]);
    let mut gone_ports: Vec<u16> = gone.iter().map(|p| p.addr.port).collect();
    gone_ports.sort();
    assert_eq!(gone_ports, vec![1, 4]);
    assert_eq!(ports(&reg), vec![2, 3, 5]);
    assert_eq!(reg.len(), 3);
}

#[test]
fn broadcast_to_empty_registry_sends_nothing() {
    let log: Log = Rc::new(RefCell::new(Vec::new()));
    let mut reg: Registry<TestSink, u32> = Registry::new();
    assert!(run(&mut reg, CtrlEvent::SendAll("z".to_string())).is_empty());
    assert!(log.borrow().is_empty());
    assert_eq!(reg.len(), 0);
}

#[test]
fn forget_of_absent_address_changes_nothing() {
    let log: Log = Rc::new(RefCell::new(Vec::new()));
    let mut reg = Registry::new();
    let (s, _) = sink(1, &log);
    run(&mut reg, CtrlEvent::Track { addr: addr(1), sink: s, auth: 1 });
    assert!(run(&mut reg, CtrlEvent::Forget { addr: addr(9) }).is_empty());
    assert_eq!(ports(&reg), vec![1]);
    let gone = run(&mut reg, CtrlEvent::Forget { addr: addr(1) });
    assert_eq!(gone.len(), 1);
    assert!(run(&mut reg, CtrlEvent::Forget { addr: addr(1) }).is_empty());
    assert_eq!(reg.len(), 0);
}

#[test]
fn track_on_registered_address_replaces_peer() {
    let log: Log = Rc::new(RefCell::new(Vec::new()));
    let mut reg = Registry::new();
    let (s1, _) = sink(1, &log);
    let (s2, _) = sink(1, &log);
    assert!(run(&mut reg, CtrlEvent::Track { addr: addr(1), sink: s1, auth: 7 }).is_empty());
    let gone = run(&mut reg, CtrlEvent::Track { addr: addr(1), sink: s2, auth: 8 });
    assert_eq!(gone.len(), 1);
    assert_eq!(gone[0].auth, 7);
    assert_eq!(reg.len(), 1);
    assert!(reg.contains(&addr(1)));
}

#[test]
fn send_to_reaches_one_peer() {
    let log: Log = Rc::new(RefCell::new(Vec::new()));
    let mut reg = Registry::new();
    for port in 1..=2u16 {
        let (s, _) = sink(port, &log);
        run(&mut reg, CtrlEvent::Track { addr: addr(port), sink: s, auth: 0 });
    }
    let gone = run(&mut reg, CtrlEvent::SendTo { addr: addr(2), message: "hi".to_string() });
    assert!(gone.is_empty());
    assert_eq!(attempted(&log, "hi"), vec![2]);
    assert_eq!(ports(&reg), vec![1, 2]);
}

#[test]
fn send_to_absent_address_sends_nothing() {
    let log: Log = Rc::new(RefCell::new(Vec::new()));
    let mut reg = Registry::new();
    let (s, _) = sink(1, &log);
    run(&mut reg, CtrlEvent::Track { addr: addr(1), sink: s, auth: 0 });
    run(&mut reg, CtrlEvent::Forget { addr: addr(1) });
    assert!(run(&mut reg, CtrlEvent::SendTo { addr: addr(1), message: "hi".to_string() }).is_empty());
    assert!(log.borrow().is_empty());
}

#[test]
fn send_to_failing_peer_evicts_it() {
    let log: Log = Rc::new(RefCell::new(Vec::new()));
    let mut reg = Registry::new();
    let (s, f) = sink(4, &log);
    run(&mut reg, CtrlEvent::Track { addr: addr(4), sink: s, auth: 0 });
    *f.borrow_mut() = true;
    let gone = run(&mut reg, CtrlEvent::SendTo { addr: addr(4), message: "hi".to_string() });
    assert_eq!(gone.len(), 1);
    assert!(!reg.contains(&addr(4)));
}

#[test]
fn producer_string_becomes_broadcast() {
    let ev: CtrlEvent<TestSink, u32> = "progress".to_string().into_ctrl_event();
    match ev {
        CtrlEvent::SendAll(m) => assert_eq!(m, "progress"),
        _ => panic!("expected a broadcast"),
    }
}

#[test]
fn addresses_compare_by_host_and_port() {
    assert!(addr(1).same(&addr(1)));
    assert!(!addr(1).same(&addr(2)));
    assert!(!PeerAddr::new(1, 5).same(&PeerAddr::new(2, 5)));
}

#[test]
fn replay_matches_plain_map_model() {
    let log: Log = Rc::new(RefCell::new(Vec::new()));
    let mut reg = Registry::new();
    let mut model: BTreeMap<u16, u32> = BTreeMap::new();
    let mut fail_flags: BTreeMap<u16, Rc<RefCell<bool>>> = BTreeMap::new();
    // (kind, port, identity): 0 track, 1 forget, 2 send to, 3 send all, 4 make the port's sink fail
    let script: [(u8, u16, u32); 16] = [
        (0, 1, 11), (0, 2, 12), (0, 3, 13), (2, 2, 0), (1, 9, 0), (0, 2, 22),
        (4, 3, 0), (3, 0, 0), (1, 1, 0), (0, 4, 14), (4, 4, 0), (2, 4, 0),
        (0, 5, 15), (3, 0, 0), (0, 1, 31), (1, 5, 0),
    ];
    for (kind, port, id) in script {
        match kind {
            0 => {
                let (s, f) = sink(port, &log);
                fail_flags.insert(port, f);
                run(&mut reg, CtrlEvent::Track { addr: addr(port), sink: s, auth: id });
                model.insert(port, id);
            }
            1 => {
                run(&mut reg, CtrlEvent::Forget { addr: addr(port) });
                model.remove(&port);
            }
            2 => {
                run(&mut reg, CtrlEvent::SendTo { addr: addr(port), message: "to".to_string() });
                if *fail_flags[&port].borrow() {
                    model.remove(&port);
                }
            }
            3 => {
                run(&mut reg, CtrlEvent::SendAll("all".to_string()));
                model.retain(|p, _| !*fail_flags[p].borrow());
            }
            _ => {
                *fail_flags[&port].borrow_mut() = true;
            }
        }
        let got: Vec<u16> = ports(&reg);
        let want: Vec<u16> = model.keys().copied().collect();
        assert_eq!(got, want);
        for (p, id) in model.iter() {
            assert_eq!(reg.auth_of(&addr(*p)), Some(id));
        }
    }
    assert_eq!(ports(&reg), vec![1, 2]);
    assert_eq!(reg.auth_of(&addr(1)), Some(&31));
    assert_eq!(reg.auth_of(&addr(2)), Some(&22));
    assert_eq!(reg.auth_of(&addr(3)), None);
}
