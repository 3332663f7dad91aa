//! The queue of requests that wait for a key.

use std::collections::VecDeque;

use dd_rust_network_mutex::queue::LinkedQueue;

#[test]
fn fifo_order() {
    let mut q: LinkedQueue<&'static str, u32> = LinkedQueue::new();
    assert!(q.push_back("a", 1));
    assert!(q.push_back("b", 2));
    assert!(q.push_back("c", 3));
    assert_eq!(q.len(), 3);
    assert_eq!(q.pop_front(), Some(("a", 1)));
    assert_eq!(q.pop_front(), Some(("b", 2)));
    assert_eq!(q.pop_front(), Some(("c", 3)));
    assert!(q.pop_front().is_none());
}

#[test]
fn duplicate_key_is_noop() {
    let mut q: LinkedQueue<&'static str, u32> = LinkedQueue::new();
    assert!(q.push_back("a", 1));
    assert!(!q.push_back("a", 99));
    assert_eq!(q.len(), 1);
    assert_eq!(q.get(&"a"), Some(&1));
}

#[test]
fn remove_from_middle_o1() {
    let mut q: LinkedQueue<&'static str, u32> = LinkedQueue::new();
    q.push_back("a", 1);
    q.push_back("b", 2);
    q.push_back("c", 3);
    q.push_back("d", 4);
    assert_eq!(q.remove(&"b"), Some(2));
    assert_eq!(q.remove(&"d"), Some(4));
    assert_eq!(q.len(), 2);
    assert_eq!(q.pop_front(), Some(("a", 1)));
    assert_eq!(q.pop_front(), Some(("c", 3)));
    assert!(q.pop_front().is_none());
}

#[test]
fn remove_head_and_tail() {
    let mut q: LinkedQueue<&'static str, u32> = LinkedQueue::new();
    q.push_back("a", 1);
    q.push_back("b", 2);
    q.push_back("c", 3);
    assert_eq!(q.remove(&"a"), Some(1));
    assert_eq!(q.remove(&"c"), Some(3));
    assert_eq!(q.len(), 1);
    assert_eq!(q.pop_front(), Some(("b", 2)));
}

#[test]
fn push_front_jumps_queue() {
    let mut q: LinkedQueue<&'static str, u32> = LinkedQueue::new();
    q.push_back("a", 1);
    q.push_back("b", 2);
    q.push_front("c", 3);
    assert_eq!(q.pop_front(), Some(("c", 3)));
    assert_eq!(q.pop_front(), Some(("a", 1)));
    assert_eq!(q.pop_front(), Some(("b", 2)));
}

#[test]
fn oracle_smoke() {
    let mut q: LinkedQueue<u32, u32> = LinkedQueue::new();
    let mut model: VecDeque<(u32, u32)> = VecDeque::new();
    let mut state: u64 = 0xdeadbeefcafef00d;
    let mut rng = || {
        state = state
            .wrapping_mul(6364136223846793005)
            .wrapping_add(1442695040888963407);
        state
    };

    for step in 0..10_000u32 {
        let op = rng() % 5;
        let k = (rng() % 64) as u32;
        let v = (rng() % 1024) as u32;
        match op {
            0 => {
                let inserted = q.push_back(k, v);
                if !model.iter().any(|(mk, _)| *mk == k) {
                    assert!(inserted, "step {step}: push_back should insert");
                    model.push_back((k, v));
                } else {
                    assert!(!inserted, "step {step}: push_back should be idempotent");
                }
            }
            1 => {
                let inserted = q.push_front(k, v);
                if !model.iter().any(|(mk, _)| *mk == k) {
                    assert!(inserted, "step {step}: push_front should insert");
                    model.push_front((k, v));
                } else {
                    assert!(!inserted, "step {step}: push_front should be idempotent");
                }
            }
            2 => assert_eq!(q.pop_front(), model.pop_front(), "step {step}: pop_front"),
            3 => {
                let removed = q.remove(&k);
                let model_removed = model
                    .iter()
                    .position(|(mk, _)| *mk == k)
                    .map(|p| model.remove(p).unwrap().1);
                assert_eq!(removed, model_removed, "step {step}: remove");
            }
            _ => {
                assert_eq!(q.len(), model.len(), "step {step}: len");
                let q_order: Vec<(u32, u32)> = q.iter().into_iter().map(|(k, v)| (*k, *v)).collect();
                let m_order: Vec<(u32, u32)> = model.iter().copied().collect();
                assert_eq!(q_order, m_order, "step {step}: iter order");
                assert_eq!(
                    q.front().map(|(k, v)| (*k, *v)),
                    model.front().copied(),
                    "step {step}: front"
                );
            }
        }
    }
}
