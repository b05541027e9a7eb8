use lib::atomic_queue::Queue;
use std::cell::RefCell;
use std::collections::HashMap;

#[test]
fn test_queue() {
    println!("Hello RustLocklessQueue.");

    let mut que = Queue::new();
    for i in 0..5000 {
        que.emplace(i);
    }

    let map: RefCell<HashMap<i32, i32>> = RefCell::new(HashMap::new());
    let consumed = que.consume_all(|val| {
        let mut map = map.borrow_mut();
        let count = map.entry(val).or_insert(0);
        *count += 1;
    });
    assert_eq!(consumed, 5000);

    for i in 0..5000 {
        let mut map = map.borrow_mut();
        let x = map.entry(i).or_insert(0);
        assert_eq!(*x, 1, "ERROR: {x} is not 1, but it should be");
    }
}

trait __TestBaseTrait {
    fn test(&self) -> i32;
}

struct __TestStruct(i32);

impl __TestStruct {
    fn new(val: i32) -> Self {
        __TestStruct(val)
    }
}

impl __TestBaseTrait for __TestStruct {
    fn test(&self) -> i32 {
        println!("{}", self.0);
        self.0
    }
}

#[test]
fn test_queue_pop() {
    let mut que = Queue::<Box<dyn __TestBaseTrait>>::new();
    que.emplace(Box::new(__TestStruct::new(99)));

    if let Some(ret) = que.pop() {
        ret.test();
    }
}

#[test]
fn pop_returns_the_emplaced_trait_object() {
    let mut que = Queue::<Box<dyn __TestBaseTrait>>::new();
    que.emplace(Box::new(__TestStruct::new(99)));
    let ret = que.pop().expect("one value was emplaced");
    assert_eq!(ret.test(), 99);
    assert!(que.pop().is_none());
}

#[test]
fn pop_on_empty_queue_is_none() {
    let mut que: Queue<u8> = Queue::new();
    assert_eq!(que.pop(), None);
    assert_eq!(que.pop(), None);
}

#[test]
fn pop_is_first_in_first_out() {
    let mut que = Queue::new();
    que.emplace(1);
    que.emplace(2);
    assert_eq!(que.pop(), Some(1));
    que.emplace(3);
    assert_eq!(que.pop(), Some(2));
    assert_eq!(que.pop(), Some(3));
    assert_eq!(que.pop(), None);
}

#[test]
fn consume_all_hands_values_over_in_order_and_empties() {
    let mut que = Queue::new();
    for v in [5, 3, 9, 1] {
        que.emplace(v);
    }
    let seen = RefCell::new(Vec::new());
    let n = que.consume_all(|v| seen.borrow_mut().push(v));
    assert_eq!(n, 4);
    assert_eq!(*seen.borrow(), vec![5, 3, 9, 1]);
    assert_eq!(que.pop(), None);
    assert_eq!(que.consume_all(|_| panic!("the queue is empty")), 0);
}

#[test]
fn queue_is_reusable_after_draining() {
    let mut que = Queue::new();
    que.emplace("a");
    assert_eq!(que.consume_all(|_| {}), 1);
    que.emplace("b");
    assert_eq!(que.pop(), Some("b"));
}

#[test]
fn emplace_then_pop_commutes_on_a_non_empty_queue() {
    // pop(emplace(s, v)) == (front of s, rest of s then v)
    let mut a = Queue::new();
    a.emplace(10);
    a.emplace(20);
    a.emplace(30);
    let first = a.pop();

    let mut b = Queue::new();
    b.emplace(10);
    b.emplace(20);
    let first_b = b.pop();
    b.emplace(30);

    assert_eq!(first, first_b);
    let rest_a = RefCell::new(Vec::new());
    let rest_b = RefCell::new(Vec::new());
    a.consume_all(|v| rest_a.borrow_mut().push(v));
    b.consume_all(|v| rest_b.borrow_mut().push(v));
    assert_eq!(*rest_a.borrow(), *rest_b.borrow());
}

#[test]
fn consume_all_calls_the_callback_once_per_value() {
    let mut que = Queue::new();
    for v in 0..10u32 {
        que.emplace(v);
    }
    let calls = RefCell::new(0u32);
    let sum = RefCell::new(0u32);
    que.consume_all(|v| {
        *calls.borrow_mut() += 1;
        *sum.borrow_mut() += v;
    });
    assert_eq!(*calls.borrow(), 10);
    assert_eq!(*sum.borrow(), 45);
}
