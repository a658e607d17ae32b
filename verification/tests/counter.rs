use client_server::counter::{apply, apply_all};
use client_server::protocol::Command;
use client_server::store::CounterStore;
use rayon::iter::{IntoParallelIterator, ParallelIterator};

#[test]
fn apply_adds_and_subtracts() {
    assert_eq!(apply(0, Command::Increment(10)), 10);
    assert_eq!(apply(10, Command::Increment(-3)), 7);
    assert_eq!(apply(7, Command::Decrement(10)), -3);
    assert_eq!(apply(7, Command::Decrement(-10)), 17);
    assert_eq!(apply(7, Command::Ping), 7);
    assert_eq!(apply(7, Command::Fetch), 7);
}

#[test]
fn apply_wraps_around() {
    assert_eq!(apply(i32::MAX, Command::Increment(1)), i32::MIN);
    assert_eq!(apply(i32::MIN, Command::Decrement(1)), i32::MAX);
    assert_eq!(apply(i32::MIN, Command::Increment(-1)), i32::MAX);
    assert_eq!(apply(0, Command::Decrement(i32::MIN)), i32::MIN);
    assert_eq!(apply(i32::MAX, Command::Increment(i32::MAX)), -2);
}

#[test]
fn no_update_is_lost_in_a_run() {
    let cmds = [
        Command::Increment(10),
        Command::Ping,
        Command::Decrement(4),
        Command::Fetch,
        Command::Increment(-3),
        Command::Decrement(-20),
    ];
    assert_eq!(apply_all(100, &cmds), 100 + 10 - 4 - 3 + 20);
    assert_eq!(apply_all(5, &[]), 5);
}

#[test]
fn a_run_that_leaves_the_range_and_comes_back_adds_up() {
    let cmds = [Command::Increment(i32::MAX), Command::Increment(i32::MAX), Command::Decrement(i32::MAX)];
    assert_eq!(apply_all(1, &cmds), i32::MIN);
    let cmds = [Command::Increment(i32::MAX), Command::Increment(5), Command::Decrement(i32::MAX)];
    assert_eq!(apply_all(1, &cmds), 6);
}

#[test]
fn the_order_of_a_run_does_not_matter() {
    let cmds = [
        Command::Increment(i32::MAX),
        Command::Increment(17),
        Command::Decrement(i32::MAX),
        Command::Decrement(-4),
    ];
    let expected = apply_all(3, &cmds);
    assert_eq!(expected, 24);
    let orders: [[usize; 4]; 6] =
        [[0, 1, 2, 3], [3, 2, 1, 0], [1, 0, 3, 2], [2, 3, 0, 1], [1, 2, 3, 0], [0, 2, 1, 3]];
    for order in orders {
        let shuffled: Vec<Command> = order.iter().map(|&i| cmds[i]).collect();
        assert_eq!(apply_all(3, &shuffled), expected);
    }
}

#[test]
fn a_new_store_holds_zero() {
    assert_eq!(CounterStore::new().fetch(), 0);
}

#[test]
fn the_store_adds_and_subtracts() {
    let store = CounterStore::new();
    store.increment(10);
    assert_eq!(store.fetch(), 10);
    store.increment(-3);
    assert_eq!(store.fetch(), 7);
    store.decrement(10);
    assert_eq!(store.fetch(), -3);
    store.decrement(-3);
    assert_eq!(store.fetch(), 0);
}

#[test]
fn the_store_wraps_around() {
    let store = CounterStore::new();
    store.increment(i32::MAX);
    store.increment(1);
    assert_eq!(store.fetch(), i32::MIN);
    store.decrement(1);
    assert_eq!(store.fetch(), i32::MAX);
}

#[test]
fn the_store_agrees_with_a_run() {
    let cmds = [Command::Increment(8), Command::Decrement(3), Command::Increment(-2)];
    let store = CounterStore::new();
    for cmd in cmds {
        match cmd {
            Command::Increment(amount) => store.increment(amount),
            Command::Decrement(amount) => store.decrement(amount),
            _ => {}
        }
    }
    assert_eq!(store.fetch(), apply_all(0, &cmds));
}

#[test]
fn the_store_loses_no_update_of_concurrent_callers() {
    let store = CounterStore::new();
    (0..1000).into_par_iter().for_each(|i: i32| {
        if i % 2 == 0 {
            store.increment(i);
        } else {
            store.decrement(3);
        }
    });
    let evens: i32 = (0..1000).filter(|i| i % 2 == 0).sum();
    assert_eq!(store.fetch(), evens - 3 * 500);
}
