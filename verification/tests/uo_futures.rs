use futures::executor::block_on;
use message_transforms::uo_futures::{Collected, UOFutures};
use std::future::Future;
use std::pin::Pin;
use std::task::{Context, Poll};

/// Resolves to its value when it has been polled that many times before.
struct Late {
    polls: u32,
    value: u64,
}

impl Future for Late {
    type Output = u64;

    fn poll(mut self: Pin<&mut Self>, cx: &mut Context<'_>) -> Poll<u64> {
        if self.polls == 0 {
            return Poll::Ready(self.value);
        }
        self.polls -= 1;
        cx.waker().wake_by_ref();
        Poll::Pending
    }
}

fn collected(futures: UOFutures<Late>) -> Vec<u64> {
    match futures.collect() {
        Collected::Ordered(all) => block_on(all),
        Collected::Unordered(all) => block_on(all),
    }
}

fn filled(ordered: bool) -> UOFutures<Late> {
    let mut futures = UOFutures::new(ordered);
    futures.push(Late { polls: 6, value: 1 });
    futures.push(Late { polls: 0, value: 2 });
    futures.push(Late { polls: 3, value: 3 });
    futures
}

#[test]
fn a_new_collection_is_of_the_kind_asked_for() {
    assert!(matches!(UOFutures::<Late>::new(true), UOFutures::Ordered(_)));
    assert!(matches!(UOFutures::<Late>::new(false), UOFutures::Unordered(_)));
}

#[test]
fn a_new_collection_holds_nothing() {
    assert_eq!(collected(UOFutures::new(true)), Vec::<u64>::new());
    assert_eq!(collected(UOFutures::new(false)), Vec::<u64>::new());
}

#[test]
fn a_push_keeps_the_kind_and_adds_one() {
    match filled(true) {
        UOFutures::Ordered(queue) => assert_eq!(queue.len(), 3),
        UOFutures::Unordered(_) => panic!("the order is lost"),
    }
    match filled(false) {
        UOFutures::Unordered(set) => assert_eq!(set.len(), 3),
        UOFutures::Ordered(_) => panic!("an order was made up"),
    }
}

#[test]
fn ordered_futures_come_back_as_they_were_pushed() {
    assert_eq!(collected(filled(true)), vec![1, 2, 3]);
}

#[test]
fn unordered_futures_come_back_as_they_complete() {
    assert_eq!(collected(filled(false)), vec![2, 3, 1]);
}

#[test]
fn unordered_futures_come_back_once_each() {
    let mut values = collected(filled(false));
    values.sort();
    assert_eq!(values, vec![1, 2, 3]);
}
