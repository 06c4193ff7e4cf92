//! Futures that are driven together and handed back either in the order in which they were
//! pushed or in the order in which they complete.
use futures::stream::{FuturesOrdered, FuturesUnordered};
use std::future::Future;
use tokio_stream::StreamExt;
use vstd::future::FutureAdditionalSpecFns;
use vstd::prelude::*;

verus! {

/// The queue of the `futures` crate, opaque here: what it holds is told by how it was built.
#[verifier::external_type_specification]
#[verifier::external_body]
#[verifier::reject_recursive_types(T)]
pub struct ExFuturesOrdered<T: Future>(FuturesOrdered<T>);

/// The set of the `futures` crate, opaque here: what it holds is told by how it was built.
#[verifier::external_type_specification]
#[verifier::external_body]
#[verifier::reject_recursive_types(Fut)]
pub struct ExFuturesUnordered<Fut>(FuturesUnordered<Fut>);

/// `FuturesOrdered::new` returns a queue that holds no future. What the contracts below say of
/// the queue they say through [`queue_holds`], which starts from this call.
pub assume_specification<Fut: Future>[ FuturesOrdered::<Fut>::new ]() -> FuturesOrdered<Fut>;

/// `FuturesUnordered::new` returns a set that holds no future. What the contracts below say of
/// the set they say through [`set_holds`], which starts from this call.
pub assume_specification<Fut>[ FuturesUnordered::<Fut>::new ]() -> FuturesUnordered<Fut>;

/// `FuturesOrdered::push_back` puts the future behind those that the queue holds. The queue is
/// taken and given back, so that [`queue_holds`] can name the step from the one to the other.
#[verifier::external_body]
fn push_back<T: Future>(queue: FuturesOrdered<T>, future: T) -> FuturesOrdered<T> {
    let mut queue = queue;
    queue.push_back(future);
    queue
}

/// `FuturesUnordered::push` adds the future to those that the set holds. The set is taken and
/// given back, so that [`set_holds`] can name the step from the one to the other.
#[verifier::external_body]
fn push_any<T: Future>(set: FuturesUnordered<T>, future: T) -> FuturesUnordered<T> {
    set.push(future);
    set
}

/// The queue is one that pushing `futures`, in this order, onto a new queue makes.
pub closed spec fn queue_holds<T: Future>(queue: FuturesOrdered<T>, futures: Seq<T>) -> bool
    decreases futures.len(),
{
    if futures.len() == 0 {
        call_ensures(FuturesOrdered::<T>::new, (), queue)
    } else {
        exists|before: FuturesOrdered<T>|
            queue_holds(before, futures.drop_last()) && #[trigger] call_ensures(
                push_back::<T>,
                (before, futures.last()),
                queue,
            )
    }
}

/// The set is one that pushing `futures`, in this order, onto a new set makes.
pub closed spec fn set_holds<T: Future>(set: FuturesUnordered<T>, futures: Seq<T>) -> bool
    decreases futures.len(),
{
    if futures.len() == 0 {
        call_ensures(FuturesUnordered::<T>::new, (), set)
    } else {
        exists|before: FuturesUnordered<T>|
            set_holds(before, futures.drop_last()) && #[trigger] call_ensures(
                push_any::<T>,
                (before, futures.last()),
                set,
            )
    }
}

/// `order` names each of the numbers below `n` once.
pub open spec fn is_permutation(order: Seq<int>, n: nat) -> bool {
    &&& order.len() == n
    &&& forall|i: int| 0 <= i < n ==> 0 <= #[trigger] order[i] < n
    &&& forall|i: int, j: int| 0 <= i < j < n ==> order[i] != order[j]
}

/// `tokio_stream`'s `StreamExt::collect` on a `FuturesOrdered`: a future that, awaited, drives
/// every future of the queue to its end and yields what each resolves to, in the order in which
/// they were pushed, whichever of them completes first.
#[verifier::external_body]
fn collect_queue<T: Future>(queue: FuturesOrdered<T>) -> (all: impl Future<Output = Vec<T::Output>>)
    ensures
        forall|futures: Seq<T>| #[trigger]
            queue_holds(queue, futures) ==> {
                &&& all@.len() == futures.len()
                &&& forall|i: int| 0 <= i < futures.len() ==> all@[i] == (#[trigger] futures[i])@
            },
{
    queue.collect::<Vec<T::Output>>()
}

/// `tokio_stream`'s `StreamExt::collect` on a `FuturesUnordered`: a future that, awaited, drives
/// every future of the set to its end and yields what each resolves to, once, in the order in
/// which they complete. Which order that is, the futures and their executor decide.
#[verifier::external_body]
fn collect_set<T: Future>(set: FuturesUnordered<T>) -> (all: impl Future<Output = Vec<T::Output>>)
    ensures
        forall|futures: Seq<T>| #[trigger]
            set_holds(set, futures) ==> exists|order: Seq<int>| #[trigger]
                is_permutation(order, futures.len()) && all@.len() == futures.len() && forall|
                    i: int,
                |
                    0 <= i < futures.len() ==> all@[i] == futures[#[trigger] order[i]]@,
{
    set.collect::<Vec<T::Output>>()
}

/// Futures that run together: a queue, which keeps the order in which they were pushed, or a
/// set, which does not.
#[verifier::reject_recursive_types(T)]
pub enum UOFutures<T: Future> {
    Ordered(FuturesOrdered<T>),
    Unordered(FuturesUnordered<T>),
}

/// What [`UOFutures::collect`] gives to await: one future for either kind of collection.
pub enum Collected<A, B> {
    Ordered(A),
    Unordered(B),
}

impl<T: Future> UOFutures<T> {
    /// The collection is one that pushing `futures`, in this order, onto a new one makes.
    pub open spec fn holds(self, futures: Seq<T>) -> bool {
        match self {
            UOFutures::Ordered(queue) => queue_holds(queue, futures),
            UOFutures::Unordered(set) => set_holds(set, futures),
        }
    }

    /// `after` is what `self` becomes when `future` is pushed onto it.
    pub closed spec fn pushed(self, future: T, after: Self) -> bool {
        match (self, after) {
            (UOFutures::Ordered(p), UOFutures::Ordered(q)) => call_ensures(
                push_back::<T>,
                (p, future),
                q,
            ),
            (UOFutures::Unordered(p), UOFutures::Unordered(q)) => call_ensures(
                push_any::<T>,
                (p, future),
                q,
            ),
            _ => false,
        }
    }

    /// An empty collection, which keeps the order of what is pushed if `ordered` says so.
    pub fn new(ordered: bool) -> (made: Self)
        ensures
            made is Ordered <==> ordered,
            made.holds(Seq::empty()),
    {
        if ordered {
            UOFutures::Ordered(FuturesOrdered::new())
        } else {
            UOFutures::Unordered(FuturesUnordered::new())
        }
    }

    /// Adds a future behind those that are already there.
    pub fn push(&mut self, future: T)
        ensures
            old(self).pushed(future, *final(self)),
            *final(self) is Ordered <==> *old(self) is Ordered,
            forall|futures: Seq<T>| #[trigger]
                old(self).holds(futures) ==> final(self).holds(futures.push(future)),
    {
        let mut taken = UOFutures::new(true);
        std::mem::swap(self, &mut taken);
        *self = match taken {
            UOFutures::Ordered(queue) => UOFutures::Ordered(push_back(queue, future)),
            UOFutures::Unordered(set) => UOFutures::Unordered(push_any(set, future)),
        };
        proof {
            law_push_appends(*old(self), future, *self);
        }
    }

    /// One future for all of them: it yields what each resolves to, in the order in which they
    /// were pushed if the collection is ordered, else in some order.
    pub fn collect(self) -> (all: Collected<
        impl Future<Output = Vec<T::Output>>,
        impl Future<Output = Vec<T::Output>>,
    >)
        ensures
            all is Ordered <==> self is Ordered,
            forall|futures: Seq<T>| #[trigger]
                self.holds(futures) ==> match all {
                    Collected::Ordered(all) => {
                        &&& all@.len() == futures.len()
                        &&& forall|i: int|
                            0 <= i < futures.len() ==> all@[i] == (#[trigger] futures[i])@
                    },
                    Collected::Unordered(all) => exists|order: Seq<int>| #[trigger]
                        is_permutation(order, futures.len()) && all@.len() == futures.len()
                            && forall|i: int|
                            0 <= i < futures.len() ==> all@[i] == futures[#[trigger] order[i]]@,
                },
    {
        match self {
            UOFutures::Ordered(queue) => Collected::Ordered(collect_queue(queue)),
            UOFutures::Unordered(set) => Collected::Unordered(collect_set(set)),
        }
    }
}

/// A push keeps all that a collection holds, in its order, and adds the one future at its end.
pub proof fn law_push_appends<T: Future>(before: UOFutures<T>, future: T, after: UOFutures<T>)
    requires
        before.pushed(future, after),
    ensures
        after is Ordered <==> before is Ordered,
        forall|futures: Seq<T>| #[trigger]
            before.holds(futures) ==> after.holds(futures.push(future)),
{
    assert forall|futures: Seq<T>| #[trigger] before.holds(futures) implies after.holds(
        futures.push(future),
    ) by {
        let longer = futures.push(future);
        assert(longer.drop_last() =~= futures);
        assert(longer.last() == future);
        match (before, after) {
            (UOFutures::Ordered(p), UOFutures::Ordered(q)) => {
                assert(queue_holds(p, longer.drop_last()));
                assert(queue_holds(q, longer));
            },
            (UOFutures::Unordered(p), UOFutures::Unordered(q)) => {
                assert(set_holds(p, longer.drop_last()));
                assert(set_holds(q, longer));
            },
            _ => {},
        }
    }
}

/// Each of `states` but the first is what the one before it becomes when the future at the same
/// place is pushed onto it.
pub open spec fn pushed_in_turn<T: Future>(states: Seq<UOFutures<T>>, futures: Seq<T>) -> bool {
    &&& states.len() == futures.len() + 1
    &&& forall|i: int|
        0 <= i < futures.len() ==> (#[trigger] states[i]).pushed(futures[i], states[i + 1])
}

/// A collection that was made empty and onto which `futures` were pushed, one after the other,
/// is still of the kind it was made as and holds exactly them, in that order.
pub proof fn law_holds_what_was_pushed<T: Future>(
    ordered: bool,
    states: Seq<UOFutures<T>>,
    futures: Seq<T>,
)
    requires
        states.len() > 0,
        call_ensures(UOFutures::<T>::new, (ordered,), states[0]),
        pushed_in_turn(states, futures),
    ensures
        states.last() is Ordered <==> ordered,
        states.last().holds(futures),
    decreases futures.len(),
{
    if futures.len() == 0 {
        assert(futures =~= Seq::empty());
    } else {
        let n = futures.len() as int;
        assert forall|i: int| 0 <= i < n - 1 implies (#[trigger] states.drop_last()[i]).pushed(
            futures.drop_last()[i],
            states.drop_last()[i + 1],
        ) by {
            assert(states[i].pushed(futures[i], states[i + 1]));
        }
        law_holds_what_was_pushed(ordered, states.drop_last(), futures.drop_last());
        assert(states[n - 1].pushed(futures[n - 1], states[n]));
        law_push_appends(states[n - 1], futures[n - 1], states[n]);
        assert(futures.drop_last().push(futures[n - 1]) =~= futures);
    }
}

/// An ordered collection, polled to its end, gives what its futures resolve to, all of it and
/// nothing else, in the order in which they were pushed, whichever of them completes first.
pub proof fn law_ordered_outputs<T: Future>(states: Seq<UOFutures<T>>, futures: Seq<T>)
    requires
        states.len() > 0,
        call_ensures(UOFutures::<T>::new, (true,), states[0]),
        pushed_in_turn(states, futures),
    ensures
        forall|all| #[trigger]
            call_ensures(UOFutures::<T>::collect, (states.last(),), all) ==> {
                &&& all is Ordered
                &&& all->Ordered_0@@ == Seq::new(futures.len(), |i: int| futures[i]@)
            },
{
    law_holds_what_was_pushed(true, states, futures);
}

/// Rearranging a sequence keeps how often each of its items occurs.
pub proof fn lemma_permuted_multiset<A>(items: Seq<A>, permuted: Seq<A>, order: Seq<int>)
    requires
        is_permutation(order, items.len()),
        permuted.len() == items.len(),
        forall|i: int| 0 <= i < permuted.len() ==> permuted[i] == items[#[trigger] order[i]],
    ensures
        permuted.to_multiset() == items.to_multiset(),
    decreases items.len(),
{
    broadcast use vstd::seq_lib::group_to_multiset_ensures;

    if items.len() == 0 {
        assert(permuted =~= items);
    } else {
        let n = items.len();
        let p = order[n - 1];
        let rest = items.remove(p);
        let earlier = permuted.drop_last();
        let shifted = Seq::new(
            (n - 1) as nat,
            |i: int|
                if order[i] > p {
                    order[i] - 1
                } else {
                    order[i]
                },
        );
        assert forall|i: int| 0 <= i < n - 1 implies 0 <= #[trigger] shifted[i] < n - 1
            && earlier[i] == rest[shifted[i]] by {
            assert(0 <= order[i] < n && order[i] != order[n - 1]);
            assert(permuted[i] == items[order[i]]);
        }
        assert forall|i: int, j: int| 0 <= i < j < n - 1 implies shifted[i] != shifted[j] by {
            assert(order[i] != order[j] && order[i] != order[n - 1] && order[j] != order[n - 1]);
        }
        lemma_permuted_multiset(rest, earlier, shifted);
        assert(permuted[n - 1] == items[p]);
        assert(permuted =~= earlier.push(items[p]));
        assert(items.contains(items[p]));
        assert(permuted.to_multiset() =~= items.to_multiset());
    }
}

/// An unordered collection, polled to its end, gives what its futures resolve to, each of them
/// once: a permutation of the outputs.
pub proof fn law_unordered_outputs<T: Future>(states: Seq<UOFutures<T>>, futures: Seq<T>)
    requires
        states.len() > 0,
        call_ensures(UOFutures::<T>::new, (false,), states[0]),
        pushed_in_turn(states, futures),
    ensures
        forall|all| #[trigger]
            call_ensures(UOFutures::<T>::collect, (states.last(),), all) ==> {
                &&& all is Unordered
                &&& all->Unordered_0@@.to_multiset() == Seq::new(
                    futures.len(),
                    |i: int| futures[i]@,
                ).to_multiset()
                &&& exists|order: Seq<int>| #[trigger]
                    is_permutation(order, futures.len()) && all->Unordered_0@@ == Seq::new(
                        futures.len(),
                        |i: int| futures[order[i]]@,
                    )
            },
{
    law_holds_what_was_pushed(false, states, futures);
    let outputs = Seq::new(futures.len(), |i: int| futures[i]@);
    assert forall|all| #[trigger]
        call_ensures(UOFutures::<T>::collect, (states.last(),), all) implies all is Unordered
        && all->Unordered_0@@.to_multiset() == outputs.to_multiset() by {
        let given = all->Unordered_0@@;
        let order = choose|order: Seq<int>| #[trigger]
            is_permutation(order, futures.len()) && given.len() == futures.len() && forall|i: int|
                0 <= i < futures.len() ==> given[i] == futures[#[trigger] order[i]]@;
        lemma_permuted_multiset(outputs, given, order);
    }
}

} // verus!
