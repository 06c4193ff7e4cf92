//! What a [`ParallelMap`](crate::parallel_map::ParallelMap) does over all its rounds: which
//! messages go out in which of them, and what they add up to.
use crate::message::{ChainResponse, Message, Wrapper};
use crate::null::{answer, answers, Null};
use crate::parallel_map::{
    all_ok, failed_at, first_error, lemma_failed_at, messages_of, requests_for, round_reply,
    ParallelMap, Request, Run, RunState, Step, StepView,
};
use crate::uo_futures::is_permutation;
use std::future::Future;
use vstd::future::FutureAdditionalSpecFns;
use vstd::prelude::*;
use vstd::seq_lib::lemma_flatten_concat;
use vstd::seq_lib::lemma_multiset_commutative;

verus! {

/// How many of `len` messages go out before round `k`, with `width` chains.
pub open spec fn sent_before(len: nat, width: nat, k: nat) -> nat {
    if k * width <= len {
        k * width
    } else {
        len
    }
}

/// How many rounds `len` messages take, with `width` chains.
pub open spec fn round_count(len: nat, width: nat) -> nat {
    ((len + width - 1) / width as int) as nat
}

/// The part of `items` that belongs to round `k`, with `width` chains.
pub open spec fn batch<A>(items: Seq<A>, width: nat, k: nat) -> Seq<A> {
    items.subrange(
        sent_before(items.len(), width, k) as int,
        sent_before(items.len(), width, k + 1) as int,
    )
}

/// The parts of `items` that belong to the first `n` rounds.
pub open spec fn batches<A>(items: Seq<A>, width: nat, n: nat) -> Seq<Seq<A>> {
    Seq::new(n, |k: int| batch(items, width, k as nat))
}

/// Where a transformation stands once its rounds have come to `arrivals`, one after the other.
pub open spec fn after<M, E>(state: RunState<M>, arrivals: Seq<Seq<ChainResponse<M, E>>>) -> StepView<
    M,
    E,
>
    decreases arrivals.len(),
{
    if arrivals.len() == 0 {
        state.next()
    } else {
        match after(state, arrivals.drop_last()) {
            StepView::Dispatch { requests: _, run } => run.resume(arrivals.last()),
            StepView::Done(response) => StepView::Done(response),
        }
    }
}

/// No outcome of any round is an error.
pub open spec fn all_rounds_ok<M, E>(arrivals: Seq<Seq<ChainResponse<M, E>>>) -> bool {
    forall|k: int| 0 <= k < arrivals.len() ==> all_ok(#[trigger] arrivals[k])
}

/// What rounds without an error that came to `arrivals` add up to.
pub open spec fn total_reply<M, E>(arrivals: Seq<Seq<ChainResponse<M, E>>>) -> Seq<M>
    recommends
        all_rounds_ok(arrivals),
{
    arrivals.map_values(|outcomes: Seq<ChainResponse<M, E>>| round_reply(outcomes)).flatten()
}

/// A round is due exactly as long as messages are left.
proof fn lemma_round_due(len: nat, width: nat, k: nat)
    requires
        width > 0,
    ensures
        k < round_count(len, width) <==> k * width < len,
{
    let q = (len + width - 1) / width as int;
    let r = (len + width - 1) % width as int;
    vstd::arithmetic::div_mod::lemma_fundamental_div_mod(len + width - 1, width as int);
    vstd::arithmetic::div_mod::lemma_mod_bound(len + width - 1, width as int);
    assert(width * q == q * width) by (nonlinear_arith);
    assert(q >= 0) by (nonlinear_arith)
        requires
            q * width + r == len + width - 1,
            0 <= r < width,
            len >= 0,
            width > 0,
    ;
    if k < q {
        assert(k * width + width <= q * width) by (nonlinear_arith)
            requires
                k + 1 <= q,
                width > 0,
        ;
    } else {
        assert(q * width <= k * width) by (nonlinear_arith)
            requires
                q <= k,
                width > 0,
        ;
    }
}

proof fn lemma_sent_before_next(len: nat, width: nat, k: nat)
    ensures
        (k + 1) * width == k * width + width,
        sent_before(len, width, k) <= sent_before(len, width, k + 1) <= len,
{
    assert((k + 1) * width == k * width + width) by (nonlinear_arith);
}

proof fn lemma_total_reply_push<M, E>(
    arrivals: Seq<Seq<ChainResponse<M, E>>>,
    outcomes: Seq<ChainResponse<M, E>>,
)
    ensures
        total_reply(arrivals.push(outcomes)) == total_reply(arrivals) + round_reply(outcomes),
{
    let reply = |outcomes: Seq<ChainResponse<M, E>>| round_reply(outcomes);
    assert(arrivals.push(outcomes).map_values(reply) =~= arrivals.map_values(reply).push(
        round_reply(outcomes),
    ));
    arrivals.map_values(reply).lemma_flatten_push(round_reply(outcomes));
}

/// Round by round: round `k` sends out the messages from `k * width` on, one to each chain, as
/// long as there are any and no outcome was an error, and once all have gone out the answer is
/// what the rounds add up to, in their order.
pub proof fn law_rounds<M, E>(
    width: nat,
    ordered: bool,
    messages: Seq<M>,
    arrivals: Seq<Seq<ChainResponse<M, E>>>,
)
    requires
        width > 0,
        arrivals.len() <= round_count(messages.len(), width),
        all_rounds_ok(arrivals),
    ensures
        ({
            let k = arrivals.len();
            let step = after(RunState::start(width, ordered, messages), arrivals);
            if k < round_count(messages.len(), width) {
                step == StepView::<M, E>::Dispatch {
                    requests: requests_for(batch(messages, width, k)),
                    run: RunState {
                        width,
                        ordered,
                        remaining: messages.skip(sent_before(messages.len(), width, k + 1) as int),
                        results: total_reply(arrivals),
                    },
                }
            } else {
                step == StepView::<M, E>::Done(Ok(total_reply(arrivals)))
            }
        }),
    decreases arrivals.len(),
{
    let len = messages.len();
    let k = arrivals.len();
    lemma_round_due(len, width, k);
    lemma_sent_before_next(len, width, k);
    let state = RunState {
        width,
        ordered,
        remaining: messages.skip(sent_before(len, width, k) as int),
        results: total_reply(arrivals),
    };
    if k == 0 {
        assert(sent_before(len, width, 0) == 0);
        assert(messages.skip(0) =~= messages);
        assert(state =~= RunState::start(width, ordered, messages));
    } else {
        let earlier = arrivals.drop_last();
        assert forall|r: int| 0 <= r < earlier.len() implies all_ok(#[trigger] earlier[r]) by {
            assert(all_ok(arrivals[r]));
        }
        assert(all_ok(arrivals[k - 1]));
        law_rounds(width, ordered, messages, earlier);
        assert(earlier.push(arrivals.last()) =~= arrivals);
        lemma_total_reply_push(earlier, arrivals.last());
        assert((k - 1 + 1) as nat == k);
    }
    assert(after(RunState::start(width, ordered, messages), arrivals) == state.next::<E>());
    if state.remaining.len() > 0 {
        assert(state.remaining.take(state.round_len() as int) =~= batch(messages, width, k));
        assert(state.remaining.skip(state.round_len() as int) =~= messages.skip(
            sent_before(len, width, k + 1) as int,
        ));
    }
}

proof fn lemma_batches_flatten<A>(items: Seq<A>, width: nat, n: nat)
    ensures
        batches(items, width, n).flatten() == items.take(
            sent_before(items.len(), width, n) as int,
        ),
    decreases n,
{
    if n == 0 {
        assert(batches(items, width, n).flatten() =~= Seq::empty());
        assert(0 * width == 0) by (nonlinear_arith);
        assert(items.take(0) =~= Seq::empty());
    } else {
        let k = (n - 1) as nat;
        lemma_batches_flatten(items, width, k);
        lemma_sent_before_next(items.len(), width, k);
        assert(batches(items, width, n) =~= batches(items, width, k).push(batch(items, width, k)));
        batches(items, width, k).lemma_flatten_push(batch(items, width, k));
        assert(items.take(sent_before(items.len(), width, k) as int) + batch(items, width, k)
            =~= items.take(sent_before(items.len(), width, n) as int));
    }
}

/// Every message goes out exactly once, and in the order in which it came: the rounds' parts
/// add up to the messages. No round is empty, and none has more messages than there are chains.
pub proof fn law_every_message_goes_out_once<M>(width: nat, messages: Seq<M>)
    requires
        width > 0,
    ensures
        batches(messages, width, round_count(messages.len(), width)).flatten() == messages,
        forall|k: nat|
            k < round_count(messages.len(), width) ==> 0 < (#[trigger] batch(
                messages,
                width,
                k,
            )).len() <= width,
{
    let n = round_count(messages.len(), width);
    lemma_round_due(messages.len(), width, n);
    lemma_batches_flatten(messages, width, n);
    assert(messages.take(messages.len() as int) =~= messages);
    assert forall|k: nat| k < n implies 0 < (#[trigger] batch(messages, width, k)).len()
        <= width by {
        lemma_round_due(messages.len(), width, k);
        lemma_sent_before_next(messages.len(), width, k);
    }
}

/// The outcomes are successes that carry `replies`, in their order.
pub open spec fn answered_in_order<M, E>(
    outcomes: Seq<ChainResponse<M, E>>,
    replies: Seq<Seq<M>>,
) -> bool {
    &&& outcomes.len() == replies.len()
    &&& forall|j: int|
        0 <= j < outcomes.len() ==> (#[trigger] outcomes[j]) is Ok && messages_of(outcomes[j])
            == replies[j]
}

/// The outcomes are successes that carry `replies`, each of them once, in some order.
pub open spec fn answered_in_some_order<M, E>(
    outcomes: Seq<ChainResponse<M, E>>,
    replies: Seq<Seq<M>>,
) -> bool {
    exists|order: Seq<int>| #[trigger]
        is_permutation(order, replies.len()) && outcomes.len() == replies.len() && forall|j: int|
            0 <= j < outcomes.len() ==> (#[trigger] outcomes[j]) is Ok && messages_of(outcomes[j])
                == replies[order[j]]
}

proof fn lemma_reply_in_order<M, E>(outcomes: Seq<ChainResponse<M, E>>, replies: Seq<Seq<M>>)
    requires
        answered_in_order(outcomes, replies),
    ensures
        round_reply(outcomes) == replies.flatten(),
{
    assert(outcomes.map_values(|outcome: ChainResponse<M, E>| messages_of(outcome)) =~= replies);
}

proof fn lemma_total_in_order<M, E>(
    width: nat,
    replies: Seq<Seq<M>>,
    arrivals: Seq<Seq<ChainResponse<M, E>>>,
)
    requires
        forall|k: nat|
            k < arrivals.len() ==> answered_in_order(
                arrivals[k as int],
                #[trigger] batch(replies, width, k),
            ),
    ensures
        total_reply(arrivals) == batches(replies, width, arrivals.len()).flatten().flatten(),
    decreases arrivals.len(),
{
    let n = arrivals.len();
    if n == 0 {
        assert(total_reply(arrivals) =~= Seq::empty());
        assert(batches(replies, width, n).flatten() =~= Seq::empty());
    } else {
        let k = (n - 1) as nat;
        let earlier = arrivals.drop_last();
        let part = batch(replies, width, k);
        lemma_total_in_order(width, replies, earlier);
        lemma_reply_in_order(arrivals[k as int], part);
        assert(earlier.push(arrivals.last()) =~= arrivals);
        lemma_total_reply_push(earlier, arrivals.last());
        assert(batches(replies, width, n) =~= batches(replies, width, k).push(part));
        batches(replies, width, k).lemma_flatten_push(part);
        lemma_flatten_concat(batches(replies, width, k).flatten(), part);
    }
}

/// Where every chain answers, and each round's outcomes come in the order of its requests, the
/// answer is what the single messages are answered, in the order of the messages: how many
/// chains there are does not show.
pub proof fn law_ordered_answer<M, E>(
    width: nat,
    ordered: bool,
    messages: Seq<M>,
    replies: Seq<Seq<M>>,
    arrivals: Seq<Seq<ChainResponse<M, E>>>,
)
    requires
        width > 0,
        replies.len() == messages.len(),
        arrivals.len() == round_count(messages.len(), width),
        forall|k: nat|
            k < arrivals.len() ==> answered_in_order(
                arrivals[k as int],
                #[trigger] batch(replies, width, k),
            ),
    ensures
        after(RunState::start(width, ordered, messages), arrivals) == StepView::<M, E>::Done(
            Ok(replies.flatten()),
        ),
{
    assert forall|k: int| 0 <= k < arrivals.len() implies all_ok(#[trigger] arrivals[k]) by {
        assert(answered_in_order(arrivals[k], batch(replies, width, k as nat)));
    }
    law_rounds(width, ordered, messages, arrivals);
    lemma_total_in_order(width, replies, arrivals);
    law_every_message_goes_out_once(width, replies);
}

/// What [`Run::gather`](crate::parallel_map::Run::gather) yields where it keeps the order of its
/// futures are the replies, in their order, that the futures resolve to.
pub proof fn law_gathered_in_order<M, E, T: Future<Output = ChainResponse<M, E>>>(
    futures: Seq<T>,
    outcomes: Seq<ChainResponse<M, E>>,
    replies: Seq<Seq<M>>,
)
    requires
        replies.len() == futures.len(),
        forall|i: int|
            0 <= i < futures.len() ==> (#[trigger] futures[i])@ is Ok && messages_of(futures[i]@)
                == replies[i],
        outcomes.len() == futures.len(),
        forall|i: int| 0 <= i < futures.len() ==> outcomes[i] == (#[trigger] futures[i])@,
    ensures
        answered_in_order(outcomes, replies),
{
    assert forall|j: int| 0 <= j < outcomes.len() implies (#[trigger] outcomes[j]) is Ok
        && messages_of(outcomes[j]) == replies[j] by {
        assert(outcomes[j] == futures[j]@);
    }
}

/// What [`Run::gather`](crate::parallel_map::Run::gather) yields where it does not keep the order
/// of its futures are the replies, each of them once, that the futures resolve to.
pub proof fn law_gathered_in_some_order<M, E, T: Future<Output = ChainResponse<M, E>>>(
    futures: Seq<T>,
    outcomes: Seq<ChainResponse<M, E>>,
    replies: Seq<Seq<M>>,
    order: Seq<int>,
)
    requires
        replies.len() == futures.len(),
        forall|i: int|
            0 <= i < futures.len() ==> (#[trigger] futures[i])@ is Ok && messages_of(futures[i]@)
                == replies[i],
        is_permutation(order, futures.len()),
        outcomes.len() == futures.len(),
        forall|i: int| 0 <= i < futures.len() ==> outcomes[i] == futures[#[trigger] order[i]]@,
    ensures
        answered_in_some_order(outcomes, replies),
{
    assert forall|j: int| 0 <= j < outcomes.len() implies (#[trigger] outcomes[j]) is Ok
        && messages_of(outcomes[j]) == replies[order[j]] by {
        assert(outcomes[j] == futures[order[j]]@);
    }
}

/// Flattening forgets, up to order, how its parts were ordered.
proof fn lemma_flatten_permuted<A>(parts: Seq<Seq<A>>, permuted: Seq<Seq<A>>, order: Seq<int>)
    requires
        is_permutation(order, parts.len()),
        permuted.len() == parts.len(),
        forall|j: int| 0 <= j < permuted.len() ==> #[trigger] permuted[j] == parts[order[j]],
    ensures
        permuted.flatten().to_multiset() == parts.flatten().to_multiset(),
    decreases parts.len(),
{
    if parts.len() == 0 {
        assert(permuted =~= parts);
    } else {
        let n = parts.len();
        let p = order.last();
        let before = parts.take(p);
        let behind = parts.skip(p + 1);
        let rest = before + behind;
        let shifted = Seq::new(
            (n - 1) as nat,
            |j: int|
                if order[j] > p {
                    order[j] - 1
                } else {
                    order[j]
                },
        );
        let earlier = permuted.drop_last();
        assert(p == order[n - 1]);
        assert forall|i: int, j: int| 0 <= i < j < n - 1 implies shifted[i] != shifted[j] by {
            assert(order[i] != order[j]);
            assert(order[i] != order[n - 1]);
            assert(order[j] != order[n - 1]);
        }
        assert forall|i: int| 0 <= i < n - 1 implies 0 <= #[trigger] shifted[i] < n - 1 by {
            assert(0 <= order[i] < n);
            assert(order[i] != order[n - 1]);
        }
        assert forall|j: int| 0 <= j < earlier.len() implies #[trigger] earlier[j]
            == rest[shifted[j]] by {
            assert(earlier[j] == permuted[j]);
            assert(order[j] != order[n - 1]);
        }
        lemma_flatten_permuted(rest, earlier, shifted);
        let part = parts[p];
        assert(permuted[n - 1] == part);
        assert(earlier.push(part) =~= permuted);
        earlier.lemma_flatten_push(part);
        lemma_multiset_commutative(earlier.flatten(), part);
        assert(parts =~= before.push(part) + behind);
        lemma_flatten_concat(before.push(part), behind);
        before.lemma_flatten_push(part);
        lemma_flatten_concat(before, behind);
        lemma_multiset_commutative(before.flatten() + part, behind.flatten());
        lemma_multiset_commutative(before.flatten(), part);
        lemma_multiset_commutative(before.flatten(), behind.flatten());
        assert(permuted.flatten().to_multiset() =~= parts.flatten().to_multiset());
    }
}

proof fn lemma_total_in_some_order<M, E>(
    width: nat,
    replies: Seq<Seq<M>>,
    arrivals: Seq<Seq<ChainResponse<M, E>>>,
)
    requires
        forall|k: nat|
            k < arrivals.len() ==> answered_in_some_order(
                arrivals[k as int],
                #[trigger] batch(replies, width, k),
            ),
    ensures
        total_reply(arrivals).to_multiset() == batches(
            replies,
            width,
            arrivals.len(),
        ).flatten().flatten().to_multiset(),
    decreases arrivals.len(),
{
    let n = arrivals.len();
    if n == 0 {
        assert(total_reply(arrivals) =~= Seq::empty());
        assert(batches(replies, width, n).flatten() =~= Seq::empty());
        assert(batches(replies, width, n).flatten().flatten() =~= Seq::empty());
    } else {
        let k = (n - 1) as nat;
        let earlier = arrivals.drop_last();
        let part = batch(replies, width, k);
        let outcomes = arrivals.last();
        lemma_total_in_some_order(width, replies, earlier);
        let carried = outcomes.map_values(
            |outcome: ChainResponse<M, E>| messages_of(outcome),
        );
        assert(answered_in_some_order(arrivals[k as int], part));
        let order = choose|order: Seq<int>| #[trigger]
            is_permutation(order, part.len()) && outcomes.len() == part.len() && forall|j: int|
                0 <= j < outcomes.len() ==> (#[trigger] outcomes[j]) is Ok && messages_of(
                    outcomes[j],
                ) == part[order[j]];
        assert forall|j: int| 0 <= j < carried.len() implies #[trigger] carried[j]
            == part[order[j]] by {
            assert(outcomes[j] is Ok);
        }
        lemma_flatten_permuted(part, carried, order);
        assert(all_ok(outcomes));
        assert(earlier.push(outcomes) =~= arrivals);
        lemma_total_reply_push(earlier, outcomes);
        lemma_multiset_commutative(total_reply(earlier), round_reply(outcomes));
        assert(batches(replies, width, n) =~= batches(replies, width, k).push(part));
        batches(replies, width, k).lemma_flatten_push(part);
        let sent = batches(replies, width, k).flatten();
        lemma_flatten_concat(sent, part);
        lemma_multiset_commutative(sent.flatten(), part.flatten());
    }
}

/// The order in which outcomes carry `replies`.
pub open spec fn carried_order<M, E>(
    outcomes: Seq<ChainResponse<M, E>>,
    replies: Seq<Seq<M>>,
) -> Seq<int>
    recommends
        answered_in_some_order(outcomes, replies),
{
    choose|order: Seq<int>| #[trigger]
        is_permutation(order, replies.len()) && outcomes.len() == replies.len() && forall|j: int|
            0 <= j < outcomes.len() ==> (#[trigger] outcomes[j]) is Ok && messages_of(outcomes[j])
                == replies[order[j]]
}

/// The parts in the order that `order` gives.
pub open spec fn rearranged<A>(parts: Seq<A>, order: Seq<int>) -> Seq<A> {
    Seq::new(order.len(), |j: int| parts[order[j]])
}

/// There is one order for each of the first `n` rounds, and it is one of that round's part of
/// `items`.
pub open spec fn orders_rounds<A>(
    orders: Seq<Seq<int>>,
    items: Seq<A>,
    width: nat,
    n: nat,
) -> bool {
    &&& orders.len() == n
    &&& forall|k: nat|
        k < n ==> is_permutation(#[trigger] orders[k as int], batch(items, width, k).len())
}

/// Where every chain answers, the answer is that of one round after the other, and within a
/// round one message's reply after the other, each of them whole: only the order of the replies
/// within their round is open. So it holds what the single messages are answered, each as often
/// as it was answered.
pub proof fn law_unordered_answer<M, E>(
    width: nat,
    ordered: bool,
    messages: Seq<M>,
    replies: Seq<Seq<M>>,
    arrivals: Seq<Seq<ChainResponse<M, E>>>,
)
    requires
        width > 0,
        replies.len() == messages.len(),
        arrivals.len() == round_count(messages.len(), width),
        forall|k: nat|
            k < arrivals.len() ==> answered_in_some_order(
                arrivals[k as int],
                #[trigger] batch(replies, width, k),
            ),
    ensures
        after(RunState::start(width, ordered, messages), arrivals) matches StepView::Done(
            Ok(answer),
        ) && {
            &&& answer.to_multiset() == replies.flatten().to_multiset()
            &&& exists|orders: Seq<Seq<int>>| #[trigger]
                orders_rounds(orders, replies, width, arrivals.len()) && answer == Seq::new(
                    arrivals.len(),
                    |k: int| rearranged(batch(replies, width, k as nat), orders[k]).flatten(),
                ).flatten()
        },
{
    let n = arrivals.len();
    let orders = Seq::new(
        n,
        |k: int| carried_order(arrivals[k], batch(replies, width, k as nat)),
    );
    let rounds = Seq::new(
        n,
        |k: int| rearranged(batch(replies, width, k as nat), orders[k]).flatten(),
    );
    assert forall|k: int| 0 <= k < n implies all_ok(#[trigger] arrivals[k]) && is_permutation(
        orders[k],
        batch(replies, width, k as nat).len(),
    ) && round_reply(arrivals[k]) == rounds[k] by {
        let outcomes = arrivals[k];
        let part = batch(replies, width, k as nat);
        assert(answered_in_some_order(outcomes, part));
        assert(outcomes.map_values(|outcome: ChainResponse<M, E>| messages_of(outcome))
            =~= rearranged(part, orders[k]));
    }
    law_rounds(width, ordered, messages, arrivals);
    lemma_total_in_some_order(width, replies, arrivals);
    law_every_message_goes_out_once(width, replies);
    assert(arrivals.map_values(|outcomes: Seq<ChainResponse<M, E>>| round_reply(outcomes))
        =~= rounds);
    assert(orders_rounds(orders, replies, width, n));
}

/// The first error ends the transformation: it is the answer, whatever the rounds before it
/// added, and nothing more goes out.
pub proof fn law_first_error_is_the_answer<M, E>(
    width: nat,
    ordered: bool,
    messages: Seq<M>,
    arrivals: Seq<Seq<ChainResponse<M, E>>>,
    k: int,
    i: int,
)
    requires
        width > 0,
        0 <= k < arrivals.len(),
        k < round_count(messages.len(), width),
        all_rounds_ok(arrivals.take(k)),
        failed_at(arrivals[k], i),
    ensures
        after(RunState::start(width, ordered, messages), arrivals) == StepView::<M, E>::Done(
            Err(arrivals[k][i]->Err_0),
        ),
    decreases arrivals.len(),
{
    let earlier = arrivals.drop_last();
    if k == arrivals.len() - 1 {
        assert(earlier =~= arrivals.take(k));
        law_rounds(width, ordered, messages, earlier);
        lemma_failed_at(arrivals[k], i);
    } else {
        assert(earlier.take(k) =~= arrivals.take(k));
        law_first_error_is_the_answer(width, ordered, messages, earlier, k, i);
    }
}

/// Where each round's outcomes come in the order of its requests, the error that is answered is
/// that of the first message whose chain failed.
pub proof fn law_ordered_error<M, E>(
    width: nat,
    ordered: bool,
    messages: Seq<M>,
    outcomes: Seq<ChainResponse<M, E>>,
    arrivals: Seq<Seq<ChainResponse<M, E>>>,
    m: int,
)
    requires
        width > 0,
        outcomes.len() == messages.len(),
        failed_at(outcomes, m),
        m / (width as int) < arrivals.len(),
        forall|k: nat|
            k < arrivals.len() ==> arrivals[k as int] == #[trigger] batch(outcomes, width, k),
    ensures
        after(RunState::start(width, ordered, messages), arrivals) == StepView::<M, E>::Done(
            Err(outcomes[m]->Err_0),
        ),
{
    let len = messages.len();
    let k = m / (width as int);
    vstd::arithmetic::div_mod::lemma_fundamental_div_mod(m, width as int);
    vstd::arithmetic::div_mod::lemma_mod_bound(m, width as int);
    assert(width * k == k * width) by (nonlinear_arith);
    assert(k >= 0) by (nonlinear_arith)
        requires
            k * width + m % (width as int) == m,
            0 <= m % (width as int) < width,
            m >= 0,
            width > 0,
    ;
    let i = m - k * width;
    lemma_round_due(len, width, k as nat);
    lemma_sent_before_next(len, width, k as nat);
    assert(arrivals[k] == batch(outcomes, width, k as nat));
    assert(arrivals[k][i] == outcomes[m]);
    assert forall|j: int| 0 <= j < i implies #[trigger] arrivals[k].take(i)[j] is Ok by {
        assert(outcomes.take(m)[k * width + j] is Ok);
    }
    assert forall|r: int| 0 <= r < k implies all_ok(#[trigger] arrivals.take(k)[r]) by {
        lemma_sent_before_next(len, width, r as nat);
        assert(r * width + width <= k * width) by (nonlinear_arith)
            requires
                r + 1 <= k,
                width > 0,
        ;
        assert(arrivals[r] == batch(outcomes, width, r as nat));
        assert forall|j: int| 0 <= j < arrivals[r].len() implies #[trigger] arrivals[r][j] is Ok by {
            assert(outcomes.take(m)[r * width + j] is Ok);
        }
    }
    law_first_error_is_the_answer(width, ordered, messages, arrivals, k, i);
}

/// In whatever order a round's outcomes come, the error that is answered is that of a message of
/// the first round in which a chain failed.
pub proof fn law_unordered_error<M, E>(
    width: nat,
    ordered: bool,
    messages: Seq<M>,
    outcomes: Seq<ChainResponse<M, E>>,
    orders: Seq<Seq<int>>,
    arrivals: Seq<Seq<ChainResponse<M, E>>>,
    k: nat,
)
    requires
        width > 0,
        outcomes.len() == messages.len(),
        k < arrivals.len() <= round_count(messages.len(), width),
        orders_rounds(orders, outcomes, width, arrivals.len()),
        forall|r: nat|
            r < arrivals.len() ==> arrivals[r as int] == rearranged(
                #[trigger] batch(outcomes, width, r),
                orders[r as int],
            ),
        forall|r: nat| r < k ==> all_ok(#[trigger] batch(outcomes, width, r)),
        !all_ok(batch(outcomes, width, k)),
    ensures
        exists|j: int|
            0 <= j < batch(outcomes, width, k).len() && (#[trigger] batch(outcomes, width, k)[j])
                is Err && after(RunState::start(width, ordered, messages), arrivals)
                == StepView::<M, E>::Done(Err(batch(outcomes, width, k)[j]->Err_0)),
{
    let part = batch(outcomes, width, k);
    let arrived = arrivals[k as int];
    let order = orders[k as int];
    assert(arrived == rearranged(part, order));
    assert(is_permutation(order, part.len()));
    assert forall|r: int| 0 <= r < k implies all_ok(#[trigger] arrivals.take(k as int)[r]) by {
        let earlier = batch(outcomes, width, r as nat);
        assert(arrivals[r] == rearranged(earlier, orders[r as nat as int]));
        assert(is_permutation(orders[r as nat as int], earlier.len()));
        assert(all_ok(earlier));
    }
    lemma_rearranged_not_ok(part, order);
    lemma_has_first_error(arrived);
    let i = choose|i: int| failed_at(arrived, i);
    law_first_error_is_the_answer(width, ordered, messages, arrivals, k as int, i);
    assert(part[order[i]] == arrived[i]);
}

/// Rearranging does not lose an error.
proof fn lemma_rearranged_not_ok<M, E>(outcomes: Seq<ChainResponse<M, E>>, order: Seq<int>)
    requires
        is_permutation(order, outcomes.len()),
        !all_ok(outcomes),
    ensures
        !all_ok(rearranged(outcomes, order)),
{
    let e = choose|e: int| 0 <= e < outcomes.len() && !(#[trigger] outcomes[e] is Ok);
    lemma_permutation_reaches(order, outcomes.len(), e);
    let j = choose|j: int| 0 <= j < outcomes.len() && #[trigger] order[j] == e;
    assert(rearranged(outcomes, order)[j] == outcomes[e]);
}

/// A permutation comes by every number below its bound.
proof fn lemma_permutation_reaches(order: Seq<int>, n: nat, e: int)
    requires
        is_permutation(order, n),
        0 <= e < n,
    ensures
        exists|j: int| 0 <= j < n && #[trigger] order[j] == e,
{
    order.unique_seq_to_set();
    let below = vstd::set_lib::set_int_range(0, n as int);
    vstd::set_lib::lemma_int_range(0, n as int);
    assert(order.to_set().subset_of(below));
    vstd::set_lib::lemma_subset_equality(order.to_set(), below);
    assert(order.to_set().contains(e));
}

proof fn lemma_has_first_error<M, E>(outcomes: Seq<ChainResponse<M, E>>)
    requires
        !all_ok(outcomes),
    ensures
        exists|i: int| failed_at(outcomes, i),
    decreases outcomes.len(),
{
    let n = outcomes.len() - 1;
    let earlier = outcomes.drop_last();
    if all_ok(earlier) {
        assert(outcomes.take(n) =~= earlier);
        assert forall|j: int| 0 <= j < n implies #[trigger] outcomes[j] is Ok by {
            assert(earlier[j] is Ok);
        }
        assert(failed_at(outcomes, n));
    } else {
        lemma_has_first_error(earlier);
        let i = choose|i: int| failed_at(earlier, i);
        assert(earlier.take(i) =~= outcomes.take(i));
        assert(failed_at(outcomes, i));
    }
}

/// Without a chain no message ever goes out: round follows round with nothing in it and nothing
/// coming back, and no answer comes.
pub proof fn law_no_chain_no_answer<M, E>(
    ordered: bool,
    messages: Seq<M>,
    arrivals: Seq<Seq<ChainResponse<M, E>>>,
)
    requires
        messages.len() > 0,
        forall|k: int| 0 <= k < arrivals.len() ==> (#[trigger] arrivals[k]).len() == 0,
    ensures
        after(RunState::start(0, ordered, messages), arrivals) matches StepView::Dispatch { requests, run }
            && requests.len() == 0 && run.width == 0 && run.remaining == messages,
    decreases arrivals.len(),
{
    assert(messages.skip(0) =~= messages);
    if arrivals.len() > 0 {
        law_no_chain_no_answer(ordered, messages, arrivals.drop_last());
    }
}

/// Chains that each answer by themselves, as [`Null`] does for each query, answer together what
/// one of them answers alone.
pub proof fn law_parallel_null<Q, V, F, E>(
    null: Null,
    width: nat,
    ordered: bool,
    messages: Seq<Message<Q, V, F>>,
    arrivals: Seq<Seq<ChainResponse<Message<Q, V, F>, E>>>,
)
    requires
        null.answers_requests(),
        width > 0,
        arrivals.len() == round_count(messages.len(), width),
        forall|k: nat|
            k < arrivals.len() ==> answered_in_order(
                arrivals[k as int],
                #[trigger] batch(single_responses(null, messages), width, k),
            ),
    ensures
        after(RunState::start(width, ordered, messages), arrivals) == StepView::<Message<Q, V, F>, E>::Done(
            Ok(null.response(messages)),
        ),
{
    law_ordered_answer(width, ordered, messages, single_responses(null, messages), arrivals);
    lemma_single_responses_flatten(null, messages);
}

/// What `null` answers to each of the messages alone.
pub open spec fn single_responses<Q, V, F>(null: Null, messages: Seq<Message<Q, V, F>>) -> Seq<
    Seq<Message<Q, V, F>>,
> {
    messages.map_values(|message: Message<Q, V, F>| null.response(seq![message]))
}

proof fn lemma_single_responses_flatten<Q, V, F>(null: Null, messages: Seq<Message<Q, V, F>>)
    requires
        null.answers_requests(),
    ensures
        single_responses(null, messages).flatten() == answers(messages),
    decreases messages.len(),
{
    if messages.len() == 0 {
        assert(single_responses(null, messages).flatten() =~= answers(messages));
    } else {
        let earlier = messages.drop_last();
        let message = messages.last();
        let respond = |message: Message<Q, V, F>| answer(message);
        lemma_single_responses_flatten(null, earlier);
        assert(single_responses(null, messages) =~= single_responses(null, earlier).push(
            null.response(seq![message]),
        ));
        single_responses(null, earlier).lemma_flatten_push(null.response(seq![message]));
        Seq::lemma_filter_map_singleton(message, respond);
        assert(answers(messages) =~= answers(earlier) + null.response(seq![message]));
    }
}

/// `steps` are what calling [`ParallelMap::transform`] and then [`Run::resume`], once for each of
/// `outcomes`, can return one after the other.
pub open spec fn can_run<C, M, E>(
    map: ParallelMap<C>,
    wrapper: Wrapper<M>,
    outcomes: Seq<Vec<ChainResponse<M, E>>>,
    steps: Seq<Step<M, E>>,
) -> bool {
    &&& steps.len() == outcomes.len() + 1
    &&& call_ensures(ParallelMap::<C>::transform::<M, E>, (&map, wrapper), steps[0])
    &&& forall|k: int| 0 <= k < outcomes.len() ==> #[trigger] steps[k] is Dispatch
    &&& forall|k: int|
        #![trigger outcomes[k]]
        0 <= k < outcomes.len() ==> call_ensures(
            Run::<M>::resume::<E>,
            (steps[k]->run, outcomes[k]),
            steps[k + 1],
        )
}

/// How many of `len` messages have gone out after `n` rounds of `width` each.
spec fn gone_out(len: nat, width: nat, n: nat) -> int {
    if n * width <= len {
        (n * width) as int
    } else {
        len as int
    }
}

/// What all the messages inside the successes of the first `n` rounds add up to.
spec fn joined<M, E>(outcomes: Seq<Vec<ChainResponse<M, E>>>, n: nat) -> Seq<M> {
    Seq::new(
        n,
        |k: int| Seq::new(outcomes[k]@.len(), |j: int| outcomes[k]@[j]->Ok_0@).flatten(),
    ).flatten()
}

/// What the messages inside the requests of the first `n` steps add up to.
spec fn requested<M, E>(steps: Seq<Step<M, E>>, n: nat) -> Seq<M> {
    Seq::new(
        n,
        |k: int|
            Seq::new(
                steps[k]->requests@.len(),
                |i: int| steps[k]->requests@[i].wrapper.messages@,
            ).flatten(),
    ).flatten()
}

proof fn lemma_gone_out_next(len: nat, width: nat, n: nat)
    ensures
        gone_out(len, width, n + 1) == if gone_out(len, width, n) + width <= len {
            gone_out(len, width, n) + width
        } else {
            len as int
        },
{
    assert((n + 1) * width == n * width + width) by (nonlinear_arith);
}

/// The state that a run of calls has reached.
proof fn lemma_can_run<C, M, E>(
    map: ParallelMap<C>,
    wrapper: Wrapper<M>,
    outcomes: Seq<Vec<ChainResponse<M, E>>>,
    steps: Seq<Step<M, E>>,
)
    requires
        can_run(map, wrapper, outcomes, steps),
    ensures
        forall|k: int|
            #![trigger outcomes[k]]
            0 <= k < outcomes.len() - 1 ==> all_ok(outcomes[k]@),
        outcomes.len() > 0 && !all_ok(outcomes.last()@) ==> steps.last()@ == StepView::<M, E>::Done(
            Err(first_error(outcomes.last()@)),
        ),
        outcomes.len() == 0 || all_ok(outcomes.last()@) ==> steps.last()@ == (RunState {
            width: map.chains@.len(),
            ordered: map.ordered,
            remaining: wrapper.messages@.skip(
                gone_out(wrapper.messages@.len(), map.chains@.len(), outcomes.len()),
            ),
            results: joined(outcomes, outcomes.len()),
        }).next::<E>(),
    decreases outcomes.len(),
{
    let messages = wrapper.messages@;
    let width = map.chains@.len();
    let n = outcomes.len();
    if n == 0 {
        assert(0 * width == 0) by (nonlinear_arith);
        assert(messages.skip(0) =~= messages);
        assert(joined(outcomes, 0) =~= Seq::empty());
    } else {
        let k = (n - 1) as nat;
        let fewer = outcomes.drop_last();
        let begun = steps.drop_last();
        assert forall|r: int|
            #![trigger fewer[r]]
            0 <= r < fewer.len() implies call_ensures(
            Run::<M>::resume::<E>,
            (begun[r]->run, fewer[r]),
            begun[r + 1],
        ) by {
            assert(fewer[r] == outcomes[r]);
        }
        assert(can_run(map, wrapper, fewer, begun));
        lemma_can_run(map, wrapper, fewer, begun);
        lemma_gone_out_next(messages.len(), width, k);
        let last = outcomes[n - 1];
        assert(begun.last() == steps[n - 1]);
        assert(steps[n - 1] is Dispatch);
        assert forall|r: int|
            #![trigger outcomes[r]]
            0 <= r < n - 1 implies all_ok(outcomes[r]@) by {
            assert(fewer[r] == outcomes[r]);
            if r == n - 2 {
                assert(fewer.last() == outcomes[r]);
                assert(begun.last()@ is Dispatch);
            }
        }
        if all_ok(last@) {
            let part = |k: int| Seq::new(outcomes[k]@.len(), |j: int| outcomes[k]@[j]->Ok_0@).flatten();
            let earlier_part = |k: int|
                Seq::new(fewer[k]@.len(), |j: int| fewer[k]@[j]->Ok_0@).flatten();
            assert forall|r: int| 0 <= r < k implies #[trigger] Seq::new(k, earlier_part)[r]
                == Seq::new(k, part)[r] by {
                assert(fewer[r] == outcomes[r]);
            }
            assert(Seq::new(k, earlier_part) =~= Seq::new(k, part));
            assert(Seq::new(n, part) =~= Seq::new(k, part).push(part(k as int)));
            Seq::new(k, part).lemma_flatten_push(part(k as int));
            assert(last@.map_values(|outcome: ChainResponse<M, E>| messages_of(outcome))
                =~= Seq::new(last@.len(), |j: int| last@[j]->Ok_0@));
            assert(joined(outcomes, n) == joined(fewer, k) + round_reply(last@));
            let sent = gone_out(messages.len(), width, k);
            let state = RunState {
                width,
                ordered: map.ordered,
                remaining: messages.skip(sent),
                results: joined(fewer, k),
            };
            if k > 0 {
                assert(fewer.last() == outcomes[n - 2]);
                assert(all_ok(outcomes[n - 2]@));
            }
            assert(begun.last()@ == state.next::<E>());
            assert(state.remaining.skip(state.round_len() as int) =~= messages.skip(
                gone_out(messages.len(), width, n),
            ));
        }
    }
}

/// Whatever the calls of a transformation return, step by step: a round sends the next messages,
/// one to each chain from the first on, as many as there are chains or messages left, as long as
/// no outcome was an error. What has been sent is, in order, a beginning of what was given. The
/// answer comes once all has been sent, and is every message of every outcome, one after the
/// other; or it is an error, and then the first among the outcomes of the round before.
pub proof fn law_what_the_calls_return<C, M, E>(
    map: ParallelMap<C>,
    wrapper: Wrapper<M>,
    outcomes: Seq<Vec<ChainResponse<M, E>>>,
    steps: Seq<Step<M, E>>,
)
    requires
        steps.len() == outcomes.len() + 1,
        call_ensures(ParallelMap::<C>::transform::<M, E>, (&map, wrapper), steps[0]),
        forall|k: int| 0 <= k < outcomes.len() ==> #[trigger] steps[k] is Dispatch,
        forall|k: int|
            #![trigger outcomes[k]]
            0 <= k < outcomes.len() ==> call_ensures(
                Run::<M>::resume::<E>,
                (steps[k]->run, outcomes[k]),
                steps[k + 1],
            ),
    ensures
        forall|k: int, j: int|
            #![trigger outcomes[k]@[j]]
            0 <= k < outcomes.len() - 1 && 0 <= j < outcomes[k]@.len() ==> outcomes[k]@[j] is Ok,
        ({
            let given = wrapper.messages@;
            let width = map.chains@.len();
            let n = outcomes.len();
            let sent = if n * width <= given.len() {
                (n * width) as int
            } else {
                given.len() as int
            };
            match steps.last() {
                Step::Dispatch { requests, run: _ } => {
                    &&& sent < given.len()
                    &&& n > 0 ==> forall|j: int|
                        0 <= j < outcomes[n - 1]@.len() ==> #[trigger] outcomes[n - 1]@[j] is Ok
                    &&& requests@.len() == if width <= given.len() - sent {
                        width as int
                    } else {
                        given.len() - sent
                    }
                    &&& forall|i: int|
                        #![trigger requests@[i]]
                        0 <= i < requests@.len() ==> {
                            &&& requests@[i].chain == i
                            &&& requests@[i].chain < width
                            &&& requests@[i].wrapper.messages@ == seq![given[sent + i]]
                            &&& requests@[i].client_details@ == "Parallel"@
                        }
                },
                Step::Done(Ok(answer)) => {
                    &&& sent == given.len()
                    &&& n > 0 ==> forall|j: int|
                        0 <= j < outcomes[n - 1]@.len() ==> #[trigger] outcomes[n - 1]@[j] is Ok
                    &&& answer@ == Seq::new(
                        n,
                        |k: int|
                            Seq::new(
                                outcomes[k]@.len(),
                                |j: int| outcomes[k]@[j]->Ok_0@,
                            ).flatten(),
                    ).flatten()
                },
                Step::Done(Err(error)) => {
                    &&& n > 0
                    &&& exists|i: int|
                        0 <= i < outcomes[n - 1]@.len() && #[trigger] outcomes[n - 1]@[i] == Err::<
                            Vec<M>,
                            E,
                        >(error) && forall|j: int|
                            0 <= j < i ==> #[trigger] outcomes[n - 1]@[j] is Ok
                },
            }
        }),
{
    let given = wrapper.messages@;
    let width = map.chains@.len();
    let n = outcomes.len();
    let sent = gone_out(given.len(), width, n);
    assert(can_run(map, wrapper, outcomes, steps));
    lemma_can_run(map, wrapper, outcomes, steps);
    assert forall|k: int, j: int|
        #![trigger outcomes[k]@[j]]
        0 <= k < n - 1 && 0 <= j < outcomes[k]@.len() implies outcomes[k]@[j] is Ok by {
        assert(all_ok(outcomes[k]@));
    }
    if n > 0 && !all_ok(outcomes.last()@) {
        lemma_has_first_error(outcomes.last()@);
        let i = choose|i: int| failed_at(outcomes.last()@, i);
        lemma_failed_at(outcomes.last()@, i);
        assert forall|j: int| 0 <= j < i implies #[trigger] outcomes[n - 1]@[j] is Ok by {
            assert(outcomes[n - 1]@.take(i)[j] is Ok);
        }
        assert(outcomes[n - 1]@[i] == Err::<Vec<M>, E>(first_error(outcomes.last()@)));
    } else if let Step::Dispatch { requests, run: _ } = steps.last() {
        let views = requests@.map_values(|request: Request<M>| request@);
        let left = given.skip(sent);
        let round = left.take(
            if width <= left.len() {
                width as int
            } else {
                left.len() as int
            },
        );
        assert(views == requests_for(round));
        assert forall|i: int|
            #![trigger requests@[i]]
            0 <= i < requests@.len() implies requests@[i].chain == i && requests@[i].chain < width
            && requests@[i].wrapper.messages@ == seq![given[sent + i]]
            && requests@[i].client_details@ == "Parallel"@ by {
            assert(views[i] == requests@[i]@);
            assert(round[i] == given[sent + i]);
        }
    }
}

/// The messages inside the requests of all rounds add up, in order and nothing left out or sent
/// twice, to the messages given once the answer comes, and before that to a beginning of them.
pub proof fn law_requests_carry_every_message<C, M, E>(
    map: ParallelMap<C>,
    wrapper: Wrapper<M>,
    outcomes: Seq<Vec<ChainResponse<M, E>>>,
    steps: Seq<Step<M, E>>,
)
    requires
        steps.len() == outcomes.len() + 1,
        call_ensures(ParallelMap::<C>::transform::<M, E>, (&map, wrapper), steps[0]),
        forall|k: int| 0 <= k < outcomes.len() ==> #[trigger] steps[k] is Dispatch,
        forall|k: int|
            #![trigger outcomes[k]]
            0 <= k < outcomes.len() ==> call_ensures(
                Run::<M>::resume::<E>,
                (steps[k]->run, outcomes[k]),
                steps[k + 1],
            ),
    ensures
        ({
            let carried = Seq::new(
                outcomes.len(),
                |k: int|
                    Seq::new(
                        steps[k]->requests@.len(),
                        |i: int| steps[k]->requests@[i].wrapper.messages@,
                    ).flatten(),
            ).flatten();
            &&& carried.is_prefix_of(wrapper.messages@)
            &&& steps.last() matches Step::Done(Ok(_)) ==> carried == wrapper.messages@
        }),
{
    let given = wrapper.messages@;
    lemma_requested(map, wrapper, outcomes, steps);
    law_what_the_calls_return(map, wrapper, outcomes, steps);
    if steps.last() matches Step::Done(Ok(_)) {
        assert(given.take(given.len() as int) =~= given);
    }
}

proof fn lemma_requested<C, M, E>(
    map: ParallelMap<C>,
    wrapper: Wrapper<M>,
    outcomes: Seq<Vec<ChainResponse<M, E>>>,
    steps: Seq<Step<M, E>>,
)
    requires
        can_run(map, wrapper, outcomes, steps),
    ensures
        requested(steps, outcomes.len()) == wrapper.messages@.take(
            gone_out(wrapper.messages@.len(), map.chains@.len(), outcomes.len()),
        ),
    decreases outcomes.len(),
{
    let given = wrapper.messages@;
    let width = map.chains@.len();
    let n = outcomes.len();
    if n == 0 {
        assert(0 * width == 0) by (nonlinear_arith);
        assert(requested(steps, 0) =~= Seq::empty());
        assert(given.take(0) =~= Seq::empty());
    } else {
        let k = (n - 1) as nat;
        let fewer = outcomes.drop_last();
        let begun = steps.drop_last();
        assert forall|r: int|
            #![trigger fewer[r]]
            0 <= r < fewer.len() implies call_ensures(
            Run::<M>::resume::<E>,
            (begun[r]->run, fewer[r]),
            begun[r + 1],
        ) by {
            assert(fewer[r] == outcomes[r]);
        }
        lemma_requested(map, wrapper, fewer, begun);
        law_what_the_calls_return(map, wrapper, fewer, begun);
        lemma_gone_out_next(given.len(), width, k);
        assert(outcomes[n - 1] == outcomes.last());
        assert(begun.last() == steps[n - 1]);
        let sent = gone_out(given.len(), width, k);
        let requests = steps[n - 1]->requests@;
        let part = |k: int|
            Seq::new(
                steps[k]->requests@.len(),
                |i: int| steps[k]->requests@[i].wrapper.messages@,
            ).flatten();
        let earlier_part = |k: int|
            Seq::new(
                begun[k]->requests@.len(),
                |i: int| begun[k]->requests@[i].wrapper.messages@,
            ).flatten();
        assert forall|r: int| 0 <= r < k implies #[trigger] Seq::new(k, earlier_part)[r]
            == Seq::new(k, part)[r] by {
            assert(begun[r] == steps[r]);
        }
        assert(Seq::new(k, earlier_part) =~= Seq::new(k, part));
        assert(Seq::new(n, part) =~= Seq::new(k, part).push(part(k as int)));
        Seq::new(k, part).lemma_flatten_push(part(k as int));
        let singles = Seq::new(requests.len(), |i: int| requests[i].wrapper.messages@);
        let round = given.subrange(sent, sent + requests.len());
        assert forall|i: int| 0 <= i < singles.len() implies #[trigger] singles[i]
            == seq![round[i]] by {
            assert(requests[i].wrapper.messages@ == seq![given[sent + i]]);
        }
        lemma_flatten_singles(singles, round);
        assert(given.take(sent) + round =~= given.take(gone_out(given.len(), width, n)));
    }
}

proof fn lemma_flatten_singles<A>(singles: Seq<Seq<A>>, items: Seq<A>)
    requires
        singles.len() == items.len(),
        forall|i: int| 0 <= i < singles.len() ==> #[trigger] singles[i] == seq![items[i]],
    ensures
        singles.flatten() == items,
    decreases items.len(),
{
    if items.len() == 0 {
        assert(singles.flatten() =~= items);
    } else {
        lemma_flatten_singles(singles.drop_last(), items.drop_last());
        assert(singles =~= singles.drop_last().push(seq![items.last()]));
        singles.drop_last().lemma_flatten_push(seq![items.last()]);
        assert(singles.flatten() =~= items);
    }
}

/// A round takes from the front of the messages that are left: as many as there are chains, or
/// all of them where they are fewer. Request `i` hands message `i`, alone, to chain `i`, so no
/// chain is asked twice. The messages inside the requests and those that are left then are, one
/// after the other, those that were left before, and nothing else changes. Only where no message
/// is left is there no round, and the answer is what has been gathered.
pub proof fn law_a_round_takes_from_the_front<M, E>(state: RunState<M>)
    ensures
        state.next::<E>() matches StepView::Dispatch { requests, run } ==> {
            &&& state.remaining.len() > 0
            &&& requests.len() <= state.width
            &&& requests.len() <= state.remaining.len()
            &&& requests.len() == state.width || requests.len() == state.remaining.len()
            &&& forall|i: int|
                #![trigger requests[i]]
                0 <= i < requests.len() ==> requests[i].chain == i && requests[i].messages
                    == seq![state.remaining[i]]
            &&& Seq::new(requests.len(), |i: int| requests[i].messages).flatten() + run.remaining
                == state.remaining
            &&& run.width == state.width
            &&& run.ordered == state.ordered
            &&& run.results == state.results
        },
        state.next::<E>() matches StepView::Done(response) ==> state.remaining.len() == 0
            && response == Ok::<Seq<M>, E>(state.results),
{
    if let StepView::Dispatch { requests, run } = state.next::<E>() {
        let n = requests.len();
        let round = state.remaining.take(n as int);
        lemma_flatten_singles(Seq::new(n, |i: int| requests[i].messages), round);
        assert(round + run.remaining =~= state.remaining);
    }
}

/// A round whose outcomes are successes with the contents `contents` adds these, one after the
/// other and each of them whole, behind what was gathered before.
pub proof fn law_a_round_adds_every_message<M, E>(
    state: RunState<M>,
    outcomes: Seq<ChainResponse<M, E>>,
    contents: Seq<Vec<M>>,
)
    requires
        outcomes.len() == contents.len(),
        forall|j: int|
            0 <= j < outcomes.len() ==> #[trigger] outcomes[j] == Ok::<Vec<M>, E>(contents[j]),
    ensures
        state.resume(outcomes) == (RunState {
            results: state.results + Seq::new(contents.len(), |j: int| contents[j]@).flatten(),
            ..state
        }).next::<E>(),
        Seq::new(contents.len(), |j: int| contents[j]@).flatten().len() == Seq::new(
            contents.len(),
            |j: int| contents[j]@.len() as int,
        ).fold_left(0, |sum: int, len: int| sum + len),
{
    assert(outcomes.map_values(|outcome: ChainResponse<M, E>| messages_of(outcome)) =~= Seq::new(
        contents.len(),
        |j: int| contents[j]@,
    ));
    lemma_flatten_len(Seq::new(contents.len(), |j: int| contents[j]@));
    assert(Seq::new(contents.len(), |j: int| contents[j]@).map_values(
        |part: Seq<M>| part.len() as int,
    ) =~= Seq::new(contents.len(), |j: int| contents[j]@.len() as int));
}

proof fn lemma_flatten_len<A>(parts: Seq<Seq<A>>)
    ensures
        parts.flatten().len() == parts.map_values(|part: Seq<A>| part.len() as int).fold_left(
            0,
            |sum: int, len: int| sum + len,
        ),
    decreases parts.len(),
{
    let lens = parts.map_values(|part: Seq<A>| part.len() as int);
    if parts.len() > 0 {
        lemma_flatten_len(parts.drop_last());
        assert(parts =~= parts.drop_last().push(parts.last()));
        parts.drop_last().lemma_flatten_push(parts.last());
        assert(lens.drop_last() =~= parts.drop_last().map_values(
            |part: Seq<A>| part.len() as int,
        ));
    }
}

} // verus!
