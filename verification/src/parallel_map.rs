//! A transform that spreads messages over copies of one chain, a round at a time: in each round
//! every copy takes one message, and the round's answers are gathered before the next begins.
use crate::message::{ChainResponse, Wrapper};
use crate::null::Null;
use crate::uo_futures::{is_permutation, lemma_permuted_multiset, Collected, UOFutures};
use std::future::Future;
use vstd::future::FutureAdditionalSpecFns;
use vstd::prelude::*;

verus! {

/// The copies of the chain, and whether a round's answers keep the order of its messages.
#[derive(Debug)]
pub struct ParallelMap<C> {
    pub chains: Vec<C>,
    pub ordered: bool,
}

impl<C: Clone> Clone for ParallelMap<C> {
    fn clone(&self) -> (copy: Self)
        ensures
            copy.ordered == self.ordered,
            copy.chains@.len() == self.chains@.len(),
            forall|i: int|
                0 <= i < copy.chains@.len() ==> cloned(self.chains@[i], #[trigger] copy.chains@[i]),
    {
        ParallelMap { chains: self.chains.clone(), ordered: self.ordered }
    }
}

/// The transforms that a configuration can ask for.
#[derive(Debug, Clone)]
pub enum Transforms<C> {
    ParallelMap(ParallelMap<C>),
    Null(Null),
}

/// How a [`ParallelMap`] is configured; `T` configures one transform of its chain.
#[derive(Debug, Clone)]
pub struct ParallelMapConfig<T> {
    pub name: String,
    pub parallelism: u32,
    pub chain: Vec<T>,
    pub ordered_results: bool,
}

impl<T> ParallelMapConfig<T> {
    /// `source` is what the configuration makes of a chain whose building came to `built`.
    pub open spec fn makes<C: Clone, E>(
        self,
        built: Result<C, E>,
        source: Result<Transforms<C>, E>,
    ) -> bool {
        match built {
            Ok(chain) => source matches Ok(Transforms::ParallelMap(map)) && {
                &&& map.chains@.len() == self.parallelism
                &&& forall|i: int|
                    0 <= i < map.chains@.len() ==> cloned(chain, #[trigger] map.chains@[i])
                &&& map.ordered == self.ordered_results
            },
            Err(error) => source == Err::<Transforms<C>, E>(error),
        }
    }

    /// What the chain is to be built from: its name and the configurations of its transforms.
    pub fn chain_source(&self) -> (source: (String, &Vec<T>))
        ensures
            source.0@ == self.name@,
            source.1 == &self.chain,
    {
        (self.name.clone(), &self.chain)
    }

    /// The transform, given what building its chain came to: `parallelism` copies of the chain,
    /// or the error with which building it failed.
    pub fn get_source<C: Clone, E>(&self, built: Result<C, E>) -> (source: Result<
        Transforms<C>,
        E,
    >)
        ensures
            self.makes(built, source),
    {
        let chain = match built {
            Ok(chain) => chain,
            Err(error) => return Err(error),
        };
        let parallelism: usize = self.parallelism as usize;
        let mut chains: Vec<C> = Vec::new();
        while chains.len() < parallelism
            invariant
                chains.len() <= parallelism,
                forall|i: int| 0 <= i < chains@.len() ==> cloned(chain, #[trigger] chains@[i]),
            decreases parallelism - chains.len(),
        {
            chains.push(chain.clone());
        }
        Ok(Transforms::ParallelMap(ParallelMap { chains, ordered: self.ordered_results }))
    }
}

/// Two configurations for which building the chain comes to the same both succeed or both fail.
/// Where they succeed, each keeps its own word on the order, and where a copy of the chain equals
/// its model, the one with fewer chains has the first of the other's.
pub proof fn law_two_configurations<T, C: Clone, E>(
    fewer: ParallelMapConfig<T>,
    more: ParallelMapConfig<T>,
    built: Result<C, E>,
    source: Result<Transforms<C>, E>,
    other: Result<Transforms<C>, E>,
)
    requires
        fewer.parallelism <= more.parallelism,
        fewer.makes(built, source),
        more.makes(built, other),
    ensures
        source is Ok <==> other is Ok,
        source is Err ==> source == other,
        source is Ok ==> {
            &&& source->Ok_0 matches Transforms::ParallelMap(map)
            &&& other->Ok_0 matches Transforms::ParallelMap(other_map)
            &&& map.ordered == fewer.ordered_results
            &&& other_map.ordered == more.ordered_results
            &&& (forall|copy: C| #[trigger] cloned(built->Ok_0, copy) ==> copy == built->Ok_0)
                ==> map.chains@ == other_map.chains@.take(fewer.parallelism as int)
        },
{
    if source is Ok && (forall|copy: C| #[trigger]
        cloned(built->Ok_0, copy) ==> copy == built->Ok_0) {
        let chains = source->Ok_0->ParallelMap_0.chains@;
        let other_chains = other->Ok_0->ParallelMap_0.chains@;
        assert forall|i: int| 0 <= i < chains.len() implies chains[i] == other_chains[i] by {
            assert(cloned(built->Ok_0, chains[i]));
            assert(cloned(built->Ok_0, other_chains[i]));
        }
        assert(chains =~= other_chains.take(fewer.parallelism as int));
    }
}

/// What one chain is asked to process.
#[derive(Debug)]
pub struct Request<M> {
    /// The place of the chain among those of the [`ParallelMap`].
    pub chain: usize,
    pub wrapper: Wrapper<M>,
    pub client_details: String,
}

#[verifier::ext_equal]
pub struct RequestView<M> {
    pub chain: nat,
    pub messages: Seq<M>,
    pub client_details: Seq<char>,
}

impl<M> View for Request<M> {
    type V = RequestView<M>;

    open spec fn view(&self) -> RequestView<M> {
        RequestView {
            chain: self.chain as nat,
            messages: self.wrapper.messages@,
            client_details: self.client_details@,
        }
    }
}

/// A transformation between two of its rounds.
#[derive(Debug)]
pub struct Run<M> {
    width: usize,
    ordered: bool,
    remaining: Vec<M>,
    results: Vec<M>,
}

/// How far a transformation has come: how many chains it has, whether a round's answers keep the
/// order of its messages, which messages no chain has been handed yet, and what the rounds so
/// far have answered.
#[verifier::ext_equal]
pub struct RunState<M> {
    pub width: nat,
    pub ordered: bool,
    pub remaining: Seq<M>,
    pub results: Seq<M>,
}

impl<M> View for Run<M> {
    type V = RunState<M>;

    closed spec fn view(&self) -> RunState<M> {
        RunState {
            width: self.width as nat,
            ordered: self.ordered,
            remaining: self.remaining@,
            results: self.results@,
        }
    }
}

/// What a transformation does next.
#[derive(Debug)]
pub enum Step<M, E> {
    /// Hand each request to its chain, gather what they come to and resume `run` with it.
    Dispatch { requests: Vec<Request<M>>, run: Run<M> },
    /// Answer.
    Done(ChainResponse<M, E>),
}

#[verifier::ext_equal]
pub enum StepView<M, E> {
    Dispatch { requests: Seq<RequestView<M>>, run: RunState<M> },
    Done(Result<Seq<M>, E>),
}

impl<M, E> View for Step<M, E> {
    type V = StepView<M, E>;

    open spec fn view(&self) -> StepView<M, E> {
        match self {
            Step::Dispatch { requests, run } => StepView::Dispatch {
                requests: requests@.map_values(|request: Request<M>| request@),
                run: run@,
            },
            Step::Done(Ok(messages)) => StepView::Done(Ok(messages@)),
            Step::Done(Err(error)) => StepView::Done(Err(*error)),
        }
    }
}

/// The requests of a round: the message at each place, alone, to the chain at the same place.
pub open spec fn requests_for<M>(batch: Seq<M>) -> Seq<RequestView<M>> {
    Seq::new(
        batch.len(),
        |i: int|
            RequestView {
                chain: i as nat,
                messages: seq![batch[i]],
                client_details: "Parallel"@,
            },
    )
}

/// The messages of an outcome that is no error.
pub open spec fn messages_of<M, E>(outcome: ChainResponse<M, E>) -> Seq<M>
    recommends
        outcome is Ok,
{
    outcome->Ok_0@
}

pub open spec fn all_ok<M, E>(outcomes: Seq<ChainResponse<M, E>>) -> bool {
    forall|i: int| 0 <= i < outcomes.len() ==> #[trigger] outcomes[i] is Ok
}

/// The outcome at place `i` is the first that is an error.
pub open spec fn failed_at<M, E>(outcomes: Seq<ChainResponse<M, E>>, i: int) -> bool {
    &&& 0 <= i < outcomes.len()
    &&& outcomes[i] is Err
    &&& all_ok(outcomes.take(i))
}

/// The first error among outcomes that are not all successes.
pub open spec fn first_error<M, E>(outcomes: Seq<ChainResponse<M, E>>) -> E
    recommends
        !all_ok(outcomes),
{
    outcomes[choose|i: int| failed_at(outcomes, i)]->Err_0
}

/// What a round without an error adds to the answer: the messages of all its outcomes, one
/// outcome after the other.
pub open spec fn round_reply<M, E>(outcomes: Seq<ChainResponse<M, E>>) -> Seq<M>
    recommends
        all_ok(outcomes),
{
    outcomes.map_values(|outcome: ChainResponse<M, E>| messages_of(outcome)).flatten()
}

/// Only one of the outcomes is the first error.
pub proof fn lemma_failed_at<M, E>(outcomes: Seq<ChainResponse<M, E>>, i: int)
    requires
        failed_at(outcomes, i),
    ensures
        !all_ok(outcomes),
        first_error(outcomes) == outcomes[i]->Err_0,
{
    let j = choose|j: int| failed_at(outcomes, j);
    if i < j {
        assert(outcomes.take(j)[i] is Ok);
    }
    if j < i {
        assert(outcomes.take(i)[j] is Ok);
    }
    assert(!(outcomes[i] is Ok));
}

impl<M> RunState<M> {
    /// The state in which a transformation begins.
    pub open spec fn start(width: nat, ordered: bool, messages: Seq<M>) -> Self {
        RunState { width, ordered, remaining: messages, results: Seq::empty() }
    }

    /// How many messages the next round takes: one for each chain, as long as there are any.
    pub open spec fn round_len(self) -> nat {
        if self.width <= self.remaining.len() {
            self.width
        } else {
            self.remaining.len()
        }
    }

    /// What the transformation does from here.
    pub open spec fn next<E>(self) -> StepView<M, E> {
        if self.remaining.len() == 0 {
            StepView::Done(Ok(self.results))
        } else {
            StepView::Dispatch {
                requests: requests_for(self.remaining.take(self.round_len() as int)),
                run: RunState { remaining: self.remaining.skip(self.round_len() as int), ..self },
            }
        }
    }

    /// The state once a round has come to `outcomes`, none of them an error.
    pub open spec fn absorb<E>(self, outcomes: Seq<ChainResponse<M, E>>) -> Self {
        RunState { results: self.results + round_reply(outcomes), ..self }
    }

    /// What the transformation does once a round has come to `outcomes`: the first error among
    /// them ends it.
    pub open spec fn resume<E>(self, outcomes: Seq<ChainResponse<M, E>>) -> StepView<M, E> {
        if all_ok(outcomes) {
            self.absorb(outcomes).next()
        } else {
            StepView::Done(Err(first_error(outcomes)))
        }
    }
}

/// Joins the messages of a round's outcomes, or gives the first error among them.
fn join_outcomes<M, E>(outcomes: Vec<ChainResponse<M, E>>) -> (joined: Result<Vec<M>, E>)
    ensures
        match joined {
            Ok(messages) => all_ok(outcomes@) && messages@ == round_reply(outcomes@),
            Err(error) => !all_ok(outcomes@) && error == first_error(outcomes@),
        },
{
    let mut joined: Vec<M> = Vec::new();
    let ghost given = outcomes@;
    let ghost parts = given.map_values(|outcome: ChainResponse<M, E>| messages_of(outcome));
    for outcome in it: outcomes
        invariant
            it.seq() == given,
            parts == given.map_values(|outcome: ChainResponse<M, E>| messages_of(outcome)),
            all_ok(given.take(it.index())),
            joined@ == parts.take(it.index()).flatten(),
    {
        proof {
            let i = it.index();
            assert(given[i] == outcome);
            assert(parts.take(i + 1) =~= parts.take(i).push(parts[i]));
            parts.take(i).lemma_flatten_push(parts[i]);
            assert(given.take(i + 1) =~= given.take(i).push(outcome));
        }
        match outcome {
            Ok(messages) => {
                let mut messages = messages;
                joined.append(&mut messages);
            },
            Err(error) => {
                proof {
                    lemma_failed_at(given, it.index());
                }
                return Err(error);
            },
        }
    }
    assert(given.take(given.len() as int) =~= given);
    assert(parts.take(parts.len() as int) =~= parts);
    Ok(joined)
}

impl<M> Run<M> {
    /// The next round, or the answer where no message is left.
    fn next<E>(self) -> (step: Step<M, E>)
        ensures
            step@ == self@.next::<E>(),
    {
        if self.remaining.len() == 0 {
            return Step::Done(Ok(self.results));
        }
        let Run { width, ordered, mut remaining, results } = self;
        let round_len: usize = if width <= remaining.len() {
            width
        } else {
            remaining.len()
        };
        let rest = remaining.split_off(round_len);
        let ghost batch = remaining@;
        let mut requests: Vec<Request<M>> = Vec::new();
        for message in it: remaining
            invariant
                it.seq() == batch,
                batch.len() <= usize::MAX,
                requests@.len() == it.index(),
                forall|i: int|
                    0 <= i < requests@.len() ==> (#[trigger] requests@[i])@ == requests_for(
                        batch,
                    )[i],
        {
            let chain: usize = requests.len();
            let request = Request {
                chain,
                wrapper: Wrapper::new(vec![message]),
                client_details: "Parallel".to_string(),
            };
            assert(request@ =~= requests_for(batch)[chain as int]);
            requests.push(request);
        }
        Step::Dispatch { requests, run: Run { width, ordered, remaining: rest, results } }
    }

    /// One future for what the chains of a round are about to answer, given a future for each: it
    /// yields their outcomes in the order of the futures if the [`ParallelMap`] is ordered, else
    /// in some order.
    pub fn gather<T: Future>(&self, futures: Vec<T>) -> (all: Collected<
        impl Future<Output = Vec<T::Output>>,
        impl Future<Output = Vec<T::Output>>,
    >)
        ensures
            all is Ordered <==> self@.ordered,
            match all {
                Collected::Ordered(all) => {
                    &&& all@.len() == futures@.len()
                    &&& forall|i: int|
                        0 <= i < futures@.len() ==> all@[i] == (#[trigger] futures@[i])@
                },
                Collected::Unordered(all) => exists|order: Seq<int>| #[trigger]
                    is_permutation(order, futures@.len()) && all@.len() == futures@.len() && forall|
                        i: int,
                    |
                        0 <= i < futures@.len() ==> all@[i] == futures@[#[trigger] order[i]]@,
            },
    {
        let ghost given = futures@;
        let mut collection = UOFutures::new(self.ordered);
        assert(given.take(0) =~= Seq::empty());
        for future in it: futures
            invariant
                it.seq() == given,
                collection is Ordered <==> self@.ordered,
                collection.holds(given.take(it.index())),
        {
            collection.push(future);
            assert(given.take(it.index() + 1) =~= given.take(it.index()).push(future));
        }
        assert(given.take(given.len() as int) =~= given);
        collection.collect()
    }

    /// Takes up the transformation again, once the round that was dispatched last has come to
    /// `outcomes`. The first error among them is the answer; without one the next round follows,
    /// or the answer where no message is left.
    pub fn resume<E>(self, outcomes: Vec<ChainResponse<M, E>>) -> (step: Step<M, E>)
        ensures
            step@ == self@.resume(outcomes@),
            all_ok(outcomes@) ==> step@ == self@.absorb(outcomes@).next::<E>(),
            forall|i: int| #[trigger]
                failed_at(outcomes@, i) ==> step@ == StepView::<M, E>::Done(
                    Err(outcomes@[i]->Err_0),
                ),
    {
        proof {
            assert forall|i: int| #[trigger] failed_at(outcomes@, i) implies !all_ok(outcomes@)
                && first_error(outcomes@) == outcomes@[i]->Err_0 by {
                lemma_failed_at(outcomes@, i);
            }
        }
        match join_outcomes(outcomes) {
            Ok(messages) => {
                let mut run = self;
                let mut messages = messages;
                run.results.append(&mut messages);
                run.next()
            },
            Err(error) => Step::Done(Err(error)),
        }
    }
}

impl<C> ParallelMap<C> {
    /// Begins to spread the messages over the chains.
    pub fn transform<M, E>(&self, message_wrapper: Wrapper<M>) -> (step: Step<M, E>)
        ensures
            step@ == RunState::start(
                self.chains@.len(),
                self.ordered,
                message_wrapper.messages@,
            ).next::<E>(),
    {
        let run = Run {
            width: self.chains.len(),
            ordered: self.ordered,
            remaining: message_wrapper.messages,
            results: Vec::new(),
        };
        run.next()
    }

    pub fn get_name(&self) -> (name: &'static str)
        ensures
            name@ == "SequentialMap"@,
    {
        "SequentialMap"
    }
}

/// A chain that fails cancels none of the others: what is gathered of a round holds what every
/// one of its chains came to.
pub proof fn law_every_outcome_is_gathered<M, T: Future>(run: Run<M>, futures: Vec<T>)
    ensures
        forall|all| #[trigger]
            call_ensures(Run::<M>::gather::<T>, (&run, futures), all) ==> match all {
                Collected::Ordered(all) => run@.ordered && all@@ == Seq::new(
                    futures@.len(),
                    |i: int| futures@[i]@,
                ),
                Collected::Unordered(all) => !run@.ordered && exists|order: Seq<int>| #[trigger]
                    is_permutation(order, futures@.len()) && all@@ == Seq::new(
                        futures@.len(),
                        |i: int| futures@[order[i]]@,
                    ),
            },
{
}

/// Where the order is kept, a round in which a chain fails ends the transformation with the error
/// of the first chain that does, in the order of the round's requests, whichever completes first.
pub proof fn law_ordered_round_error<M, E, T: Future<Output = ChainResponse<M, E>>>(
    run: Run<M>,
    futures: Vec<T>,
    i: int,
)
    requires
        run@.ordered,
        0 <= i < futures@.len(),
        futures@[i]@ is Err,
        forall|j: int| 0 <= j < i ==> (#[trigger] futures@[j])@ is Ok,
    ensures
        forall|all| #[trigger]
            call_ensures(Run::<M>::gather::<T>, (&run, futures), all) ==> {
                &&& all is Ordered
                &&& run@.resume(all->Ordered_0@@) == StepView::<M, E>::Done(
                    Err(futures@[i]@->Err_0),
                )
            },
{
    assert forall|all| #[trigger]
        call_ensures(Run::<M>::gather::<T>, (&run, futures), all) implies all is Ordered
        && run@.resume(all->Ordered_0@@) == StepView::<M, E>::Done(
        Err(futures@[i]@->Err_0),
    ) by {
        let outcomes = all->Ordered_0@@;
        assert(outcomes[i] == futures@[i]@);
        assert forall|j: int| 0 <= j < i implies #[trigger] outcomes.take(i)[j] is Ok by {
            assert(futures@[j]@ is Ok);
        }
        assert(failed_at(outcomes, i));
        lemma_failed_at(outcomes, i);
    }
}

/// Every round of a transformation is gathered as the map it began with says: in the order of
/// the futures if that keeps the order, else with every outcome as often as it was given.
pub proof fn law_rounds_are_gathered_as_the_map_says<
    C,
    M,
    E,
    T: Future<Output = ChainResponse<M, E>>,
>(
    map: ParallelMap<C>,
    wrapper: Wrapper<M>,
    outcomes: Seq<Vec<ChainResponse<M, E>>>,
    steps: Seq<Step<M, E>>,
    run: Run<M>,
    futures: Vec<T>,
)
    requires
        steps.len() == outcomes.len() + 1,
        call_ensures(ParallelMap::<C>::transform::<M, E>, (&map, wrapper), steps[0]),
        forall|k: int| 0 <= k < outcomes.len() ==> #[trigger] steps[k] is Dispatch,
        forall|k: int|
            #![trigger outcomes[k]]
            0 <= k < outcomes.len() ==> call_ensures(
                Run::<M>::resume::<E>,
                (steps[k]->run, outcomes[k]),
                steps[k + 1],
            ),
        steps.last() is Dispatch,
        run == steps.last()->run,
    ensures
        forall|all| #[trigger]
            call_ensures(Run::<M>::gather::<T>, (&run, futures), all) ==> match all {
                Collected::Ordered(all) => map.ordered && all@@ == Seq::new(
                    futures@.len(),
                    |i: int| futures@[i]@,
                ),
                Collected::Unordered(all) => !map.ordered && all@@.to_multiset() == Seq::new(
                    futures@.len(),
                    |i: int| futures@[i]@,
                ).to_multiset(),
            },
{
    lemma_order_is_kept(map, wrapper, outcomes, steps);
    law_every_outcome_is_gathered(run, futures);
    let outputs = Seq::new(futures@.len(), |i: int| futures@[i]@);
    assert forall|all| #[trigger]
        call_ensures(Run::<M>::gather::<T>, (&run, futures), all) && all is Unordered
        implies all->Unordered_0@@.to_multiset() == outputs.to_multiset() by {
        let given = all->Unordered_0@@;
        let order = choose|order: Seq<int>| #[trigger]
            is_permutation(order, futures@.len()) && given == Seq::new(
                futures@.len(),
                |i: int| futures@[order[i]]@,
            );
        lemma_permuted_multiset(outputs, given, order);
    }
}

/// The rounds of a transformation keep to the order that the map it began with asks for.
proof fn lemma_order_is_kept<C, M, E>(
    map: ParallelMap<C>,
    wrapper: Wrapper<M>,
    outcomes: Seq<Vec<ChainResponse<M, E>>>,
    steps: Seq<Step<M, E>>,
)
    requires
        steps.len() == outcomes.len() + 1,
        call_ensures(ParallelMap::<C>::transform::<M, E>, (&map, wrapper), steps[0]),
        forall|k: int| 0 <= k < outcomes.len() ==> #[trigger] steps[k] is Dispatch,
        forall|k: int|
            #![trigger outcomes[k]]
            0 <= k < outcomes.len() ==> call_ensures(
                Run::<M>::resume::<E>,
                (steps[k]->run, outcomes[k]),
                steps[k + 1],
            ),
        steps.last() is Dispatch,
    ensures
        steps.last()->run@.ordered == map.ordered,
    decreases outcomes.len(),
{
    if outcomes.len() > 0 {
        let n = outcomes.len() as int;
        let fewer = outcomes.drop_last();
        let begun = steps.drop_last();
        assert forall|r: int|
            #![trigger fewer[r]]
            0 <= r < fewer.len() implies call_ensures(
            Run::<M>::resume::<E>,
            (begun[r]->run, fewer[r]),
            begun[r + 1],
        ) by {
            assert(fewer[r] == outcomes[r]);
        }
        assert(outcomes[n - 1] == outcomes.last());
        lemma_order_is_kept(map, wrapper, fewer, begun);
    }
}

/// What `get_source` returns, said of its parts: it succeeds where building the chain did, with as
/// many chains as the configuration asks for, each a copy of the one that was built, and fails
/// with the error of building it where that failed. The order is the configuration's own.
pub proof fn law_source<T, C: Clone, E>(
    config: ParallelMapConfig<T>,
    built: Result<C, E>,
    source: Result<Transforms<C>, E>,
)
    requires
        call_ensures(ParallelMapConfig::<T>::get_source::<C, E>, (&config, built), source),
    ensures
        source is Ok <==> built is Ok,
        built is Err ==> source->Err_0 == built->Err_0,
        source is Ok ==> {
            &&& source->Ok_0 matches Transforms::ParallelMap(map)
            &&& map.chains@.len() == config.parallelism
            &&& forall|i: int|
                0 <= i < config.parallelism ==> cloned(built->Ok_0, #[trigger] map.chains@[i])
            &&& map.ordered == config.ordered_results
        },
{
}

/// A copy of a map has as many chains, each a copy of the one at its place, and the same order.
pub proof fn law_copy<C: Clone>(map: ParallelMap<C>, copy: ParallelMap<C>)
    requires
        call_ensures(<ParallelMap<C> as Clone>::clone, (&map,), copy),
    ensures
        copy.chains@.len() == map.chains@.len(),
        forall|i: int|
            0 <= i < map.chains@.len() ==> cloned(map.chains@[i], #[trigger] copy.chains@[i]),
        copy.ordered == map.ordered,
{
}

} // verus!
