use futures::executor::block_on;
use message_transforms::message::{Message, MessageDetails, Wrapper};
use message_transforms::null::Null;
use message_transforms::parallel_map::{ParallelMap, ParallelMapConfig, Request, Step, Transforms};
use message_transforms::uo_futures::Collected;
use std::future::Future;
use std::pin::Pin;
use std::task::{Context, Poll};

type Outcome = Result<Vec<u32>, String>;

/// Resolves to its outcome when it has been polled that many times before.
struct Late<R> {
    polls: u32,
    outcome: Option<R>,
}

impl<R: Unpin> Future for Late<R> {
    type Output = R;

    fn poll(mut self: Pin<&mut Self>, cx: &mut Context<'_>) -> Poll<R> {
        if self.polls == 0 {
            return Poll::Ready(self.outcome.take().unwrap());
        }
        self.polls -= 1;
        cx.waker().wake_by_ref();
        Poll::Pending
    }
}

/// Runs a transformation to its end. In each round the chains with the higher places are quicker.
/// Returns the answer and the requests of each round.
fn run<M, R: Unpin>(
    map: &ParallelMap<u8>,
    messages: Vec<M>,
    reply: impl Fn(&Request<M>) -> Result<Vec<M>, R>,
) -> (Result<Vec<M>, R>, Vec<Vec<Request<M>>>)
where
    M: Unpin,
{
    let mut rounds = Vec::new();
    let mut step: Step<M, R> = map.transform(Wrapper::new(messages));
    loop {
        match step {
            Step::Done(response) => return (response, rounds),
            Step::Dispatch { requests, run } => {
                let futures: Vec<Late<Result<Vec<M>, R>>> = requests
                    .iter()
                    .map(|request| Late {
                        polls: 2 * (requests.len() - request.chain) as u32,
                        outcome: Some(reply(request)),
                    })
                    .collect();
                rounds.push(requests);
                let outcomes = match run.gather(futures) {
                    Collected::Ordered(all) => block_on(all),
                    Collected::Unordered(all) => block_on(all),
                };
                step = run.resume(outcomes);
            }
        }
    }
}

fn map(chains: u8, ordered: bool) -> ParallelMap<u8> {
    ParallelMap { chains: (0..chains).collect(), ordered }
}

fn double(request: &Request<u32>) -> Outcome {
    let message = request.wrapper.messages[0];
    Ok(vec![message * 10, message * 10 + 1])
}

fn sent(rounds: &[Vec<Request<u32>>]) -> Vec<Vec<(usize, Vec<u32>)>> {
    rounds
        .iter()
        .map(|requests| {
            requests.iter().map(|r| (r.chain, r.wrapper.messages.clone())).collect()
        })
        .collect()
}

#[test]
fn every_round_hands_each_chain_one_message() {
    let (_, rounds) = run(&map(2, true), vec![1, 2, 3, 4, 5], double);
    assert_eq!(
        sent(&rounds),
        vec![
            vec![(0, vec![1]), (1, vec![2])],
            vec![(0, vec![3]), (1, vec![4])],
            vec![(0, vec![5])],
        ]
    );
    for request in rounds.iter().flatten() {
        assert_eq!(request.client_details, "Parallel");
    }
}

#[test]
fn ordered_answers_follow_the_messages() {
    let (response, _) = run(&map(2, true), vec![1, 2, 3], double);
    assert_eq!(response, Ok(vec![10, 11, 20, 21, 30, 31]));
}

#[test]
fn how_many_chains_there_are_does_not_show_in_an_ordered_answer() {
    for chains in 1..7 {
        let (response, rounds) = run(&map(chains, true), vec![1, 2, 3, 4, 5], double);
        assert_eq!(response, Ok(vec![10, 11, 20, 21, 30, 31, 40, 41, 50, 51]));
        assert_eq!(rounds.len(), [5, 3, 2, 2, 1, 1][chains as usize - 1]);
    }
}

#[test]
fn unordered_answers_follow_the_chains_that_are_quickest() {
    let (response, _) = run(&map(2, false), vec![1, 2, 3], double);
    assert_eq!(response, Ok(vec![20, 21, 10, 11, 30, 31]));
}

#[test]
fn unordered_answers_are_the_ordered_ones_up_to_order() {
    let mut unordered = run(&map(3, false), vec![1, 2, 3, 4], double).0.unwrap();
    unordered.sort();
    assert_eq!(unordered, run(&map(3, true), vec![1, 2, 3, 4], double).0.unwrap());
}

fn fail_from(first: u32) -> impl Fn(&Request<u32>) -> Outcome {
    move |request| {
        let message = request.wrapper.messages[0];
        if message >= first {
            Err(format!("no reply to {}", message))
        } else {
            Ok(vec![message])
        }
    }
}

#[test]
fn an_error_is_the_answer_and_ends_the_rounds() {
    for ordered in [true, false] {
        let (response, rounds) = run(&map(2, ordered), vec![1, 2, 3, 9, 5], fail_from(9));
        assert_eq!(response, Err("no reply to 9".to_string()));
        assert_eq!(
            sent(&rounds),
            vec![vec![(0, vec![1]), (1, vec![2])], vec![(0, vec![3]), (1, vec![9])]]
        );
    }
}

#[test]
fn the_first_of_several_errors_is_the_answer() {
    let messages = || vec![1, 7, 8, 9];
    let (response, rounds) = run(&map(3, true), messages(), fail_from(7));
    assert_eq!(response, Err("no reply to 7".to_string()));
    assert_eq!(rounds.len(), 1);
    // Without an order it is the error that comes first.
    let (response, rounds) = run(&map(3, false), messages(), fail_from(7));
    assert_eq!(response, Err("no reply to 8".to_string()));
    assert_eq!(rounds.len(), 1);
}

#[test]
fn an_error_in_the_last_round_is_the_answer() {
    let (response, rounds) = run(&map(2, true), vec![1, 2, 9], fail_from(9));
    assert_eq!(response, Err("no reply to 9".to_string()));
    assert_eq!(rounds.len(), 2);
}

#[test]
fn the_other_chains_of_a_failed_round_are_awaited() {
    match map(3, true).transform::<u32, String>(Wrapper::new(vec![1, 2, 3])) {
        Step::Dispatch { run, .. } => {
            let futures: Vec<Late<Outcome>> = vec![
                Late { polls: 0, outcome: Some(Err("no reply".to_string())) },
                Late { polls: 4, outcome: Some(Ok(vec![2])) },
                Late { polls: 2, outcome: Some(Ok(vec![3])) },
            ];
            let outcomes = match run.gather(futures) {
                Collected::Ordered(all) => block_on(all),
                Collected::Unordered(all) => block_on(all),
            };
            assert_eq!(outcomes, vec![Err("no reply".to_string()), Ok(vec![2]), Ok(vec![3])]);
            assert!(matches!(run.resume(outcomes), Step::Done(Err(_))));
        }
        Step::Done(_) => panic!("an answer before anything was sent"),
    }
}

#[test]
fn without_an_order_rounds_stay_apart_and_replies_whole() {
    let (response, _) = run(&map(2, false), vec![1, 2, 3, 4], double);
    assert_eq!(response, Ok(vec![20, 21, 10, 11, 40, 41, 30, 31]));
}

#[test]
fn chains_may_answer_nothing_or_more_than_once() {
    let as_often = |request: &Request<u32>| -> Outcome {
        let message = request.wrapper.messages[0];
        Ok(vec![message; message as usize])
    };
    let (response, _) = run(&map(3, true), vec![0, 3, 1, 0, 2], as_often);
    assert_eq!(response, Ok(vec![3, 3, 3, 1, 2, 2]));
}

#[test]
fn no_message_makes_no_round() {
    for chains in [0, 1, 2] {
        let (response, rounds) = run(&map(chains, true), vec![], double);
        assert_eq!(response, Ok(vec![]));
        assert!(rounds.is_empty());
    }
}

#[test]
fn without_a_chain_round_follows_round() {
    let mut step: Step<u32, String> = map(0, true).transform(Wrapper::new(vec![1, 2]));
    for _ in 0..5 {
        match step {
            Step::Dispatch { requests, run } => {
                assert!(requests.is_empty());
                step = run.resume(vec![]);
            }
            Step::Done(_) => panic!("nothing was sent, yet there is an answer"),
        }
    }
}

#[test]
fn chains_of_nulls_answer_as_one_null() {
    let query = |n: u32| -> Message<u32, u32, u32> {
        Message::new(MessageDetails::Query(n), false, None)
    };
    let messages = || {
        let unknown = Message::new(MessageDetails::Unknown, false, None);
        vec![query(1), unknown, query(2), query(3)]
    };
    let null = Null::new();
    let alone: Result<Vec<Message<u32, u32, u32>>, ()> = null.transform(Wrapper::new(messages()));
    let (together, _) = run(&map(2, true), messages(), |request| {
        null.transform(Wrapper::new(request.wrapper.messages.clone()))
    });
    assert_eq!(together, alone);
    assert_eq!(together.unwrap().len(), 3);
}

fn config(parallelism: u32, ordered_results: bool) -> ParallelMapConfig<&'static str> {
    ParallelMapConfig {
        name: "both".to_string(),
        parallelism,
        chain: vec!["first", "second"],
        ordered_results,
    }
}

#[test]
fn the_chain_is_built_from_its_name_and_its_transforms() {
    let config = config(2, true);
    assert_eq!(config.chain_source(), ("both".to_string(), &vec!["first", "second"]));
}

#[test]
fn a_source_has_as_many_chains_as_the_parallelism() {
    for parallelism in [0, 1, 4] {
        for ordered in [true, false] {
            let built: Result<String, String> = Ok("chain".to_string());
            match config(parallelism, ordered).get_source(built) {
                Ok(Transforms::ParallelMap(map)) => {
                    assert_eq!(map.chains, vec!["chain"; parallelism as usize]);
                    assert_eq!(map.ordered, ordered);
                }
                _ => panic!("no map"),
            }
        }
    }
}

#[test]
fn a_source_with_fewer_chains_has_the_first_of_the_others() {
    let source = |parallelism, ordered| {
        let built: Result<String, String> = Ok("chain".to_string());
        match config(parallelism, ordered).get_source(built) {
            Ok(Transforms::ParallelMap(map)) => map,
            _ => panic!("no map"),
        }
    };
    let (fewer, more) = (source(2, true), source(5, false));
    assert_eq!(fewer.chains[..], more.chains[..2]);
    assert!(fewer.ordered && !more.ordered);
}

#[test]
fn a_chain_that_cannot_be_built_gives_no_source() {
    let built: Result<String, String> = Err("no such transform".to_string());
    match config(2, true).get_source(built) {
        Err(error) => assert_eq!(error, "no such transform"),
        Ok(_) => panic!("a source without a chain"),
    }
}

#[test]
fn a_copy_of_a_map_has_its_chains_and_its_order() {
    let copy = map(3, false).clone();
    assert_eq!(copy.chains, vec![0, 1, 2]);
    assert!(!copy.ordered);
}

#[test]
fn parallel_map_name() {
    assert_eq!(map(1, true).get_name(), "SequentialMap");
}
