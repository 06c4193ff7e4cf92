//! A transform that sends nothing on and answers by itself.
use crate::message::{ChainResponse, Message, MessageDetails, QueryResponse, RawFrame, Wrapper};
use vstd::prelude::*;

verus! {

/// Answers every query with an empty response, or the whole of what it is given with a single
/// one.
#[derive(Debug)]
pub struct Null {
    with_request: bool,
}

impl Clone for Null {
    fn clone(&self) -> (copy: Self)
        ensures
            copy == *self,
    {
        Null { with_request: self.with_request }
    }
}

/// The message that carries `response` and was never on the wire.
pub open spec fn response_message<Q, V, F>(response: QueryResponse<Q, V>) -> Message<Q, V, F> {
    Message {
        details: MessageDetails::Response(response),
        modified: true,
        original: RawFrame::None,
    }
}

/// The response without any content, with the query that it answers, if it answers one.
pub open spec fn empty_response<Q, V>(matching_query: Option<Q>) -> QueryResponse<Q, V> {
    QueryResponse { matching_query, result: None, error: None, response_meta: None }
}

/// What a message gets for an answer: a query an empty response that carries it along, any other
/// message nothing.
pub open spec fn answer<Q, V, F>(message: Message<Q, V, F>) -> Option<Message<Q, V, F>> {
    match message.details {
        MessageDetails::Query(query) => Some(response_message(empty_response(Some(query)))),
        _ => None,
    }
}

/// The answers to a sequence of messages, in their order.
pub open spec fn answers<Q, V, F>(messages: Seq<Message<Q, V, F>>) -> Seq<Message<Q, V, F>> {
    messages.filter_map(|message: Message<Q, V, F>| answer(message))
}

impl Default for Null {
    fn default() -> (null: Self)
        ensures
            null.answers_requests(),
    {
        Null::new()
    }
}

impl Null {
    /// Each query gets its own answer.
    pub closed spec fn answers_requests(self) -> bool {
        self.with_request
    }

    /// What this transform answers to `messages`.
    pub open spec fn response<Q, V, F>(self, messages: Seq<Message<Q, V, F>>) -> Seq<
        Message<Q, V, F>,
    > {
        if self.answers_requests() {
            answers(messages)
        } else {
            seq![response_message(empty_response(None))]
        }
    }

    /// A transform that answers each query.
    pub fn new() -> (null: Null)
        ensures
            null.answers_requests(),
    {
        Null { with_request: true }
    }

    /// A transform that gives one answer to all that it is handed.
    pub fn new_without_request() -> (null: Null)
        ensures
            !null.answers_requests(),
    {
        Null { with_request: false }
    }

    /// Answers without sending anything on. It never fails.
    pub fn transform<Q, V, F, E>(&self, message_wrapper: Wrapper<Message<Q, V, F>>) -> (response:
        ChainResponse<Message<Q, V, F>, E>)
        ensures
            response matches Ok(messages) && messages@ == self.response(
                message_wrapper.messages@,
            ),
    {
        if self.with_request {
            let mut responses: Vec<Message<Q, V, F>> = Vec::new();
            let ghost given = message_wrapper.messages@;
            for message in it: message_wrapper.messages
                invariant
                    it.seq() == given,
                    responses@ == answers(given.take(it.index())),
            {
                proof {
                    given.lemma_filter_map_take_succ(|m: Message<Q, V, F>| answer(m), it.index());
                }
                if let MessageDetails::Query(query) = message.details {
                    responses.push(
                        Message::new_response(
                            QueryResponse::empty_with_matching(query),
                            true,
                            RawFrame::None,
                        ),
                    );
                }
            }
            assert(given.take(given.len() as int) =~= given);
            return Ok(responses);
        }
        Ok(
            vec![
                Message::new(
                    MessageDetails::Response(QueryResponse::empty()),
                    true,
                    RawFrame::None,
                ),
            ],
        )
    }

    pub fn get_name(&self) -> (name: &'static str)
        ensures
            name@ == "Null"@,
    {
        "Null"
    }
}

/// The queries among the messages, in their order.
pub open spec fn queries<Q, V, F>(messages: Seq<Message<Q, V, F>>) -> Seq<Q> {
    messages.filter_map(
        |message: Message<Q, V, F>|
            match message.details {
                MessageDetails::Query(query) => Some(query),
                _ => None,
            },
    )
}

/// Each query is answered once, in the order of the queries, by an empty response that carries
/// it; nothing else is answered.
pub proof fn law_one_answer_per_query<Q, V, F>(messages: Seq<Message<Q, V, F>>)
    ensures
        answers(messages) == queries(messages).map_values(
            |query: Q| response_message::<Q, V, F>(empty_response(Some(query))),
        ),
    decreases messages.len(),
{
    if messages.len() > 0 {
        law_one_answer_per_query(messages.drop_last());
    }
    assert(answers(messages) =~= queries(messages).map_values(
        |query: Q| response_message::<Q, V, F>(empty_response(Some(query))),
    ));
}

/// Messages that come in two parts are answered as they are in one.
pub proof fn law_answers_of_parts<Q, V, F>(
    first: Seq<Message<Q, V, F>>,
    second: Seq<Message<Q, V, F>>,
)
    ensures
        answers(first + second) == answers(first) + answers(second),
    decreases second.len(),
{
    if second.len() == 0 {
        assert(first + second =~= first);
        assert(answers(first + second) =~= answers(first) + answers(second));
    } else {
        law_answers_of_parts(first, second.drop_last());
        assert((first + second).drop_last() =~= first + second.drop_last());
        assert(answers(first + second) =~= answers(first) + answers(second));
    }
}

/// The answers ask for nothing: a second such transform has no answer to them.
pub proof fn law_answers_get_no_answer<Q, V, F>(messages: Seq<Message<Q, V, F>>)
    ensures
        answers(answers(messages)) == Seq::<Message<Q, V, F>>::empty(),
    decreases messages.len(),
{
    if messages.len() > 0 {
        let message = messages.last();
        law_answers_get_no_answer(messages.drop_last());
        if let Some(response) = answer(message) {
            law_answers_of_parts(answers(messages.drop_last()), seq![response]);
            Seq::lemma_filter_map_singleton(response, |m: Message<Q, V, F>| answer(m));
        }
    }
    assert(answers(answers(messages)) =~= Seq::<Message<Q, V, F>>::empty());
}

/// A transform made without request answers every wrapper alike, whatever it holds: with one
/// message, a response without a query, a result, an error or any metadata, which counts as
/// modified and was never on the wire.
pub proof fn law_without_request_one_empty_response<Q, V, F, E>(
    null: Null,
    wrapper: Wrapper<Message<Q, V, F>>,
    response: ChainResponse<Message<Q, V, F>, E>,
)
    requires
        call_ensures(Null::new_without_request, (), null),
        call_ensures(Null::transform::<Q, V, F, E>, (&null, wrapper), response),
    ensures
        response is Ok,
        response->Ok_0@.len() == 1,
        response->Ok_0@[0].modified,
        response->Ok_0@[0].original is None,
        response->Ok_0@[0].details matches MessageDetails::Response(empty) && {
            &&& empty.matching_query is None
            &&& empty.result is None
            &&& empty.error is None
            &&& empty.response_meta is None
        },
{
}

/// A transform made without request cannot tell two wrappers apart.
pub proof fn law_without_request_all_alike<Q, V, F, E>(
    null: Null,
    one: Wrapper<Message<Q, V, F>>,
    other: Wrapper<Message<Q, V, F>>,
    to_one: ChainResponse<Message<Q, V, F>, E>,
    to_other: ChainResponse<Message<Q, V, F>, E>,
)
    requires
        call_ensures(Null::new_without_request, (), null),
        call_ensures(Null::transform::<Q, V, F, E>, (&null, one), to_one),
        call_ensures(Null::transform::<Q, V, F, E>, (&null, other), to_other),
    ensures
        to_one is Ok,
        to_other is Ok,
        to_one->Ok_0@ == to_other->Ok_0@,
{
    law_without_request_one_empty_response(null, one, to_one);
    law_without_request_one_empty_response(null, other, to_other);
}

/// A transform that answers requests gives one answer for each message that is a query, and the
/// answer at each place carries the query at that place among the queries. No answer carries
/// anything else, each counts as modified, and none was ever on the wire.
pub proof fn law_each_request_is_answered<Q, V, F, E>(
    null: Null,
    wrapper: Wrapper<Message<Q, V, F>>,
    response: ChainResponse<Message<Q, V, F>, E>,
)
    requires
        call_ensures(Null::new, (), null) || call_ensures(<Null as Default>::default, (), null),
        call_ensures(Null::transform::<Q, V, F, E>, (&null, wrapper), response),
    ensures
        response is Ok,
        ({
            let asked = wrapper.messages@.filter(|m: Message<Q, V, F>| m.details is Query);
            let given = response->Ok_0@;
            &&& given.len() == asked.len()
            &&& forall|i: int|
                #![trigger given[i]]
                0 <= i < given.len() ==> {
                    &&& given[i].modified
                    &&& given[i].original is None
                    &&& given[i].details matches MessageDetails::Response(empty)
                    &&& empty.matching_query == Some(asked[i].details->Query_0)
                    &&& empty.result is None
                    &&& empty.error is None
                    &&& empty.response_meta is None
                }
        }),
{
    lemma_answers_to_queries(wrapper.messages@);
}

proof fn lemma_answers_to_queries<Q, V, F>(messages: Seq<Message<Q, V, F>>)
    ensures
        ({
            let asked = messages.filter(|m: Message<Q, V, F>| m.details is Query);
            let given = answers(messages);
            &&& given.len() == asked.len()
            &&& forall|i: int|
                #![trigger given[i]]
                0 <= i < given.len() ==> asked[i].details is Query && given[i]
                    == response_message::<Q, V, F>(
                    empty_response(Some(asked[i].details->Query_0)),
                )
        }),
    decreases messages.len(),
{
    reveal(Seq::filter);
    if messages.len() > 0 {
        lemma_answers_to_queries(messages.drop_last());
    }
}

} // verus!
