//! Messages as the transforms see them. What a query, a value or a frame of the wire protocol
//! is made of is no concern of theirs: `Q`, `V` and `F` stand for the three.
use vstd::prelude::*;

verus! {

/// What a chain of transforms answers.
pub type ChainResponse<M, E> = Result<Vec<M>, E>;

/// The frame that a message was decoded from, if it came off the wire.
pub type RawFrame<F> = Option<F>;

/// An answer to a query.
#[derive(Debug, Clone, PartialEq, Eq)]
pub struct QueryResponse<Q, V> {
    pub matching_query: Option<Q>,
    pub result: Option<V>,
    pub error: Option<V>,
    pub response_meta: Option<V>,
}

/// What a message says.
#[derive(Debug, Clone, PartialEq, Eq)]
pub enum MessageDetails<Q, V> {
    Query(Q),
    Response(QueryResponse<Q, V>),
    Unknown,
}

/// A message between a client and its destination.
#[derive(Debug, Clone, PartialEq, Eq)]
pub struct Message<Q, V, F> {
    pub details: MessageDetails<Q, V>,
    pub modified: bool,
    pub original: RawFrame<F>,
}

/// The messages that are handed to a transform.
#[derive(Debug, Clone, PartialEq, Eq)]
pub struct Wrapper<M> {
    pub messages: Vec<M>,
}

impl<Q, V> QueryResponse<Q, V> {
    /// A response that says nothing and answers no query in particular.
    pub fn empty() -> (response: Self)
        ensures
            response == (QueryResponse {
                matching_query: None::<Q>,
                result: None::<V>,
                error: None::<V>,
                response_meta: None::<V>,
            }),
    {
        QueryResponse { matching_query: None, result: None, error: None, response_meta: None }
    }

    /// A response that says nothing and answers `query`.
    pub fn empty_with_matching(query: Q) -> (response: Self)
        ensures
            response == (QueryResponse {
                matching_query: Some(query),
                result: None::<V>,
                error: None::<V>,
                response_meta: None::<V>,
            }),
    {
        QueryResponse {
            matching_query: Some(query),
            result: None,
            error: None,
            response_meta: None,
        }
    }
}

impl<Q, V, F> Message<Q, V, F> {
    pub fn new(details: MessageDetails<Q, V>, modified: bool, original: RawFrame<F>) -> (message:
        Self)
        ensures
            message == (Message { details, modified, original }),
    {
        Message { details, modified, original }
    }

    pub fn new_response(
        response: QueryResponse<Q, V>,
        modified: bool,
        original: RawFrame<F>,
    ) -> (message: Self)
        ensures
            message == (Message {
                details: MessageDetails::Response(response),
                modified,
                original,
            }),
    {
        Message::new(MessageDetails::Response(response), modified, original)
    }
}

impl<M> Wrapper<M> {
    pub fn new(messages: Vec<M>) -> (wrapper: Self)
        ensures
            wrapper.messages == messages,
    {
        Wrapper { messages }
    }
}

/// A message is made of what it is given, and nothing is lost or added; a response message is the
/// message that has the response for its content.
pub proof fn law_messages_are_what_they_are_given<Q, V, F>(
    details: MessageDetails<Q, V>,
    response: QueryResponse<Q, V>,
    modified: bool,
    original: RawFrame<F>,
    message: Message<Q, V, F>,
)
    requires
        call_ensures(Message::<Q, V, F>::new, (details, modified, original), message) || (
        details == MessageDetails::<Q, V>::Response(response) && call_ensures(
            Message::<Q, V, F>::new_response,
            (response, modified, original),
            message,
        )),
    ensures
        message.details == details,
        message.modified == modified,
        message.original == original,
{
}

/// Two empty responses differ at most in the query that they answer.
pub proof fn law_empty_responses<Q, V>(
    query: Q,
    plain: QueryResponse<Q, V>,
    matching: QueryResponse<Q, V>,
)
    requires
        call_ensures(QueryResponse::<Q, V>::empty, (), plain),
        call_ensures(QueryResponse::<Q, V>::empty_with_matching, (query,), matching),
    ensures
        plain.matching_query is None,
        matching.matching_query == Some(query),
        plain.result is None,
        plain.error is None,
        plain.response_meta is None,
        plain == (QueryResponse { matching_query: None::<Q>, ..matching }),
{
}

} // verus!
