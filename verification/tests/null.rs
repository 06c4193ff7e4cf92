use message_transforms::message::{Message, MessageDetails, QueryResponse, RawFrame, Wrapper};
use message_transforms::null::Null;

type Text = Message<&'static str, i64, u8>;

fn query(text: &'static str) -> Text {
    Message::new(MessageDetails::Query(text), false, Some(7))
}

fn response() -> Text {
    Message::new_response(QueryResponse::empty(), false, RawFrame::None)
}

fn unknown() -> Text {
    Message::new(MessageDetails::Unknown, false, RawFrame::None)
}

fn empty_answer(matching_query: Option<&'static str>) -> Text {
    Message {
        details: MessageDetails::Response(QueryResponse {
            matching_query,
            result: None,
            error: None,
            response_meta: None,
        }),
        modified: true,
        original: None,
    }
}

fn respond(null: &Null, messages: Vec<Text>) -> Vec<Text> {
    let answered: Result<Vec<Text>, ()> = null.transform(Wrapper::new(messages));
    answered.unwrap()
}

#[test]
fn each_query_gets_its_own_answer() {
    let messages = vec![query("a"), response(), query("b"), unknown(), query("a")];
    assert_eq!(
        respond(&Null::new(), messages),
        vec![empty_answer(Some("a")), empty_answer(Some("b")), empty_answer(Some("a"))]
    );
}

#[test]
fn messages_without_a_query_get_no_answer() {
    assert_eq!(respond(&Null::new(), vec![response(), unknown()]), vec![]);
    assert_eq!(respond(&Null::new(), vec![]), vec![]);
}

#[test]
fn without_request_there_is_one_answer_to_all() {
    let null = Null::new_without_request();
    assert_eq!(respond(&null, vec![query("a"), query("b")]), vec![empty_answer(None)]);
    assert_eq!(respond(&null, vec![unknown()]), vec![empty_answer(None)]);
    assert_eq!(respond(&null, vec![]), vec![empty_answer(None)]);
}

#[test]
fn default_answers_each_query() {
    assert_eq!(respond(&Null::default(), vec![query("a")]), vec![empty_answer(Some("a"))]);
}

#[test]
fn a_copy_answers_as_its_model() {
    let null = Null::new_without_request().clone();
    assert_eq!(respond(&null, vec![query("a")]), vec![empty_answer(None)]);
    assert_eq!(respond(&Null::new().clone(), vec![query("a")]), vec![empty_answer(Some("a"))]);
}

#[test]
fn answers_get_no_answer() {
    let null = Null::new();
    let answers = respond(&null, vec![query("a"), query("b")]);
    assert_eq!(answers.len(), 2);
    assert_eq!(respond(&null, answers), vec![]);
}

#[test]
fn parts_are_answered_as_the_whole() {
    let null = Null::new();
    let mut in_parts = respond(&null, vec![query("a"), unknown()]);
    in_parts.extend(respond(&null, vec![query("b")]));
    assert_eq!(in_parts, respond(&null, vec![query("a"), unknown(), query("b")]));
}

#[test]
fn null_name() {
    assert_eq!(Null::new().get_name(), "Null");
}

#[test]
fn messages_are_made_of_what_they_are_given() {
    let matching: QueryResponse<u8, u8> = QueryResponse::empty_with_matching(3);
    assert_eq!(matching.matching_query, Some(3));
    assert_eq!((matching.result, matching.error, matching.response_meta), (None, None, None));
    let empty: QueryResponse<u8, u8> = QueryResponse::empty();
    assert_eq!(empty.matching_query, None);
    let message: Message<u8, u8, u8> =
        Message::new_response(QueryResponse::empty_with_matching(3), true, Some(9));
    assert_eq!(message.details, MessageDetails::Response(matching));
    assert!(message.modified);
    assert_eq!(message.original, Some(9));
}
