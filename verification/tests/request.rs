use std::time::Duration;

use tonlibjson_client::ident::RequestId;
use tonlibjson_client::request::{
    tagged_payload, CallError, Request, RequestError, Requestable, Response, RoundTrip, Signal,
    Step,
};
use tonlibjson_client::wire::WireError;

const ID: &str = "7431f198-7514-40ff-876c-3e8ee0a311ba";
const BITS: u128 = 0x7431f198_7514_40ff_876c_3e8ee0a311ba;

#[test]
fn data_is_flatten() {
    let mut fields = serde_json::Map::new();
    fields.insert(
        "data".to_string(),
        serde_json::Value::String("is flatten".to_string()),
    );
    let request = Request {
        id: RequestId::parse_str(ID).unwrap(),
        timeout: Duration::from_secs(3),
        data: serde_json::to_string(&serde_json::Value::Object(fields)).unwrap(),
    };

    assert_eq!(
        request.to_wire().unwrap(),
        "{\"@extra\":\"7431f198-7514-40ff-876c-3e8ee0a311ba\",\"data\":\"is flatten\"}"
    )
}

#[test]
fn id_text_is_hyphenated_lower_hex() {
    assert_eq!(RequestId(BITS).to_text(), ID);
    assert_eq!(
        RequestId(0).to_text(),
        "00000000-0000-0000-0000-000000000000"
    );
    assert_eq!(
        RequestId(u128::MAX).to_text(),
        "ffffffff-ffff-ffff-ffff-ffffffffffff"
    );
    assert_eq!(
        RequestId(0x0123456789abcdef_0123456789abcdef).to_text(),
        "01234567-89ab-cdef-0123-456789abcdef"
    );
}

#[test]
fn id_reads_back_from_its_text() {
    assert_eq!(RequestId::parse_str(ID), Some(RequestId(BITS)));
    let id = RequestId::new_v4();
    assert_eq!(RequestId::parse_str(&id.to_text()), Some(id));
}

#[test]
fn id_is_read_in_other_spellings() {
    assert_eq!(
        RequestId::parse_str("7431F198751440FF876C3E8EE0A311BA"),
        Some(RequestId(BITS))
    );
    assert_eq!(
        RequestId::parse_str("{7431f198-7514-40ff-876c-3e8ee0a311ba}"),
        Some(RequestId(BITS))
    );
}

#[test]
fn id_is_not_read_from_other_text() {
    assert_eq!(RequestId::parse_str(""), None);
    assert_eq!(RequestId::parse_str("7431f198"), None);
    assert_eq!(
        RequestId::parse_str("7431f198-7514-40ff-876c-3e8ee0a311bg"),
        None
    );
    assert_eq!(
        RequestId::parse_str("7431f198_7514_40ff_876c_3e8ee0a311ba"),
        None
    );
}

#[test]
fn fresh_id_is_marked_random() {
    for _ in 0..64 {
        let id = RequestId::new_v4();
        assert_eq!((id.0 >> 76) & 0xf, 4);
        assert_eq!((id.0 >> 62) & 0x3, 2);
        assert_eq!(id.to_text().as_bytes()[14], b'4');
    }
}

#[test]
fn fresh_ids_differ() {
    let a = RequestId::new_v4();
    let b = RequestId::new_v4();
    assert_ne!(a, b);
    assert_ne!(a.another(), a);
}

#[test]
fn new_request_has_default_timeout_and_payload() {
    let request = Request::new("{\"a\":1}").unwrap();
    assert_eq!(request.timeout, Duration::from_secs(3));
    assert_eq!(request.data, "{\"a\":1}");
    assert_eq!((request.id.0 >> 76) & 0xf, 4);
}

#[test]
fn with_timeout_keeps_timeout() {
    let request = Request::with_timeout("{}", Duration::from_millis(250)).unwrap();
    assert_eq!(request.timeout, Duration::from_millis(250));
    assert_eq!(request.data, "{}");
}

#[test]
fn with_id_keeps_all_parts() {
    let request = Request::with_id(RequestId(BITS), "null", Duration::from_secs(7)).unwrap();
    assert_eq!(request.id, RequestId(BITS));
    assert_eq!(request.timeout, Duration::from_secs(7));
    assert_eq!(request.data, "null");
}

#[test]
fn payload_that_is_not_flat_is_refused() {
    assert_eq!(Request::new("\"text\""), Err(RequestError::NotFlat));
    assert_eq!(Request::new("[1,2]"), Err(RequestError::NotFlat));
    assert_eq!(Request::new("42"), Err(RequestError::NotFlat));
    assert_eq!(Request::new(" \"text\" "), Err(RequestError::NotFlat));
    assert_eq!(
        Request::with_timeout("true", Duration::from_secs(1)),
        Err(RequestError::NotFlat)
    );
    assert_eq!(
        Request::with_id(RequestId(1), "[{}]", Duration::from_secs(1)),
        Err(RequestError::NotFlat)
    );
}

#[test]
fn payload_with_white_space_around_it_is_taken() {
    let request = Request::with_id(RequestId(BITS), " {\"a\":1}\n", Duration::from_secs(3)).unwrap();
    assert_eq!(request.data, " {\"a\":1}\n");
    assert_eq!(
        request.to_wire().unwrap(),
        "{\"@extra\":\"7431f198-7514-40ff-876c-3e8ee0a311ba\",\"a\":1}"
    );
    let response = Response::from_wire(&request.to_wire().unwrap()).unwrap();
    assert_eq!(response.id, request.id);
    assert_eq!(response.data, "{\"a\":1}");
    assert!(Request::new(" null ").is_ok());
}

#[test]
fn wire_of_payload_that_is_not_json_is_refused() {
    for data in ["{garbage}", "{\"a\":1,}", "{\"a\"}", "{\"a\":1}}"] {
        let request = Request {
            id: RequestId(BITS),
            timeout: Duration::from_secs(3),
            data: data.to_string(),
        };
        assert_eq!(request.to_wire(), Err(RequestError::Unwritable));
    }
}

#[test]
fn payload_that_is_not_json_is_refused() {
    assert_eq!(Request::new(""), Err(RequestError::Unwritable));
    assert_eq!(Request::new("{"), Err(RequestError::Unwritable));
    assert_eq!(Request::new("{garbage}"), Err(RequestError::Unwritable));
    assert_eq!(Request::new("{\"a\":1,}"), Err(RequestError::Unwritable));
    assert_eq!(Request::new("nul"), Err(RequestError::Unwritable));
    assert_eq!(
        Request::with_timeout("{\"a\":1", Duration::from_secs(1)),
        Err(RequestError::Unwritable)
    );
    assert_eq!(
        Request::with_id(RequestId(1), "{} {}", Duration::from_secs(1)),
        Err(RequestError::Unwritable)
    );
    assert_eq!(
        tagged_payload(Some("{\"a\"}".to_string()), Duration::from_secs(1)),
        Err(RequestError::Unwritable)
    );
}

#[test]
fn with_new_id_changes_the_id_only() {
    let request = Request::with_timeout("{\"k\":[1,2]}", Duration::from_secs(9)).unwrap();
    let again = request.with_new_id();
    assert_ne!(again.id, request.id);
    assert_eq!(again.timeout, request.timeout);
    assert_eq!(again.data, request.data);
    assert_eq!(again.data.as_bytes(), request.data.as_bytes());
}

#[test]
fn wire_of_empty_and_null_payload_holds_the_id_alone() {
    let expected = "{\"@extra\":\"7431f198-7514-40ff-876c-3e8ee0a311ba\"}";
    for data in ["{}", "null", "{ }", "{\n\t}"] {
        let request = Request {
            id: RequestId(BITS),
            timeout: Duration::from_secs(3),
            data: data.to_string(),
        };
        assert_eq!(request.to_wire().unwrap(), expected);
    }
}

#[test]
fn wire_leaves_the_timeout_out() {
    let short = Request::with_id(RequestId(BITS), "{\"a\":1}", Duration::from_secs(1)).unwrap();
    let long = Request::with_id(RequestId(BITS), "{\"a\":1}", Duration::from_secs(100)).unwrap();
    assert_eq!(short.to_wire(), long.to_wire());
    assert_eq!(
        short.to_wire().unwrap(),
        "{\"@extra\":\"7431f198-7514-40ff-876c-3e8ee0a311ba\",\"a\":1}"
    );
}

#[test]
fn wire_of_payload_that_is_not_flat_is_refused() {
    let request = Request {
        id: RequestId(BITS),
        timeout: Duration::from_secs(3),
        data: "\"text\"".to_string(),
    };
    assert_eq!(request.to_wire(), Err(RequestError::NotFlat));
}

#[test]
fn wire_is_what_serde_json_reads_as_the_merged_object() {
    let request =
        Request::with_id(RequestId(BITS), "{\"a\":{\"b\":[1,2]},\"c\":\"}\"}", Duration::from_secs(3))
            .unwrap();
    let value: serde_json::Value = serde_json::from_str(&request.to_wire().unwrap()).unwrap();
    let object = value.as_object().unwrap();
    assert_eq!(object.len(), 3);
    assert_eq!(object["@extra"], serde_json::Value::String(ID.to_string()));
    assert_eq!(object["c"], serde_json::Value::String("}".to_string()));
    assert_eq!(object["a"]["b"][1], serde_json::Value::from(2));
}

#[test]
fn wire_reads_back_as_id_and_payload() {
    for data in [
        "{}",
        "{\"data\":\"is flatten\"}",
        "{\"a\":{\"b\":[1,2,{\"c\":null}]},\"d\":\"\\\"},{\"}",
        "{ \"spaced\" : true }",
    ] {
        let request = Request::with_timeout(data, Duration::from_secs(3)).unwrap();
        let response = Response::from_wire(&request.to_wire().unwrap()).unwrap();
        assert_eq!(response.id, request.id);
        assert_eq!(response.data, data);
        assert!(response.answers(&request));
        assert!(!response.answers(&request.with_new_id()));
    }
}

#[test]
fn response_is_read_wherever_the_id_stands() {
    let first = Response::from_wire(
        "{\"@extra\":\"7431f198-7514-40ff-876c-3e8ee0a311ba\",\"@type\":\"ok\",\"n\":1}",
    )
    .unwrap();
    assert_eq!(first.id, RequestId(BITS));
    assert_eq!(first.data, "{\"@type\":\"ok\",\"n\":1}");

    let middle = Response::from_wire(
        "{\"@type\":\"ok\",\"@extra\":\"7431f198-7514-40ff-876c-3e8ee0a311ba\",\"n\":1}",
    )
    .unwrap();
    assert_eq!(middle.id, RequestId(BITS));
    assert_eq!(middle.data, "{\"@type\":\"ok\",\"n\":1}");

    let last = Response::from_wire(
        "{\"@type\":\"ok\",\"n\":1,\"@extra\":\"7431f198-7514-40ff-876c-3e8ee0a311ba\"}",
    )
    .unwrap();
    assert_eq!(last.id, RequestId(BITS));
    assert_eq!(last.data, "{\"@type\":\"ok\",\"n\":1}");

    let alone =
        Response::from_wire("{\"@extra\":\"7431f198-7514-40ff-876c-3e8ee0a311ba\"}").unwrap();
    assert_eq!(alone.id, RequestId(BITS));
    assert_eq!(alone.data, "{}");
}

#[test]
fn response_is_read_past_space_nesting_and_escapes() {
    let text = " {\n \"a\" : {\"@extra\":\"inner\", \"x\":[\"]\",\"}\"]},\n \"b\" : \"q\\\"uote,\",\n \"@extra\" : \"7431f198-7514-40ff-876c-3e8ee0a311ba\" ,\n \"c\":[{},{}] }";
    let response = Response::from_wire(text).unwrap();
    assert_eq!(response.id, RequestId(BITS));
    assert_eq!(
        response.data,
        " {\n \"a\" : {\"@extra\":\"inner\", \"x\":[\"]\",\"}\"]},\n \"b\" : \"q\\\"uote,\",\n \"c\":[{},{}] }"
    );
    let value: serde_json::Value = serde_json::from_str(&response.data).unwrap();
    assert_eq!(value.as_object().unwrap().len(), 3);
    assert_eq!(value["a"]["@extra"], serde_json::Value::String("inner".to_string()));
}

#[test]
fn response_takes_the_first_reserved_member() {
    let response = Response::from_wire(
        "{\"@extra\":\"7431f198-7514-40ff-876c-3e8ee0a311ba\",\"@extra\":\"other\"}",
    )
    .unwrap();
    assert_eq!(response.id, RequestId(BITS));
    assert_eq!(response.data, "{\"@extra\":\"other\"}");
}

#[test]
fn response_that_is_no_object_is_refused() {
    assert_eq!(Response::from_wire("17"), Err(WireError::NotAnObject));
    assert_eq!(Response::from_wire("null"), Err(WireError::NotAnObject));
    assert_eq!(Response::from_wire("[1]"), Err(WireError::NotAnObject));
    assert_eq!(Response::from_wire("\"@extra\""), Err(WireError::NotAnObject));
}

#[test]
fn response_without_id_is_refused() {
    assert_eq!(Response::from_wire("{}"), Err(WireError::MissingId));
    assert_eq!(Response::from_wire("{\"a\":1}"), Err(WireError::MissingId));
    assert_eq!(
        Response::from_wire("{\"a\":{\"@extra\":\"7431f198-7514-40ff-876c-3e8ee0a311ba\"}}"),
        Err(WireError::MissingId)
    );
    assert_eq!(
        Response::from_wire("{\"\\u0040extra\":\"7431f198-7514-40ff-876c-3e8ee0a311ba\"}"),
        Err(WireError::MissingId)
    );
}

#[test]
fn response_that_is_not_json_is_refused() {
    assert_eq!(Response::from_wire(""), Err(WireError::NotJson));
    assert_eq!(Response::from_wire("   "), Err(WireError::NotJson));
    assert_eq!(
        Response::from_wire("{\"@extra\":\"7431f198-7514-40ff-876c-3e8ee0a311ba\",x}"),
        Err(WireError::NotJson)
    );
    assert_eq!(
        Response::from_wire("{\"a\":1,\"@extra\":\"7431f198-7514-40ff-876c-3e8ee0a311ba\""),
        Err(WireError::NotJson)
    );
    assert_eq!(
        Response::from_wire("{\"a\":\"open,\"@extra\":\"x\"}"),
        Err(WireError::NotJson)
    );
    assert_eq!(
        Response::from_wire("{\"@extra\":\"7431f198-7514-40ff-876c-3e8ee0a311ba\"}tail"),
        Err(WireError::NotJson)
    );
    assert_eq!(
        Response::from_wire("{\"@extra\":\"7431f198-7514-40ff-876c-3e8ee0a311ba\" x}"),
        Err(WireError::NotJson)
    );
}

#[test]
fn response_with_malformed_id_is_refused() {
    assert_eq!(
        Response::from_wire("{\"@extra\":17}"),
        Err(WireError::MalformedId)
    );
    assert_eq!(
        Response::from_wire("{\"@extra\":\"not an id\"}"),
        Err(WireError::MalformedId)
    );
    assert_eq!(
        Response::from_wire("{\"@extra\":\"7431f198-7514-40ff-876c-3e8ee0a31\\u0031ba\"}"),
        Err(WireError::MalformedId)
    );
    assert_eq!(
        Response::from_wire("{\"@extra\":[\"7431f198-7514-40ff-876c-3e8ee0a311ba\"]}"),
        Err(WireError::MalformedId)
    );
}

struct Ping {
    seq: u32,
}

impl Requestable for Ping {
    fn payload(&self) -> Option<String> {
        Some(format!("{{\"seq\":{}}}", self.seq))
    }
}

struct Slow;

impl Requestable for Slow {
    fn payload(&self) -> Option<String> {
        Some("{}".to_string())
    }

    fn timeout(&self) -> Duration {
        Duration::from_secs(60)
    }
}

struct Broken;

impl Requestable for Broken {
    fn payload(&self) -> Option<String> {
        None
    }
}

struct Scalar;

impl Requestable for Scalar {
    fn payload(&self) -> Option<String> {
        Some("3".to_string())
    }
}

#[test]
fn requestable_becomes_a_request() {
    let ping = Ping { seq: 5 };
    assert_eq!(ping.timeout(), Duration::from_secs(3));
    let request = ping.into_request().unwrap();
    assert_eq!(request.data, "{\"seq\":5}");
    assert_eq!(request.timeout, Duration::from_secs(3));

    let request = Slow.into_request().unwrap();
    assert_eq!(request.timeout, Duration::from_secs(60));
}

#[test]
fn requestable_that_cannot_be_written_is_refused() {
    assert_eq!(Broken.into_request(), Err(RequestError::Unwritable));
    assert_eq!(Scalar.into_request(), Err(RequestError::NotFlat));
    assert_eq!(
        tagged_payload(None, Duration::from_secs(1)),
        Err(RequestError::Unwritable)
    );
}

#[test]
fn round_trip_runs_through_its_stages() {
    let request = Request::with_id(RequestId(BITS), "{\"a\":1}", Duration::from_secs(3)).unwrap();
    let (mut trip, first) = RoundTrip::begin::<u32, String>(Ok(request));
    assert_eq!(first, Step::AwaitReady);
    let step: Step<u32, String> = trip.step(Signal::Ready(Ok(())));
    match step {
        Step::Submit(request) => {
            assert_eq!(request.id, RequestId(BITS));
            assert_eq!(request.data, "{\"a\":1}");
        }
        other => panic!("unexpected step {:?}", other),
    }
    let step: Step<u32, String> = trip.step(Signal::Replied(Ok("{\"n\":7}".to_string())));
    assert_eq!(step, Step::Shape("{\"n\":7}".to_string()));
    let step: Step<u32, String> = trip.step(Signal::Shaped(Some(7)));
    assert_eq!(step, Step::Finish(Ok(7)));
    let step: Step<u32, String> = trip.step(Signal::Shaped(Some(8)));
    assert_eq!(step, Step::Finish(Err(CallError::OutOfTurn)));
}

#[test]
fn round_trip_without_a_request_ends_before_readiness_is_asked() {
    let (mut trip, first) = RoundTrip::begin::<u32, String>(Err(RequestError::Unwritable));
    assert_eq!(
        first,
        Step::Finish(Err(CallError::Request(RequestError::Unwritable)))
    );
    // Whatever the capability would have answered, nothing is submitted.
    let step: Step<u32, String> = trip.step(Signal::Ready(Err("down".to_string())));
    assert_eq!(step, Step::Finish(Err(CallError::OutOfTurn)));

    let (mut trip, first) = RoundTrip::begin::<u32, String>(Err(RequestError::NotFlat));
    assert_eq!(
        first,
        Step::Finish(Err(CallError::Request(RequestError::NotFlat)))
    );
    let step: Step<u32, String> = trip.step(Signal::Ready(Ok(())));
    assert_eq!(step, Step::Finish(Err(CallError::OutOfTurn)));
}

#[test]
fn round_trip_names_the_stage_of_a_failure() {
    let (mut trip, first) = RoundTrip::begin::<u32, String>(Request::new("{}"));
    assert_eq!(first, Step::AwaitReady);
    let step: Step<u32, String> = trip.step(Signal::Ready(Err("down".to_string())));
    assert_eq!(
        step,
        Step::Finish(Err(CallError::Transport("down".to_string())))
    );

    let (mut trip, _) = RoundTrip::begin::<u32, String>(Request::new("{}"));
    let _: Step<u32, String> = trip.step(Signal::Ready(Ok(())));
    let step: Step<u32, String> = trip.step(Signal::Replied(Err("timeout".to_string())));
    assert_eq!(
        step,
        Step::Finish(Err(CallError::Transport("timeout".to_string())))
    );

    let (mut trip, _) = RoundTrip::begin::<u32, String>(Request::new("{}"));
    let _: Step<u32, String> = trip.step(Signal::Ready(Ok(())));
    let _: Step<u32, String> = trip.step(Signal::Replied(Ok("{}".to_string())));
    let step: Step<u32, String> = trip.step(Signal::Shaped(None));
    assert_eq!(step, Step::Finish(Err(CallError::Shape)));

    let (mut trip, _) = RoundTrip::begin::<u32, String>(Request::new("{}"));
    let step: Step<u32, String> = trip.step(Signal::Replied(Ok("{}".to_string())));
    assert_eq!(step, Step::Finish(Err(CallError::OutOfTurn)));
    let step: Step<u32, String> = trip.step(Signal::Ready(Ok(())));
    assert_eq!(step, Step::Finish(Err(CallError::OutOfTurn)));
}

#[test]
fn request_with_drawn_id_carries_the_drawn_id() {
    let request = Request {
        id: RequestId(BITS),
        timeout: Duration::from_secs(7),
        data: "{\"data\":\"is flatten\"}".to_string(),
    };
    let drawn = 0x00000000_0000_4000_8000_000000000001;
    let again = request.with_drawn_id(drawn);
    assert_eq!(again.id, RequestId(drawn));
    assert_eq!(again.timeout, Duration::from_secs(7));
    assert_eq!(
        again.to_wire().unwrap(),
        "{\"@extra\":\"00000000-0000-4000-8000-000000000001\",\"data\":\"is flatten\"}"
    );
    assert_eq!(request.id, RequestId(BITS));
    assert_eq!(request.id.to_text(), ID);
}

#[test]
fn request_with_its_own_id_drawn_gets_the_neighbour() {
    let request = Request::with_id(RequestId(BITS), "{}", Duration::from_secs(1)).unwrap();
    let again = request.with_drawn_id(BITS);
    assert_eq!(again.id, RequestId(BITS ^ 1));
    assert_eq!(again.id.to_text(), "7431f198-7514-40ff-876c-3e8ee0a311bb");
    assert_eq!(RequestId(BITS).apart(BITS), RequestId(BITS ^ 1));
    assert_eq!(RequestId(BITS).apart(5), RequestId(5));
    assert_eq!(RequestId(4).apart(4), RequestId(5));
    assert_eq!(RequestId(5).apart(5), RequestId(4));
}

#[test]
fn request_clone_is_equal() {
    let request = Request::with_timeout("{\"a\":[1]}", Duration::from_millis(1500)).unwrap();
    let copy = request.clone();
    assert_eq!(copy, request);
    assert_eq!(copy.id, request.id);
    assert_eq!(copy.timeout, Duration::from_millis(1500));
    assert_eq!(copy.data, "{\"a\":[1]}");
}
