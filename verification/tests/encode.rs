use scripting_js::decoder::{DecodeEvent, FrameDecoder};
use scripting_js::match_response;
use scripting_js::message::{
    CallEndpointPreFunctionResult, Header, HeaderBuffer, IncomingResponse, OutgoingMessage,
    OutgoingResponse, RequestIdCounter, ResponseInit,
};
use scripting_js::JsFunctions;

fn header_of(id: u64, op_code: u8, body_size: u16) -> Vec<u8> {
    HeaderBuffer::new(&Header {
        end: true,
        id,
        body_size,
        op_code,
    })
    .buffer
}

#[test]
fn encode_allocates_fresh_ids_in_order() {
    let mut ids = RequestIdCounter::new();
    let (h, body, id) = OutgoingMessage::CreateUtilFunction("abc".to_string())
        .encode(&mut ids)
        .unwrap();
    assert_eq!(id, 0);
    assert_eq!(body, b"abc".to_vec());
    assert_eq!(h, header_of(0, 0, 3));

    let (h, body, id) = OutgoingMessage::CreateEndpointPreFunction("def".to_string())
        .encode(&mut ids)
        .unwrap();
    assert_eq!(id, 1);
    assert_eq!(body, b"def".to_vec());
    assert_eq!(h, header_of(1, 1, 3));

    let (h, body, id) = OutgoingMessage::CreateEndpointPostFunction("g".to_string())
        .encode(&mut ids)
        .unwrap();
    assert_eq!(id, 2);
    assert_eq!(body, b"g".to_vec());
    assert_eq!(h, header_of(2, 2, 1));
}

#[test]
fn encode_call_pre_function_packs_the_function_id() {
    let mut ids = RequestIdCounter::new();
    let (h, body, id) = OutgoingMessage::CallEndpointPreFunction(0x0102)
        .encode(&mut ids)
        .unwrap();
    assert_eq!(id, 0);
    assert_eq!(body, vec![1, 2]);
    assert_eq!(h, header_of(0, 3, 2));
}

#[test]
fn encode_call_post_function_packs_id_and_response_init_json() {
    let mut ids = RequestIdCounter::new();
    let ri = ResponseInit {
        headers: vec![
            ("content-type".to_string(), "text/plain".to_string()),
            ("x".to_string(), "y".to_string()),
        ],
        status: 204,
    };
    let (h, body, id) = OutgoingMessage::CallEndpointPostFunction(7, ri)
        .encode(&mut ids)
        .unwrap();
    assert_eq!(id, 0);
    let expected_json = b"{\"headers\":[[\"content-type\",\"text/plain\"],[\"x\",\"y\"]],\"status\":204}";
    let mut expected = vec![0u8, 7];
    expected.extend_from_slice(expected_json);
    assert_eq!(body, expected);
    assert_eq!(h, header_of(0, 4, body.len() as u16));
    // the document is valid JSON
    assert!(serde_json::from_slice::<serde_json::Value>(&body[2..]).is_ok());
}

#[test]
fn response_init_json_escapes_specials() {
    let mut ids = RequestIdCounter::new();
    let ri = ResponseInit {
        headers: vec![("k\"ey\\".to_string(), "a\nb".to_string())],
        status: 200,
    };
    let (_, body, _) = OutgoingMessage::CallEndpointPostFunction(1, ri)
        .encode(&mut ids)
        .unwrap();
    let doc: serde_json::Value = serde_json::from_slice(&body[2..]).unwrap();
    let headers = doc.get("headers").unwrap().as_array().unwrap();
    let pair = headers[0].as_array().unwrap();
    assert_eq!(pair[0].as_str().unwrap(), "k\"ey\\");
    assert_eq!(pair[1].as_str().unwrap(), "a\nb");
    assert_eq!(doc.get("status").unwrap().as_u64().unwrap(), 200);
}

#[test]
fn encode_outgoing_responses_reuse_the_request_id() {
    let mut ids = RequestIdCounter::new();

    let value = serde_json::Value::String("v".to_string());
    let msg = OutgoingMessage::OutgoingResponse(OutgoingResponse::GetProviderValue(9, value.clone()));
    let (h, body, id) = msg.encode(&mut ids).unwrap();
    assert_eq!(id, 9);
    assert_eq!(body, serde_json::to_vec(&value).unwrap());
    assert_eq!(h, header_of(9, 5, body.len() as u16));

    let msg = OutgoingMessage::OutgoingResponse(OutgoingResponse::AddProviderValue(3));
    let (h, body, id) = msg.encode(&mut ids).unwrap();
    assert_eq!((id, body.len()), (3, 0));
    assert_eq!(h, header_of(3, 6, 0));

    let msg = OutgoingMessage::OutgoingResponse(OutgoingResponse::LogMessage(4));
    let (h, body, id) = msg.encode(&mut ids).unwrap();
    assert_eq!((id, body.len()), (4, 0));
    assert_eq!(h, header_of(4, 7, 0));

    let msg = OutgoingMessage::OutgoingResponse(OutgoingResponse::GetResponseBody(5, vec![1, 2, 3]));
    let (h, body, id) = msg.encode(&mut ids).unwrap();
    assert_eq!(id, 5);
    assert_eq!(body, vec![1, 2, 3]);
    assert_eq!(h, header_of(5, 8, 3));

    // responses never consumed a fresh id
    assert_eq!(ids.next_id, 0);
}

#[test]
fn encode_rejects_oversized_bodies_and_keeps_the_counter() {
    let mut ids = RequestIdCounter::new();
    let big = "x".repeat(70000);
    let r = OutgoingMessage::CreateUtilFunction(big).encode(&mut ids);
    assert!(r.is_none());
    assert_eq!(ids.next_id, 0);

    let r = OutgoingMessage::OutgoingResponse(OutgoingResponse::GetResponseBody(1, vec![0; 65536]))
        .encode(&mut ids);
    assert!(r.is_none());
    assert_eq!(ids.next_id, 0);

    // exactly the ceiling still goes out
    let r = OutgoingMessage::OutgoingResponse(OutgoingResponse::GetResponseBody(1, vec![0; 65535]))
        .encode(&mut ids);
    assert!(r.is_some());
}

fn frame_bytes(id: u64, op_code: u8, body: &[u8]) -> Vec<u8> {
    let mut bytes = header_of(id, op_code, body.len() as u16);
    bytes.extend_from_slice(body);
    bytes
}

#[test]
fn matching_response_is_returned_and_unrelated_frame_discarded() {
    // send a pre-function call, then decode an interleaved unrelated frame
    // followed by the matching response
    let mut ids = RequestIdCounter::new();
    let (_, _, request_id) = OutgoingMessage::CallEndpointPreFunction(1)
        .encode(&mut ids)
        .unwrap();

    let mut incoming = frame_bytes(99, 0, b"unrelated");
    incoming.extend_from_slice(&frame_bytes(request_id, 7, b""));

    let mut dec = FrameDecoder::new();
    let mut pos = 0;
    let mut answered = None;
    while answered.is_none() {
        let (consumed, event) = dec.advance(&incoming[pos..]);
        pos += consumed;
        match event {
            DecodeEvent::Frame(header, msg) => {
                answered = match_response(request_id, &header, msg);
            }
            other => panic!("expected frames, got {:?}", other),
        }
    }
    assert_eq!(
        answered.unwrap(),
        IncomingResponse::CallEndpointPreFunction(CallEndpointPreFunctionResult::Empty)
    );
    // the unrelated frame was consumed before the match
    assert_eq!(pos, incoming.len());
}

#[test]
fn match_response_passes_over_wrong_ids_and_non_responses() {
    let header = Header {
        end: true,
        id: 2,
        body_size: 0,
        op_code: 4,
    };
    let msg = scripting_js::message::IncomingMessage::IncomingResponse(
        IncomingResponse::CreateUtilFunction,
    );
    assert!(match_response(1, &header, msg).is_none());

    let msg = scripting_js::message::IncomingMessage::GetResponseBody(2);
    assert!(match_response(2, &header, msg).is_none());

    let msg = scripting_js::message::IncomingMessage::IncomingResponse(
        IncomingResponse::CreateUtilFunction,
    );
    assert_eq!(
        match_response(2, &header, msg).unwrap(),
        IncomingResponse::CreateUtilFunction
    );
}

#[test]
fn js_functions_store_bodies_and_hand_out_indices() {
    let mut fns = JsFunctions::new();
    assert_eq!(fns.add_endpoint_pre_fn("a".to_string()).ok(), Some(0));
    assert_eq!(fns.add_endpoint_pre_fn("b".to_string()).ok(), Some(1));
    assert_eq!(fns.add_endpoint_post_fn("c".to_string()).ok(), Some(0));
    assert!(fns.add_context("ctx".to_string()).is_ok());
    assert_eq!(fns.pre_fns, vec!["a".to_string(), "b".to_string()]);
    assert_eq!(fns.post_fns, vec!["c".to_string()]);
    assert_eq!(fns.context, "ctx");
}
