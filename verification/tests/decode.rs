use scripting_js::byte_utils::decode_incoming_msg;
use scripting_js::decoder::{decode_chunked_frame, DecodeEvent, FrameDecoder};
use scripting_js::error::Error;
use scripting_js::message::{
    CallEndpointPreFunctionResult, CreateFunctionResult, Header, HeaderBuffer, IncomingMessage,
    IncomingResponse,
};

fn frame_bytes(id: u64, op_code: u8, body: &[u8]) -> Vec<u8> {
    let header = Header {
        end: true,
        id,
        body_size: body.len() as u16,
        op_code,
    };
    let mut bytes = HeaderBuffer::new(&header).buffer;
    bytes.extend_from_slice(body);
    bytes
}

#[test]
fn get_provider_value_decodes_utf8() {
    let msg = decode_incoming_msg(0, b"name").unwrap();
    assert_eq!(msg, IncomingMessage::GetProviderValue("name".to_string()));
}

#[test]
fn get_provider_value_rejects_non_utf8() {
    let msg = decode_incoming_msg(0, &[0xff, 0xfe]);
    assert_eq!(msg.unwrap_err(), Error::InvalidIncomingMessage(0));
}

#[test]
fn add_provider_value_decodes_keyed_pair() {
    let msg = decode_incoming_msg(1, b"[\"key\",true]").unwrap();
    assert_eq!(
        msg,
        IncomingMessage::AddProviderValue("key".to_string(), serde_json::Value::Bool(true))
    );
}

#[test]
fn add_provider_value_rejects_wrong_shapes() {
    for body in [
        &b"[1,true]"[..],
        b"[\"key\"]",
        b"[\"key\",1,2]",
        b"{\"key\":1}",
        b"not json",
    ] {
        let msg = decode_incoming_msg(1, body);
        assert_eq!(msg.unwrap_err(), Error::InvalidIncomingMessage(1));
    }
}

#[test]
fn log_message_decodes_keyed_pair() {
    let msg = decode_incoming_msg(2, b"[\"lvl\",\"text\"]").unwrap();
    assert_eq!(
        msg,
        IncomingMessage::LogMessage(
            "lvl".to_string(),
            serde_json::Value::String("text".to_string())
        )
    );
}

#[test]
fn get_response_body_decodes_right_aligned_u64() {
    let msg = decode_incoming_msg(3, &[0, 0, 0, 0, 0, 0, 0, 9]).unwrap();
    assert_eq!(msg, IncomingMessage::GetResponseBody(9));
    let msg = decode_incoming_msg(3, &[5]).unwrap();
    assert_eq!(msg, IncomingMessage::GetResponseBody(5));
}

#[test]
fn create_util_function_ignores_body() {
    let msg = decode_incoming_msg(4, b"anything").unwrap();
    assert_eq!(
        msg,
        IncomingMessage::IncomingResponse(IncomingResponse::CreateUtilFunction)
    );
}

#[test]
fn create_endpoint_pre_function_decodes_id_and_error() {
    let msg = decode_incoming_msg(5, b"12").unwrap();
    assert_eq!(
        msg,
        IncomingMessage::IncomingResponse(IncomingResponse::CreateEndpointPreFunction(
            CreateFunctionResult::Id(12)
        ))
    );
    let msg = decode_incoming_msg(5, b"\"boom\"").unwrap();
    assert_eq!(
        msg,
        IncomingMessage::IncomingResponse(IncomingResponse::CreateEndpointPreFunction(
            CreateFunctionResult::Error("boom".to_string())
        ))
    );
}

#[test]
fn create_endpoint_pre_function_rejects_out_of_range_and_shapes() {
    for body in [&b"65536"[..], b"70000", b"-3", b"12.5", b"true", b"x"] {
        let msg = decode_incoming_msg(5, body);
        assert_eq!(msg.unwrap_err(), Error::InvalidJsonBytes);
    }
    // every id below 65536 is accepted, the largest included
    let msg = decode_incoming_msg(5, b"65535").unwrap();
    assert_eq!(
        msg,
        IncomingMessage::IncomingResponse(IncomingResponse::CreateEndpointPreFunction(
            CreateFunctionResult::Id(65535)
        ))
    );
}

#[test]
fn create_endpoint_post_function_mirrors_pre() {
    let msg = decode_incoming_msg(6, b"7").unwrap();
    assert_eq!(
        msg,
        IncomingMessage::IncomingResponse(IncomingResponse::CreateEndpointPostFunction(
            CreateFunctionResult::Id(7)
        ))
    );
}

#[test]
fn call_endpoint_pre_function_empty_body_is_empty_result() {
    let msg = decode_incoming_msg(7, b"").unwrap();
    assert_eq!(
        msg,
        IncomingMessage::IncomingResponse(IncomingResponse::CallEndpointPreFunction(
            CallEndpointPreFunctionResult::Empty
        ))
    );
}

#[test]
fn call_endpoint_pre_function_string_is_error() {
    let msg = decode_incoming_msg(7, b"\"oops\"").unwrap();
    assert_eq!(
        msg,
        IncomingMessage::IncomingResponse(IncomingResponse::CallEndpointPreFunction(
            CallEndpointPreFunctionResult::Error("oops".to_string())
        ))
    );
}

#[test]
fn call_endpoint_pre_function_other_json_is_value() {
    let msg = decode_incoming_msg(7, b"[1,2]").unwrap();
    let expected = serde_json::Value::Array(vec![
        serde_json::Value::Number(serde_json::Number::from(1u64)),
        serde_json::Value::Number(serde_json::Number::from(2u64)),
    ]);
    assert_eq!(
        msg,
        IncomingMessage::IncomingResponse(IncomingResponse::CallEndpointPreFunction(
            CallEndpointPreFunctionResult::Value(expected)
        ))
    );
}

#[test]
fn call_endpoint_pre_function_rejects_invalid_json() {
    let msg = decode_incoming_msg(7, b"not json");
    assert_eq!(msg.unwrap_err(), Error::InvalidIncomingMessage(7));
}

#[test]
fn call_endpoint_post_function_decodes_optional_error() {
    let msg = decode_incoming_msg(8, b"").unwrap();
    assert_eq!(
        msg,
        IncomingMessage::IncomingResponse(IncomingResponse::CallEndpointPostFunction(None))
    );
    let msg = decode_incoming_msg(8, b"oops").unwrap();
    assert_eq!(
        msg,
        IncomingMessage::IncomingResponse(IncomingResponse::CallEndpointPostFunction(Some(
            "oops".to_string()
        )))
    );
    let msg = decode_incoming_msg(8, &[0xff]);
    assert_eq!(msg.unwrap_err(), Error::InvalidIncomingMessage(8));
}

#[test]
fn unassigned_op_codes_are_rejected() {
    for op in [9u8, 42, 200, 255] {
        let msg = decode_incoming_msg(op, b"");
        assert_eq!(msg.unwrap_err(), Error::InvalidIncomingMessage(op));
    }
}

#[test]
fn decoder_yields_frame_fed_whole() {
    let bytes = frame_bytes(4, 0, b"name");
    let mut dec = FrameDecoder::new();
    let (consumed, event) = dec.advance(&bytes);
    assert_eq!(consumed, bytes.len());
    match event {
        DecodeEvent::Frame(header, msg) => {
            assert_eq!(header.id, 4);
            assert_eq!(header.op_code, 0);
            assert_eq!(header.body_size, 4);
            assert!(header.end);
            assert_eq!(msg, IncomingMessage::GetProviderValue("name".to_string()));
        }
        other => panic!("expected a frame, got {:?}", other),
    }
}

#[test]
fn decoder_yields_same_frame_fed_byte_by_byte() {
    let bytes = frame_bytes(4, 0, b"name");
    let mut dec = FrameDecoder::new();
    let mut result = None;
    for (i, b) in bytes.iter().enumerate() {
        let (consumed, event) = dec.advance(std::slice::from_ref(b));
        assert_eq!(consumed, 1);
        match event {
            DecodeEvent::NeedMore => assert!(i + 1 < bytes.len()),
            DecodeEvent::Frame(header, msg) => {
                assert_eq!(i + 1, bytes.len());
                result = Some((header, msg));
            }
            other => panic!("unexpected event {:?}", other),
        }
    }
    let (header, msg) = result.expect("the last byte should complete the frame");
    assert_eq!(header.id, 4);
    assert_eq!(msg, IncomingMessage::GetProviderValue("name".to_string()));
}

#[test]
fn chunked_frame_decodes_like_the_whole_frame() {
    let bytes = frame_bytes(4, 0, b"name");
    let chunks = vec![
        bytes[..3].to_vec(),
        bytes[3..10].to_vec(),
        bytes[10..11].to_vec(),
        bytes[11..].to_vec(),
    ];
    let (header, msg) = decode_chunked_frame(&chunks).unwrap();
    assert_eq!(header.id, 4);
    assert_eq!(msg, IncomingMessage::GetProviderValue("name".to_string()));

    let single = vec![bytes.clone()];
    let (header2, msg2) = decode_chunked_frame(&single).unwrap();
    assert_eq!(header, header2);
    assert_eq!(msg, msg2);
}

#[test]
fn chunked_frame_reports_the_frame_error_too() {
    let bytes = frame_bytes(1, 200, b"xy");
    let chunks: Vec<Vec<u8>> = bytes.iter().map(|b| vec![*b]).collect();
    let err = decode_chunked_frame(&chunks).unwrap_err();
    assert_eq!(err, Error::InvalidIncomingMessage(200));
}

#[test]
fn decoder_handles_zero_size_body_and_back_to_back_frames() {
    let mut bytes = frame_bytes(1, 4, b"");
    bytes.extend_from_slice(&frame_bytes(2, 4, b""));
    let mut dec = FrameDecoder::new();
    let (consumed, event) = dec.advance(&bytes);
    assert_eq!(consumed, 10);
    match event {
        DecodeEvent::Frame(header, _) => assert_eq!(header.id, 1),
        other => panic!("expected a frame, got {:?}", other),
    }
    let (consumed2, event2) = dec.advance(&bytes[consumed..]);
    assert_eq!(consumed2, 10);
    match event2 {
        DecodeEvent::Frame(header, _) => assert_eq!(header.id, 2),
        other => panic!("expected a frame, got {:?}", other),
    }
}

#[test]
fn zero_length_read_while_awaiting_header_closes_cleanly() {
    let mut dec = FrameDecoder::new();
    let (consumed, event) = dec.advance(&[]);
    assert_eq!(consumed, 0);
    assert!(matches!(event, DecodeEvent::Closed));
}

#[test]
fn zero_length_read_after_partial_header_closes_cleanly() {
    let bytes = frame_bytes(4, 0, b"name");
    let mut dec = FrameDecoder::new();
    let (consumed, event) = dec.advance(&bytes[..3]);
    assert_eq!(consumed, 3);
    assert!(matches!(event, DecodeEvent::NeedMore));
    let (consumed, event) = dec.advance(&[]);
    assert_eq!(consumed, 0);
    assert!(matches!(event, DecodeEvent::Closed));
}

#[test]
fn zero_length_read_midway_through_body_closes_cleanly() {
    let bytes = frame_bytes(4, 0, b"name");
    let mut dec = FrameDecoder::new();
    let (_, event) = dec.advance(&bytes[..12]);
    assert!(matches!(event, DecodeEvent::NeedMore));
    let (consumed, event) = dec.advance(&[]);
    assert_eq!(consumed, 0);
    assert!(matches!(event, DecodeEvent::Closed));
}

#[test]
fn unrecognized_op_code_is_a_frame_error_and_decoding_resumes() {
    let mut bytes = frame_bytes(1, 200, b"xy");
    bytes.extend_from_slice(&frame_bytes(2, 4, b""));
    let mut dec = FrameDecoder::new();
    let (consumed, event) = dec.advance(&bytes);
    assert_eq!(consumed, 12);
    match event {
        DecodeEvent::Corrupt(e) => assert_eq!(e, Error::InvalidIncomingMessage(200)),
        other => panic!("expected a corrupt frame, got {:?}", other),
    }
    let (_, event2) = dec.advance(&bytes[consumed..]);
    match event2 {
        DecodeEvent::Frame(header, _) => assert_eq!(header.id, 2),
        other => panic!("expected a frame, got {:?}", other),
    }
}
