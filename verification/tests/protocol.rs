use steel_provider::big_endian::{read_be, signed, write_be_u32};
use steel_provider::protocol::{
    panic_message, parse_request, respond, write_response, Request, MAX_RESPONSE_DATA,
    REQUEST_SIZE, STATUS_ERROR, STATUS_OK,
};
use steel_provider::session::{Received, Session};

#[test]
fn integers_are_big_endian() {
    assert_eq!(read_be(&[]), 0);
    assert_eq!(read_be(&[1, 2]), 0x0102);
    assert_eq!(read_be(&[0xff; 8]), u64::MAX);
    assert_eq!(signed(0), 0);
    assert_eq!(signed(0x7fff_ffff), i32::MAX);
    assert_eq!(signed(0x8000_0000), i32::MIN);
    assert_eq!(signed(0xffff_ffff), -1);
    let mut out = vec![9];
    write_be_u32(&mut out, 0x0102_0304);
    assert_eq!(out, vec![9, 1, 2, 3, 4]);
    for value in [0, 1, 255, 256, 0x8000_0000, u32::MAX] {
        let mut out = Vec::new();
        write_be_u32(&mut out, value);
        assert_eq!(out, value.to_be_bytes().to_vec());
        assert_eq!(read_be(&out), value as u64);
        assert_eq!(signed(value), i32::from_be_bytes(value.to_be_bytes()));
    }
}

/// The bytes that a client sends.
fn bytes_of(request: &Request) -> Vec<u8> {
    let mut bytes = request.seed.to_be_bytes().to_vec();
    bytes.extend(request.chunk_x.to_be_bytes());
    bytes.extend(request.chunk_z.to_be_bytes());
    bytes
}

#[test]
fn requests_are_sixteen_bytes() {
    assert_eq!(REQUEST_SIZE, 16);
    let bytes = [0, 0, 0, 0, 0, 0, 0, 42, 0, 0, 0, 7, 0xff, 0xff, 0xff, 0xfe];
    let request = parse_request(&bytes);
    assert_eq!(
        request,
        Request {
            seed: 42,
            chunk_x: 7,
            chunk_z: -2
        }
    );
    assert_eq!(bytes_of(&request), bytes.to_vec());
}

#[test]
fn extreme_requests_are_read_back() {
    for request in [
        Request {
            seed: u64::MAX,
            chunk_x: i32::MIN,
            chunk_z: i32::MAX,
        },
        Request {
            seed: 0,
            chunk_x: -1,
            chunk_z: 0,
        },
    ] {
        assert_eq!(parse_request(&bytes_of(&request)), request);
    }
}

#[test]
fn responses_are_length_prefixed() {
    let mut out = Vec::new();
    write_response(&mut out, 0, &[]);
    assert_eq!(out, vec![0, 0, 0, 4, 0, 0, 0, 0]);
    write_response(&mut out, 1, &[7, 8, 9]);
    assert_eq!(
        out,
        vec![0, 0, 0, 4, 0, 0, 0, 0, 0, 0, 0, 7, 0, 0, 0, 1, 7, 8, 9]
    );
    let mut out = Vec::new();
    write_response(&mut out, 0, &vec![5; 300]);
    assert_eq!(&out[..8], &[0, 0, 1, 48, 0, 0, 0, 0]);
    assert_eq!(out.len(), 308);
    assert_eq!(MAX_RESPONSE_DATA as u64 + 4, u32::MAX as u64);
}

#[test]
fn outcomes_become_responses() {
    assert_eq!(STATUS_OK, 0);
    assert_eq!(STATUS_ERROR, 1);
    assert_eq!(
        respond(Ok(vec![1, 2])),
        vec![0, 0, 0, 6, 0, 0, 0, 0, 1, 2]
    );
    let response = respond(Err("Any { .. }".to_string()));
    assert_eq!(&response[..8], &[0, 0, 0, 30, 0, 0, 0, 1]);
    assert_eq!(&response[8..], b"worldgen panic: Any { .. }");
}

#[test]
fn panic_messages_name_the_payload() {
    assert_eq!(panic_message("Any { .. }"), "worldgen panic: Any { .. }");
    assert_eq!(panic_message(""), "worldgen panic: ");
    let response = respond(Err("é".to_string()));
    assert_eq!(
        String::from_utf8(response[8..].to_vec()).unwrap(),
        "worldgen panic: é"
    );
}

/// Serves a stream of bytes that comes in reads of at most `step` bytes, and
/// answers every request with its own bytes. Returns the requests and what was
/// written.
fn serve(stream: &[u8], step: usize) -> (Vec<Request>, Vec<u8>) {
    let mut session = Session::new();
    let mut requests = Vec::new();
    let mut written = Vec::new();
    let mut at = 0;
    loop {
        let n = session.wanted().min(step).min(stream.len() - at);
        let received = session.receive(&stream[at..at + n]);
        at += n;
        match received {
            Received::Pending => {}
            Received::Closed => return (requests, written),
            Received::Request(request) => {
                requests.push(request);
                let outcome = if request.seed == 13 {
                    Err("Any { .. }".to_string())
                } else {
                    Ok(bytes_of(&request))
                };
                written.extend(session.answer(outcome));
            }
        }
    }
}

#[test]
fn requests_are_answered_in_order_however_they_arrive() {
    let sent = vec![
        Request {
            seed: 1,
            chunk_x: 2,
            chunk_z: 3,
        },
        Request {
            seed: 13,
            chunk_x: 0,
            chunk_z: 0,
        },
        Request {
            seed: 4,
            chunk_x: -5,
            chunk_z: -6,
        },
    ];
    let mut stream = Vec::new();
    for request in &sent {
        stream.extend(bytes_of(request));
    }
    let mut expected = respond(Ok(bytes_of(&sent[0])));
    expected.extend(respond(Err("Any { .. }".to_string())));
    expected.extend(respond(Ok(bytes_of(&sent[2]))));
    for step in 1..=20 {
        let (requests, written) = serve(&stream, step);
        assert_eq!(requests, sent);
        assert_eq!(written, expected);
    }
}

#[test]
fn a_request_that_breaks_off_is_not_answered() {
    let request = Request {
        seed: 1,
        chunk_x: 2,
        chunk_z: 3,
    };
    let mut stream = bytes_of(&request);
    stream.extend([0, 0, 0]);
    let (requests, written) = serve(&stream, 16);
    assert_eq!(requests, vec![request]);
    assert_eq!(written.len(), 24);
    let (requests, written) = serve(&[], 16);
    assert!(requests.is_empty());
    assert!(written.is_empty());
}
