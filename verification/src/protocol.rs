//! The wire format: fixed-size requests, length-prefixed responses.
//!
//! All integers are big-endian. A request is a seed (8 bytes) and two chunk
//! coordinates (4 bytes each). A response is a payload length (4 bytes) and a
//! payload of that many bytes: a status (4 bytes) and data.
use vstd::arithmetic::power::pow;
use vstd::prelude::*;
use vstd::slice::slice_subrange;
use vstd::string::StringExecFns;
use vstd::utf8::{decode_utf8, encode_utf8, valid_utf8};

use crate::big_endian::{
    be_bytes, be_value, lemma_be_bytes_len, lemma_be_value_bound, lemma_eight_bytes,
    lemma_four_bytes, lemma_read_what_was_written, lemma_twos_complement,
    lemma_write_what_was_read, lemma_written_in_four_bytes, read_be, signed, signed_bits,
    signed_value, write_be_u32,
};

verus! {

/// Request size (seed + chunk coordinates).
pub const REQUEST_SIZE: usize = 16;

/// Status of a response whose data is a generated chunk.
pub const STATUS_OK: u32 = 0;

/// Status of a response whose data is an error message.
pub const STATUS_ERROR: u32 = 1;

/// The most data that one response can carry: the length of its payload is
/// written in 32 bits, and the status takes four bytes of it.
pub const MAX_RESPONSE_DATA: usize = 0xffff_fffb;

/// What a client asks for.
#[derive(Clone, Copy, Debug, PartialEq, Eq, Structural)]
pub struct Request {
    /// World seed.
    pub seed: u64,
    /// Chunk coordinate.
    pub chunk_x: i32,
    /// Chunk coordinate.
    pub chunk_z: i32,
}

/// The request that 16 bytes stand for.
pub open spec fn request_of(bytes: Seq<u8>) -> Request
    recommends
        bytes.len() == REQUEST_SIZE,
{
    Request {
        seed: be_value(bytes.subrange(0, 8)) as u64,
        chunk_x: signed_value(be_value(bytes.subrange(8, 12))) as i32,
        chunk_z: signed_value(be_value(bytes.subrange(12, 16))) as i32,
    }
}

/// The 16 bytes that stand for a request.
pub open spec fn request_bytes(request: Request) -> Seq<u8> {
    be_bytes(request.seed as nat, 8) + be_bytes(signed_bits(request.chunk_x), 4) + be_bytes(
        signed_bits(request.chunk_z),
        4,
    )
}

/// Reads a request.
pub fn parse_request(bytes: &[u8]) -> (request: Request)
    requires
        bytes@.len() == REQUEST_SIZE,
    ensures
        request == request_of(bytes@),
{
    let seed = read_be(slice_subrange(bytes, 0, 8));
    let chunk_x = read_be(slice_subrange(bytes, 8, 12));
    let chunk_z = read_be(slice_subrange(bytes, 12, 16));
    proof {
        lemma_pow_of_widths();
        lemma_be_value_bound(bytes@.subrange(8, 12));
        lemma_be_value_bound(bytes@.subrange(12, 16));
    }
    Request { seed, chunk_x: signed(chunk_x as u32), chunk_z: signed(chunk_z as u32) }
}

/// The powers of 256 that bound integers of four and of eight bytes.
proof fn lemma_pow_of_widths()
    ensures
        pow(256, 4) == 0x1_0000_0000,
        pow(256, 8) == 0x1_0000_0000_0000_0000,
{
    reveal(pow);
    reveal_with_fuel(pow, 9);
}

/// Every request is read back from the bytes that stand for it, of which there
/// are always 16.
pub proof fn lemma_request_round_trip(request: Request)
    ensures
        request_bytes(request).len() == REQUEST_SIZE,
        request_of(request_bytes(request)) == request,
{
    let bytes = request_bytes(request);
    let seed = be_bytes(request.seed as nat, 8);
    let x = be_bytes(signed_bits(request.chunk_x), 4);
    let z = be_bytes(signed_bits(request.chunk_z), 4);
    lemma_pow_of_widths();
    lemma_be_bytes_len(request.seed as nat, 8);
    lemma_be_bytes_len(signed_bits(request.chunk_x), 4);
    lemma_be_bytes_len(signed_bits(request.chunk_z), 4);
    lemma_read_what_was_written(request.seed as nat, 8);
    lemma_read_what_was_written(signed_bits(request.chunk_x), 4);
    lemma_read_what_was_written(signed_bits(request.chunk_z), 4);
    assert(bytes.subrange(0, 8) =~= seed);
    assert(bytes.subrange(8, 12) =~= x);
    assert(bytes.subrange(12, 16) =~= z);
}

/// Any 16 bytes are the bytes of the request that is read from them: no request
/// is malformed, and no two of them mean the same.
pub proof fn lemma_request_bytes_round_trip(bytes: Seq<u8>)
    requires
        bytes.len() == REQUEST_SIZE,
    ensures
        request_bytes(request_of(bytes)) == bytes,
{
    let request = request_of(bytes);
    let seed = bytes.subrange(0, 8);
    let x = bytes.subrange(8, 12);
    let z = bytes.subrange(12, 16);
    lemma_pow_of_widths();
    lemma_be_value_bound(seed);
    lemma_be_value_bound(x);
    lemma_be_value_bound(z);
    lemma_write_what_was_read(seed);
    lemma_write_what_was_read(x);
    lemma_write_what_was_read(z);
    assert(signed_bits(request.chunk_x) == be_value(x));
    assert(signed_bits(request.chunk_z) == be_value(z));
    assert(request_bytes(request) =~= bytes);
}

/// A response: payload length, status, data.
pub open spec fn response_frame(status: u32, data: Seq<u8>) -> Seq<u8> {
    be_bytes(4 + data.len(), 4) + be_bytes(status as nat, 4) + data
}

/// Appends a framed response: `u32 payload_length | u32 status | data`.
pub fn write_response(out: &mut Vec<u8>, status: u32, data: &[u8])
    requires
        data@.len() <= MAX_RESPONSE_DATA,
    ensures
        final(out)@ == old(out)@ + response_frame(status, data@),
{
    let payload_length: u32 = 4 + data.len() as u32;
    write_be_u32(out, payload_length);
    write_be_u32(out, status);
    out.extend_from_slice(data);
    assert(out@ =~= old(out)@ + response_frame(status, data@));
}

/// What a client reads from the front of a stream of responses: the status and
/// the data of the first response, and what follows it.
pub open spec fn first_response(stream: Seq<u8>) -> Option<(u32, Seq<u8>, Seq<u8>)> {
    if stream.len() < 4 {
        None
    } else {
        let payload_length = be_value(stream.subrange(0, 4)) as int;
        if payload_length < 4 || stream.len() < 4 + payload_length {
            None
        } else {
            Some(
                (
                    be_value(stream.subrange(4, 8)) as u32,
                    stream.subrange(8, 4 + payload_length),
                    stream.skip(4 + payload_length),
                ),
            )
        }
    }
}

/// All responses that a client reads from a stream, in order.
pub open spec fn responses_in(stream: Seq<u8>) -> Seq<(u32, Seq<u8>)>
    decreases stream.len(),
{
    match first_response(stream) {
        None => Seq::empty(),
        Some((status, data, rest)) => seq![(status, data)] + responses_in(rest),
    }
}

/// The stream of bytes that a series of responses makes up.
pub open spec fn response_stream(responses: Seq<(u32, Seq<u8>)>) -> Seq<u8>
    decreases responses.len(),
{
    if responses.len() == 0 {
        Seq::empty()
    } else {
        response_frame(responses[0].0, responses[0].1) + response_stream(responses.drop_first())
    }
}

/// A response tells where it ends: a client reads its status and its data,
/// whatever follows.
pub proof fn lemma_response_round_trip(status: u32, data: Seq<u8>, rest: Seq<u8>)
    requires
        data.len() <= MAX_RESPONSE_DATA,
    ensures
        first_response(response_frame(status, data) + rest) == Some((status, data, rest)),
{
    let stream = response_frame(status, data) + rest;
    lemma_pow_of_widths();
    lemma_be_bytes_len(4 + data.len(), 4);
    lemma_be_bytes_len(status as nat, 4);
    lemma_read_what_was_written(4 + data.len(), 4);
    lemma_read_what_was_written(status as nat, 4);
    assert(stream.subrange(0, 4) =~= be_bytes(4 + data.len(), 4));
    assert(stream.subrange(4, 8) =~= be_bytes(status as nat, 4));
    assert(stream.subrange(8, 8 + data.len() as int) =~= data);
    assert(stream.skip(8 + data.len() as int) =~= rest);
}

/// A client reads the responses of a connection back, all of them, in the order
/// in which they were written.
pub proof fn lemma_response_stream_round_trip(responses: Seq<(u32, Seq<u8>)>)
    requires
        forall|k: int|
            0 <= k < responses.len() ==> (#[trigger] responses[k]).1.len() <= MAX_RESPONSE_DATA,
    ensures
        responses_in(response_stream(responses)) == responses,
    decreases responses.len(),
{
    if responses.len() > 0 {
        let rest = responses.drop_first();
        assert forall|k: int| 0 <= k < rest.len() implies (#[trigger] rest[k]).1.len()
            <= MAX_RESPONSE_DATA by {
            assert(rest[k] == responses[k + 1]);
        }
        lemma_response_stream_round_trip(rest);
        lemma_response_round_trip(responses[0].0, responses[0].1, response_stream(rest));
        assert(seq![responses[0]] + rest =~= responses);
    } else {
        assert(responses_in(response_stream(responses)) =~= responses);
    }
}

/// The message that answers a request whose generation panicked; `payload` is
/// the debug text of what the panic carried.
pub open spec fn panic_text(payload: Seq<char>) -> Seq<char> {
    "worldgen panic: "@ + payload
}

/// The message that answers a request whose generation panicked.
pub fn panic_message(payload: &str) -> (message: String)
    ensures
        message@ == panic_text(payload@),
{
    let mut message = "worldgen panic: ".to_string();
    message.append(payload);
    message
}

/// Status and data of the answer to a request: the generated bytes, or the
/// message about the panic whose payload is given.
pub open spec fn reply(outcome: Result<Vec<u8>, String>) -> (u32, Seq<u8>) {
    match outcome {
        Ok(data) => (STATUS_OK, data@),
        Err(payload) => (STATUS_ERROR, encode_utf8(panic_text(payload@))),
    }
}

/// The response to a request, given what its generation came to.
pub fn respond(outcome: Result<Vec<u8>, String>) -> (response: Vec<u8>)
    requires
        reply(outcome).1.len() <= MAX_RESPONSE_DATA,
    ensures
        response@ == response_frame(reply(outcome).0, reply(outcome).1),
{
    let mut response: Vec<u8> = Vec::new();
    match outcome {
        Ok(data) => {
            write_response(&mut response, STATUS_OK, data.as_slice());
        },
        Err(payload) => {
            let message = panic_message(payload.as_str());
            write_response(&mut response, STATUS_ERROR, message.as_str().as_bytes());
        },
    }
    assert(response@ =~= response_frame(reply(outcome).0, reply(outcome).1));
    response
}

/// The data of an error response is UTF-8 and decodes to the message.
pub proof fn lemma_error_data_is_utf8(payload: String)
    ensures
        valid_utf8(reply(Err(payload)).1),
        decode_utf8(reply(Err(payload)).1) == panic_text(payload@),
{
    vstd::utf8::encode_utf8_valid_utf8(panic_text(payload@));
    vstd::utf8::encode_utf8_decode_utf8(panic_text(payload@));
}

/// A request holds what its bytes say: the seed is the number of the first eight
/// bytes, and the coordinates differ from the numbers of the next four and the
/// last four bytes by a multiple of 2^32. Each byte weighs 256 times the next.
pub proof fn lemma_request_by_its_bytes(bytes: Seq<u8>)
    requires
        bytes.len() == 16,
    ensures
        request_of(bytes).seed == bytes[0] * 0x100_0000_0000_0000 + bytes[1] * 0x1_0000_0000_0000
            + bytes[2] * 0x100_0000_0000 + bytes[3] * 0x1_0000_0000 + bytes[4] * 0x100_0000
            + bytes[5] * 0x1_0000 + bytes[6] * 0x100 + bytes[7],
        (request_of(bytes).chunk_x - (bytes[8] * 0x100_0000 + bytes[9] * 0x1_0000 + bytes[10] * 0x100
            + bytes[11])) % 0x1_0000_0000 == 0,
        (request_of(bytes).chunk_z - (bytes[12] * 0x100_0000 + bytes[13] * 0x1_0000 + bytes[14]
            * 0x100 + bytes[15])) % 0x1_0000_0000 == 0,
{
    let seed = bytes.subrange(0, 8);
    let x = bytes.subrange(8, 12);
    let z = bytes.subrange(12, 16);
    lemma_pow_of_widths();
    lemma_be_value_bound(seed);
    lemma_be_value_bound(x);
    lemma_be_value_bound(z);
    lemma_eight_bytes(seed);
    lemma_four_bytes(x);
    lemma_four_bytes(z);
    lemma_twos_complement(be_value(x) as u32, 0);
    lemma_twos_complement(be_value(z) as u32, 0);
}

/// A response is laid out in bytes: four that make up the length of what follows
/// them, four that make up the status, and the data, every byte of it in its
/// place.
pub proof fn lemma_response_by_its_bytes(status: u32, data: Seq<u8>)
    requires
        data.len() <= 0xffff_fffb,
    ensures
        ({
            let frame = response_frame(status, data);
            &&& frame.len() == 8 + data.len()
            &&& frame[0] * 0x100_0000 + frame[1] * 0x1_0000 + frame[2] * 0x100 + frame[3] == 4
                + data.len()
            &&& frame[4] * 0x100_0000 + frame[5] * 0x1_0000 + frame[6] * 0x100 + frame[7] == status
            &&& frame.skip(8) == data
        }),
{
    lemma_written_in_four_bytes((4 + data.len()) as u32);
    lemma_written_in_four_bytes(status);
    assert(response_frame(status, data).skip(8) =~= data);
}

/// A client reads what was generated: the response to a request whose generation
/// succeeded is one response with status 0 and the generated bytes, all of them,
/// and nothing behind it.
pub proof fn lemma_client_reads_what_was_generated(data: Vec<u8>)
    requires
        data@.len() <= 0xffff_fffb,
    ensures
        ({
            let (status, sent) = reply(Ok(data));
            let frame = response_frame(status, sent);
            &&& frame.len() == 8 + data@.len()
            &&& frame[0] * 0x100_0000 + frame[1] * 0x1_0000 + frame[2] * 0x100 + frame[3] == 4
                + data@.len()
            &&& frame.subrange(4, 8) == seq![0u8, 0, 0, 0]
            &&& frame.skip(8) == data@
            &&& first_response(frame) == Some((0u32, data@, Seq::<u8>::empty()))
        }),
{
    let (status, sent) = reply(Ok(data));
    let frame = response_frame(status, sent);
    lemma_response_by_its_bytes(status, sent);
    lemma_response_round_trip(status, sent, Seq::empty());
    assert(frame + Seq::<u8>::empty() =~= frame);
    assert(frame.subrange(4, 8) =~= seq![0u8, 0, 0, 0]);
}

/// A client reads what went wrong: the response to a request whose generation
/// panicked is one response with status 1 whose data, read as UTF-8, is 16
/// characters that name the error and then the payload, all of it.
pub proof fn lemma_client_reads_what_went_wrong(payload: String)
    requires
        reply(Err(payload)).1.len() <= 0xffff_fffb,
    ensures
        ({
            let (status, sent) = reply(Err(payload));
            let frame = response_frame(status, sent);
            let text = decode_utf8(frame.skip(8));
            &&& frame.subrange(4, 8) == seq![0u8, 0, 0, 1]
            &&& first_response(frame) == Some((1u32, frame.skip(8), Seq::<u8>::empty()))
            &&& valid_utf8(frame.skip(8))
            &&& text.len() == 16 + payload@.len()
            &&& text.take(16) == "worldgen panic: "@
            &&& text.skip(16) == payload@
        }),
{
    let (status, sent) = reply(Err(payload));
    let frame = response_frame(status, sent);
    reveal_strlit("worldgen panic: ");
    lemma_response_by_its_bytes(status, sent);
    lemma_response_round_trip(status, sent, Seq::empty());
    lemma_error_data_is_utf8(payload);
    assert(frame + Seq::<u8>::empty() =~= frame);
    assert(frame.subrange(4, 8) =~= seq![0u8, 0, 0, 1]);
    let text = panic_text(payload@);
    assert(text.take(16) =~= "worldgen panic: "@);
    assert(text.skip(16) =~= payload@);
}

/// The message about a panic is 16 fixed characters and then the payload.
pub proof fn lemma_message_ends_in_the_payload(payload: Seq<char>)
    ensures
        panic_text(payload).len() == 16 + payload.len(),
        panic_text(payload).take(16) == "worldgen panic: "@,
        panic_text(payload).skip(16) == payload,
{
    reveal_strlit("worldgen panic: ");
    assert(panic_text(payload).take(16) =~= "worldgen panic: "@);
    assert(panic_text(payload).skip(16) =~= payload);
}

/// The sizes and numbers of the protocol. The most data that a response can carry
/// is what makes its length the greatest 32-bit number.
pub proof fn lemma_protocol_numbers()
    ensures
        REQUEST_SIZE == 16,
        STATUS_OK == 0,
        STATUS_ERROR == 1,
        4 + MAX_RESPONSE_DATA == u32::MAX,
{
}

} // verus!
