//! Where the server listens, and how a fixed number of bytes is read from a
//! stream.
use vstd::prelude::*;

verus! {

/// How the server should listen: on a Unix socket file or on a TCP address.
#[derive(Debug, PartialEq, Eq)]
pub enum Endpoint {
    /// A TCP address, such as `0.0.0.0:4096`.
    Tcp(String),
    /// The path of a Unix socket file.
    Unix(String),
}

/// `c` is one of the digits `0` to `9`.
pub open spec fn is_ascii_digit(c: char) -> bool {
    '0' <= c <= '9'
}

/// The last colon of `arg` stands at place `i`.
pub open spec fn last_colon_at(arg: Seq<char>, i: int) -> bool {
    &&& 0 <= i < arg.len()
    &&& arg[i] == ':'
    &&& forall|j: int| i < j < arg.len() ==> arg[j] != ':'
}

/// `arg` reads as a TCP address: its last colon is followed by a port, that is
/// by digits only and by one at least.
pub open spec fn is_tcp_address(arg: Seq<char>) -> bool {
    exists|i: int| #[trigger]
        last_colon_at(arg, i) && i < arg.len() - 1 && forall|j: int|
            i < j < arg.len() ==> is_ascii_digit(#[trigger] arg[j])
}

/// What a scan has seen behind the last colon so far.
#[derive(Clone, Copy, PartialEq, Eq, Structural)]
enum PortScan {
    /// There was no colon yet.
    NoColon,
    /// Nothing follows the colon.
    Empty,
    /// Only digits follow the colon, at least one.
    Digits,
    /// Something else than digits follows the colon.
    NoPort,
}

/// `state` is what a scan of `seen` has found.
spec fn scanned(seen: Seq<char>, state: PortScan) -> bool {
    match state {
        PortScan::NoColon => forall|j: int| 0 <= j < seen.len() ==> seen[j] != ':',
        PortScan::Empty => seen.len() > 0 && seen.last() == ':',
        PortScan::Digits => is_tcp_address(seen),
        PortScan::NoPort => exists|i: int| #[trigger]
            last_colon_at(seen, i) && exists|j: int|
                i < j < seen.len() && !is_ascii_digit(#[trigger] seen[j]),
    }
}

/// What a scan has seen after one more character.
spec fn next_scan(state: PortScan, c: char) -> PortScan {
    if c == ':' {
        PortScan::Empty
    } else {
        match state {
            PortScan::NoColon => PortScan::NoColon,
            PortScan::NoPort => PortScan::NoPort,
            _ => if is_ascii_digit(c) {
                PortScan::Digits
            } else {
                PortScan::NoPort
            },
        }
    }
}

/// Takes one more character into account.
fn scan_step(state: PortScan, c: char) -> (next: PortScan)
    ensures
        next == next_scan(state, c),
{
    if c == ':' {
        PortScan::Empty
    } else {
        match state {
            PortScan::NoColon => PortScan::NoColon,
            PortScan::NoPort => PortScan::NoPort,
            PortScan::Empty | PortScan::Digits => if '0' <= c && c <= '9' {
                PortScan::Digits
            } else {
                PortScan::NoPort
            },
        }
    }
}

/// [`next_scan`] keeps track of the scanned characters.
proof fn lemma_scan_step(seen: Seq<char>, state: PortScan, c: char)
    requires
        scanned(seen, state),
    ensures
        scanned(seen.push(c), next_scan(state, c)),
{
    let more = seen.push(c);
    if c == ':' {
        assert(last_colon_at(more, seen.len() as int));
    } else {
        match state {
            PortScan::NoColon => {},
            PortScan::NoPort => {
                let i = choose|i: int| #[trigger]
                    last_colon_at(seen, i) && exists|j: int|
                        i < j < seen.len() && !is_ascii_digit(#[trigger] seen[j]);
                assert(last_colon_at(more, i));
                let j = choose|j: int| i < j < seen.len() && !is_ascii_digit(#[trigger] seen[j]);
                assert(!is_ascii_digit(more[j]));
            },
            PortScan::Empty => {
                let i = seen.len() - 1;
                assert(last_colon_at(more, i));
                assert(more[seen.len() as int] == c);
            },
            PortScan::Digits => {
                let i = choose|i: int| #[trigger]
                    last_colon_at(seen, i) && i < seen.len() - 1 && forall|j: int|
                        i < j < seen.len() ==> is_ascii_digit(#[trigger] seen[j]);
                assert(last_colon_at(more, i));
                assert(more[seen.len() as int] == c);
                if is_ascii_digit(c) {
                    assert forall|j: int| i < j < more.len() implies is_ascii_digit(
                        #[trigger] more[j],
                    ) by {
                        if j < seen.len() {
                            assert(is_ascii_digit(seen[j]));
                        }
                    }
                }
            },
        }
    }
}

/// The states exclude each other where it matters: a scan that ends in another
/// state than `Digits` has not read a TCP address.
proof fn lemma_scan_decides(seen: Seq<char>, state: PortScan)
    requires
        scanned(seen, state),
    ensures
        (state == PortScan::Digits) == is_tcp_address(seen),
{
    if is_tcp_address(seen) && state != PortScan::Digits {
        let i = choose|i: int| #[trigger]
            last_colon_at(seen, i) && i < seen.len() - 1 && forall|j: int|
                i < j < seen.len() ==> is_ascii_digit(#[trigger] seen[j]);
        match state {
            PortScan::NoPort => {
                let k = choose|k: int| #[trigger]
                    last_colon_at(seen, k) && exists|j: int|
                        k < j < seen.len() && !is_ascii_digit(#[trigger] seen[j]);
                assert(k == i) by {
                    if k < i {
                        assert(seen[i] != ':');
                    }
                    if i < k {
                        assert(seen[k] != ':');
                    }
                }
            },
            _ => {
                assert(seen[i] == ':');
                assert(is_ascii_digit(seen[seen.len() - 1]));
            },
        }
    }
}

/// Classify a command-line argument as a TCP address or a Unix socket path. The
/// argument is a TCP address when its last `:` is followed only by digits (a
/// port, of one digit at least), e.g. `0.0.0.0:4096` or `[::1]:4096`; anything
/// else is treated as a Unix socket file path.
pub fn parse_endpoint(arg: &str) -> (endpoint: Endpoint)
    ensures
        match endpoint {
            Endpoint::Tcp(address) => is_tcp_address(arg@) && address@ == arg@,
            Endpoint::Unix(path) => !is_tcp_address(arg@) && path@ == arg@,
        },
{
    let mut state = PortScan::NoColon;
    for c in it: arg.chars()
        invariant
            it.seq() == arg@,
            scanned(arg@.take(it.index()), state),
    {
        let ghost seen = arg@.take(it.index());
        let next = scan_step(state, c);
        proof {
            assert(arg@.take(it.index() + 1) =~= seen.push(c));
            lemma_scan_step(seen, state, c);
        }
        state = next;
    }
    proof {
        assert(arg@.take(arg@.len() as int) =~= arg@);
        lemma_scan_decides(arg@, state);
    }
    match state {
        PortScan::Digits => Endpoint::Tcp(arg.to_string()),
        _ => Endpoint::Unix(arg.to_string()),
    }
}

/// What came of one read.
#[derive(Clone, Copy, Debug, PartialEq, Eq, Structural)]
pub enum ReadStatus {
    /// All bytes are there.
    Filled,
    /// More bytes are to be read.
    Pending,
    /// The stream ended before all bytes were there.
    Eof,
}

/// A fixed number of bytes that is being read from a stream, as many at a time
/// as the stream gives.
pub struct ReadExact {
    wanted: usize,
    bytes: Vec<u8>,
}

impl View for ReadExact {
    type V = Seq<u8>;

    /// The bytes read so far.
    closed spec fn view(&self) -> Seq<u8> {
        self.bytes@
    }
}

impl ReadExact {
    /// The number of bytes to read in all.
    pub closed spec fn wanted(&self) -> nat {
        self.wanted as nat
    }

    /// No more bytes were read than are wanted.
    pub open spec fn wf(&self) -> bool {
        self@.len() <= self.wanted()
    }

    /// Nothing of `wanted` bytes is read yet.
    pub fn new(wanted: usize) -> (reader: Self)
        ensures
            reader.wf(),
            reader.wanted() == wanted,
            reader@ == Seq::<u8>::empty(),
    {
        ReadExact { wanted, bytes: Vec::new() }
    }

    /// How many bytes are still to be read.
    pub fn remaining(&self) -> (remaining: usize)
        requires
            self.wf(),
        ensures
            remaining == self.wanted() - self@.len(),
    {
        self.wanted - self.bytes.len()
    }

    /// Takes in the bytes that one read gave, which asked for no more than
    /// [`ReadExact::remaining`] bytes. A read that gave none has hit the end of
    /// the stream.
    pub fn advance(&mut self, chunk: &[u8]) -> (status: ReadStatus)
        requires
            old(self).wf(),
            old(self)@.len() < old(self).wanted(),
            chunk@.len() <= old(self).wanted() - old(self)@.len(),
        ensures
            final(self).wf(),
            final(self).wanted() == old(self).wanted(),
            final(self)@ == old(self)@ + chunk@,
            status == if chunk@.len() == 0 {
                ReadStatus::Eof
            } else if old(self)@.len() + chunk@.len() == old(self).wanted() {
                ReadStatus::Filled
            } else {
                ReadStatus::Pending
            },
    {
        if chunk.len() == 0 {
            assert(self@ =~= old(self)@ + chunk@);
            return ReadStatus::Eof;
        }
        self.bytes.extend_from_slice(chunk);
        assert(self@ =~= old(self)@ + chunk@);
        if self.bytes.len() == self.wanted {
            ReadStatus::Filled
        } else {
            ReadStatus::Pending
        }
    }

    /// The bytes read so far, as a slice.
    pub fn bytes(&self) -> (bytes: &[u8])
        ensures
            bytes@ == self@,
    {
        self.bytes.as_slice()
    }
}

/// A host and a port with a colon between them is a TCP address, whatever the
/// host is and however many digits the port has, one at least.
pub proof fn lemma_host_and_port_is_tcp(host: Seq<char>, port: Seq<char>)
    requires
        port.len() > 0,
        forall|j: int| 0 <= j < port.len() ==> '0' <= #[trigger] port[j] <= '9',
    ensures
        is_tcp_address(host + seq![':'] + port),
{
    let arg = host + seq![':'] + port;
    let i = host.len() as int;
    assert forall|j: int| i < j < arg.len() implies is_ascii_digit(#[trigger] arg[j]) by {
        assert(arg[j] == port[j - i - 1]);
    }
    assert(last_colon_at(arg, i));
}

/// An argument with nothing behind its last colon, or with something there that is
/// no digit, is no TCP address; nor is what stands behind the colon by itself.
pub proof fn lemma_anything_else_is_no_tcp_address(head: Seq<char>, tail: Seq<char>, at: int)
    requires
        forall|j: int| 0 <= j < tail.len() ==> #[trigger] tail[j] != ':',
        tail.len() == 0 || (0 <= at < tail.len() && !('0' <= tail[at] <= '9')),
    ensures
        !is_tcp_address(head + seq![':'] + tail),
        !is_tcp_address(tail),
{
    let arg = head + seq![':'] + tail;
    let colon = head.len() as int;
    if is_tcp_address(arg) {
        let i = choose|i: int| #[trigger]
            last_colon_at(arg, i) && i < arg.len() - 1 && forall|j: int|
                i < j < arg.len() ==> is_ascii_digit(#[trigger] arg[j]);
        assert(arg[colon] == ':');
        if i > colon {
            assert(arg[i] == tail[i - colon - 1]);
        }
        assert(i == colon);
        assert(tail.len() > 0);
        assert(arg[colon + 1 + at] == tail[at]);
        assert(is_ascii_digit(arg[colon + 1 + at]));
    }
    if is_tcp_address(tail) {
        let i = choose|i: int| #[trigger] last_colon_at(tail, i);
        assert(tail[i] != ':');
    }
}

/// A string without a colon is no TCP address.
pub proof fn lemma_no_colon_is_no_tcp_address(arg: Seq<char>)
    requires
        forall|j: int| 0 <= j < arg.len() ==> #[trigger] arg[j] != ':',
    ensures
        !is_tcp_address(arg),
{
    if is_tcp_address(arg) {
        let i = choose|i: int| #[trigger] last_colon_at(arg, i);
        assert(arg[i] != ':');
    }
}

} // verus!
