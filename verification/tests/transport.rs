use steel_provider::transport::{parse_endpoint, Endpoint, ReadExact, ReadStatus};

fn is_tcp(arg: &str) -> bool {
    match parse_endpoint(arg) {
        Endpoint::Tcp(address) => {
            assert_eq!(address, arg);
            true
        }
        Endpoint::Unix(path) => {
            assert_eq!(path, arg);
            false
        }
    }
}

#[test]
fn addresses_with_a_port_are_tcp() {
    assert!(is_tcp("0.0.0.0:4096"));
    assert!(is_tcp("[::1]:4096"));
    assert!(is_tcp("localhost:0"));
    assert!(is_tcp("a:b:1"));
    assert!(is_tcp("::1"));
    assert!(is_tcp("é:80"));
    assert!(is_tcp(":80"));
    assert!(is_tcp(":4096"));
}

#[test]
fn anything_else_is_a_socket_path() {
    assert!(!is_tcp("/tmp/steel-provider.sock"));
    assert!(!is_tcp(""));
    assert!(!is_tcp(":"));
    assert!(!is_tcp(":x"));
    assert!(!is_tcp(":80a"));
    assert!(!is_tcp("80"));
    assert!(!is_tcp("host:"));
    assert!(!is_tcp("host:80a"));
    assert!(!is_tcp("1:2:x"));
    assert!(!is_tcp("host:8é"));
    assert!(!is_tcp("host:٣"));
    assert!(!is_tcp("host:1:"));
}

#[test]
fn reading_takes_as_many_reads_as_it_takes() {
    let mut reader = ReadExact::new(5);
    assert_eq!(reader.remaining(), 5);
    assert_eq!(reader.advance(&[1, 2]), ReadStatus::Pending);
    assert_eq!(reader.remaining(), 3);
    assert_eq!(reader.advance(&[3]), ReadStatus::Pending);
    assert_eq!(reader.advance(&[4, 5]), ReadStatus::Filled);
    assert_eq!(reader.remaining(), 0);
    assert_eq!(reader.bytes(), &[1, 2, 3, 4, 5]);
}

#[test]
fn reading_stops_at_the_end_of_the_stream() {
    let mut reader = ReadExact::new(5);
    assert_eq!(reader.advance(&[]), ReadStatus::Eof);
    let mut reader = ReadExact::new(5);
    reader.advance(&[1, 2]);
    assert_eq!(reader.advance(&[]), ReadStatus::Eof);
    assert_eq!(reader.bytes(), &[1, 2]);
}
