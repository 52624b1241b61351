use paxos_kv::netutil::Address;
use paxos_kv::{CustomError, PaxosError};

#[test]
fn test() {}

#[test]
fn custom_error_keeps_its_message() {
    let e = CustomError::new("cannot find quorum");
    assert_eq!(e.to_string(), "cannot find quorum");
    assert_eq!(CustomError::new("").to_string(), "");
}

#[test]
fn each_error_has_its_description() {
    assert_eq!(PaxosError::QuorumUnavailable.into_custom().to_string(), "cannot find quorum");
    assert_eq!(
        PaxosError::QuorumPromiseFailure.into_custom().to_string(),
        "failed to receive Promises from quorum"
    );
    assert_eq!(
        PaxosError::NoAcceptedValue.into_custom().to_string(),
        "no accepted value from quorum"
    );
    assert_eq!(PaxosError::BadRequest.into_custom().to_string(), "bad client request");
    assert_eq!(
        PaxosError::ProtocolDecodeError.into_custom().to_string(),
        "frame is neither a message nor text"
    );
    assert_eq!(PaxosError::UnexpectedMessage.into_custom().to_string(), "unexpected message");
    assert_eq!(PaxosError::PeerTimeout.into_custom().to_string(), "peer timed out");
}

#[test]
fn address_is_written_in_dotted_notation() {
    assert_eq!(Address::new(127, 0, 0, 1, 8000).to_string(), "127.0.0.1:8000");
    assert_eq!(Address::new(0, 0, 0, 0, 0).to_string(), "0.0.0.0:0");
    assert_eq!(Address::new(255, 255, 255, 255, 65535).to_string(), "255.255.255.255:65535");
    assert_eq!(Address::new(10, 9, 100, 99, 10).to_string(), "10.9.100.99:10");
    assert_eq!(Address::new(192, 168, 1, 20, 443).to_string(), "192.168.1.20:443");
}

#[test]
fn addresses_compare_by_their_parts() {
    assert_eq!(Address::new(1, 2, 3, 4, 5), Address { a: 1, b: 2, c: 3, d: 4, port: 5 });
    assert_ne!(Address::new(1, 2, 3, 4, 5), Address::new(1, 2, 3, 4, 6));
}
