use silly_proxy::relay::{
    plan_connection, plan_request, ConnectionError, Relay, RelayAction, RelayEvent,
};

const CLOWN1: &str = "GET http://pages.cpsc.ucalgary.ca/~carey/CPSC441/ass1/clown1.png HTTP/1.0\r\n\r\n";
const CLOWN2: &str = "GET http://pages.cpsc.ucalgary.ca/~carey/CPSC441/ass1/clown2.png HTTP/1.0\r\n\r\n";

#[test]
fn plain_request_is_forwarded_unchanged() {
    let req = b"GET http://example.com/ HTTP/1.0\r\n\r\n";
    let plan = plan_request(req, false).unwrap();
    assert_eq!("example.com", plan.host);
    assert_eq!(req.to_vec(), plan.request);
    assert!(plan.transform);
}

#[test]
fn image_request_is_replaced() {
    let req = b"GET http://example.com/photos/cat.jpg HTTP/1.1\r\nHost: example.com\r\n\r\n";
    let heads = plan_request(req, true).unwrap();
    assert_eq!("pages.cpsc.ucalgary.ca", heads.host);
    assert_eq!(CLOWN2.as_bytes().to_vec(), heads.request);
    assert!(!heads.transform);
    let tails = plan_request(req, false).unwrap();
    assert_eq!("pages.cpsc.ucalgary.ca", tails.host);
    assert_eq!(CLOWN1.as_bytes().to_vec(), tails.request);
    assert!(!tails.transform);
}

#[test]
fn image_request_with_random_choice() {
    let req = b"GET example.com/cat.jpg HTTP/1.0\r\n\r\n";
    let plan = plan_connection(req).unwrap();
    assert_eq!("pages.cpsc.ucalgary.ca", plan.host);
    assert!(plan.request == CLOWN1.as_bytes() || plan.request == CLOWN2.as_bytes());
    assert!(!plan.transform);
}

#[test]
fn empty_or_other_requests_are_rejected() {
    assert_eq!(Err(ConnectionError::EmptyOrNotGet), plan_request(b"", false).map(|p| p.host));
    assert_eq!(
        Err(ConnectionError::EmptyOrNotGet),
        plan_request(b"POST http://example.com/ HTTP/1.0\r\n\r\n", false).map(|p| p.host)
    );
    assert_eq!(Err(ConnectionError::EmptyOrNotGet), plan_request(b"GE", true).map(|p| p.host));
}

#[test]
fn undecodable_request_is_rejected() {
    let req = b"GET http://example.com/\xff HTTP/1.0\r\n\r\n";
    assert_eq!(Err(ConnectionError::NotText), plan_request(req, false).map(|p| p.host));
}

#[test]
fn request_without_host_is_rejected() {
    assert_eq!(
        Err(ConnectionError::NoDestination),
        plan_request(b"GET\r\n\r\n", false).map(|p| p.host)
    );
    assert_eq!(
        Err(ConnectionError::NoDestination),
        plan_request(b"GET http://example.com HTTP/1.0\r\n", false).map(|p| p.host)
    );
}

#[test]
fn relay_transforms_chunks() {
    let mut relay = Relay::new(true);
    match relay.step(RelayEvent::Received(b"I am Happy!".to_vec())) {
        RelayAction::Send(bytes) => assert_eq!(b"I am Silly!".to_vec(), bytes),
        other => panic!("unexpected action {:?}", other),
    }
    assert!(matches!(relay.step(RelayEvent::Delivered(11)), RelayAction::ReadMore));
    assert!(matches!(relay.step(RelayEvent::ReadFailed), RelayAction::Finish));
    assert!(relay.done);
}

#[test]
fn relay_keeps_image_bytes() {
    let mut relay = Relay::new(false);
    match relay.step(RelayEvent::Received(b"happy".to_vec())) {
        RelayAction::Send(bytes) => assert_eq!(b"happy".to_vec(), bytes),
        other => panic!("unexpected action {:?}", other),
    }
}

#[test]
fn relay_ends_cleanly_on_empty_upstream() {
    let mut relay = Relay::new(true);
    assert!(matches!(relay.step(RelayEvent::Received(Vec::new())), RelayAction::Finish));
    assert!(relay.done);
    assert!(matches!(relay.step(RelayEvent::Received(b"late".to_vec())), RelayAction::Finish));
}

#[test]
fn relay_fails_when_client_takes_nothing() {
    let mut relay = Relay::new(true);
    assert!(matches!(relay.step(RelayEvent::Received(b"x".to_vec())), RelayAction::Send(_)));
    assert!(matches!(
        relay.step(RelayEvent::Delivered(0)),
        RelayAction::Fail(ConnectionError::ClientClosed)
    ));
    assert!(relay.done);
}
