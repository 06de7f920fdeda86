use chain_index::daemon::{
    authorization, backoff, basic_header, batch_answered, react, CookieSource, ErrorKind,
    Failure, Reaction,
};

#[test]
fn static_credential_is_returned_verbatim() {
    let source = CookieSource::Static(b"alice:pw".to_vec());
    assert_eq!(source.get(None), Ok(b"alice:pw".to_vec()));
    assert_eq!(source.get(Some(b"other".to_vec())), Ok(b"alice:pw".to_vec()));
}

#[test]
fn file_credential_is_what_was_just_read() {
    let source = CookieSource::File(vec![String::from("/data")]);
    assert_eq!(source.get(Some(b"__cookie__:abc".to_vec())), Ok(b"__cookie__:abc".to_vec()));
    assert_eq!(source.get(Some(b"__cookie__:xyz".to_vec())), Ok(b"__cookie__:xyz".to_vec()));
}

#[test]
fn unreadable_cookie_file_is_a_connection_error() {
    let source = CookieSource::File(vec![String::from("/data")]);
    let r = source.get(None);
    assert_eq!(r, Err(Failure::Credential));
    assert_eq!(Failure::Credential.kind(), ErrorKind::Connection);
    assert!(!Failure::Credential.retryable());
}

#[test]
fn authorization_is_basic_with_base64() {
    assert_eq!(authorization(&b"user:pass".to_vec()), Ok(String::from("Basic dXNlcjpwYXNz")));
    assert_eq!(authorization(&b"a".to_vec()), Ok(String::from("Basic YQ==")));
    assert_eq!(authorization(&Vec::new()), Ok(String::from("Basic ")));
    assert_eq!(basic_header("QUJD"), "Basic QUJD");
}

#[test]
fn oversized_credential_is_refused() {
    let big = vec![b'x'; 0x10_0000 + 1];
    assert_eq!(authorization(&big), Err(Failure::Credential));
    let fits = vec![b'x'; 0x10_0000];
    assert!(authorization(&fits).is_ok());
}

#[test]
fn failures_have_kinds() {
    assert_eq!(Failure::Transport.kind(), ErrorKind::Connection);
    assert_eq!(Failure::NotReady.kind(), ErrorKind::DaemonRpc);
    assert_eq!(Failure::Rejected.kind(), ErrorKind::DaemonRpc);
    assert_eq!(Failure::Store.kind(), ErrorKind::Store);
    assert_eq!(Failure::NotFound.kind(), ErrorKind::NotFound);
    assert_eq!(Failure::ReorgTooDeep.kind(), ErrorKind::Store);
}

#[test]
fn warmup_code_means_not_ready() {
    assert_eq!(Failure::from_rpc_code(-28), Failure::NotReady);
    assert_eq!(Failure::from_rpc_code(-32601), Failure::Rejected);
    assert_eq!(Failure::from_rpc_code(0), Failure::Rejected);
}

#[test]
fn backoff_doubles_up_to_the_cap() {
    assert_eq!(backoff(0), 500);
    assert_eq!(backoff(1), 1000);
    assert_eq!(backoff(2), 2000);
    assert_eq!(backoff(6), 32000);
    assert_eq!(backoff(7), 60000);
    assert_eq!(backoff(8), 60000);
    assert_eq!(backoff(u32::MAX), 60000);
}

#[test]
fn reactions_follow_the_failure() {
    assert_eq!(react(Failure::Transport, 0), Reaction::RetryAfter(500));
    assert_eq!(react(Failure::NotReady, 3), Reaction::RetryAfter(4000));
    assert_eq!(react(Failure::Credential, 0), Reaction::Abandon);
    assert_eq!(react(Failure::Rejected, 5), Reaction::Abandon);
    assert_eq!(react(Failure::NotFound, 0), Reaction::Abandon);
    assert_eq!(react(Failure::Store, 0), Reaction::Fatal);
    assert_eq!(react(Failure::ReorgTooDeep, 9), Reaction::Fatal);
    assert!(Failure::Store.fatal());
    assert!(!Failure::Transport.fatal());
}

#[test]
fn batch_answers_must_match_in_order() {
    assert!(batch_answered(&vec![1, 2, 3], &vec![1, 2, 3]));
    assert!(batch_answered(&vec![], &vec![]));
    assert!(!batch_answered(&vec![1, 2, 3], &vec![1, 3, 2]));
    assert!(!batch_answered(&vec![1, 2, 3], &vec![1, 2]));
    assert!(!batch_answered(&vec![1], &vec![1, 1]));
}
