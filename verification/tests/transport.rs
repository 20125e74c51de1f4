use gitkit::transport::{
    after_read, after_wait, identity_user, protocol_envs, repo_path_argument,
    AuthenticationUnsupported, Protocol, ReadStep,
};

#[test]
fn the_protocol_is_asked_for_by_a_variable() {
    assert_eq!(protocol_envs(Protocol::V1), Vec::<(&str, String)>::new());
    assert_eq!(protocol_envs(Protocol::V2), vec![("GIT_PROTOCOL", "version=2".to_string())]);
    assert_eq!(Protocol::V1.number(), 1);
    assert_eq!(Protocol::V2.number(), 2);
}

#[test]
fn only_ssh_takes_an_identity() {
    assert_eq!(identity_user(true, "me".to_string()), Ok(Some("me".to_string())));
    assert_eq!(identity_user(true, String::new()), Ok(None));
    assert_eq!(identity_user(false, "me".to_string()), Err(AuthenticationUnsupported));
    assert_eq!(identity_user(false, String::new()), Err(AuthenticationUnsupported));
}

#[test]
fn paths_are_quoted_for_the_remote_shell() {
    assert_eq!(repo_path_argument(false, b"~/repo it's"), b"~/repo it's".to_vec());
    assert_eq!(repo_path_argument(true, b"~/repo"), b"'~/repo'".to_vec());
    assert_eq!(repo_path_argument(true, b"it's!"), b"'it'\\''s'\\!''".to_vec());
    assert_eq!(repo_path_argument(true, b""), b"''".to_vec());
}

#[test]
fn a_reported_error_takes_the_place_of_a_read() {
    assert_eq!(after_read(Some("err"), 4, Ok(4)), ReadStep::Done(Err("err")));
    assert_eq!(after_read(Some("err"), 4, Err("io")), ReadStep::Done(Err("err")));
    assert_eq!(after_read(None::<&str>, 4, Ok(4)), ReadStep::Done(Ok(4)));
    assert_eq!(after_read(None::<&str>, 4, Ok(3)), ReadStep::WaitBriefly { read: 3 });
    assert_eq!(after_read(None, 4, Err("io")), ReadStep::WaitForError { failure: "io" });
    assert_eq!(after_wait(ReadStep::WaitBriefly { read: 3 }, None::<&str>), Ok(3));
    assert_eq!(after_wait(ReadStep::WaitBriefly { read: 3 }, Some("err")), Err("err"));
    assert_eq!(after_wait(ReadStep::WaitForError { failure: "io" }, None), Err("io"));
    assert_eq!(after_wait(ReadStep::WaitForError { failure: "io" }, Some("err")), Err("err"));
    assert_eq!(after_wait(ReadStep::Done(Ok(9)), Some("late")), Ok(9));
}

#[test]
fn quotes_and_exclamation_marks_are_escaped() {
    assert_eq!(gitkit::transport::quote_single(b""), b"''".to_vec());
    assert_eq!(gitkit::transport::quote_single(b"plain path"), b"'plain path'".to_vec());
    assert_eq!(gitkit::transport::quote_single(b"a'b!c"), b"'a'\\''b'\\!'c'".to_vec());
    assert_eq!(gitkit::transport::quote_single(b"'"), b"''\\'''".to_vec());
}
