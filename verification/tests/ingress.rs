//! What comes in on the loopback port.

use agent_frow::ingress::{answer, event_of, not_bound, path_of, Head, Request, MAX_BODY};

fn head(lines: &[&str]) -> Head {
    Head::read(&lines.iter().map(|line| (*line).to_owned()).collect())
}

#[test]
fn a_request_is_its_path_its_length_and_its_token() {
    let head = head(&[
        "POST /hook HTTP/1.1\r\n",
        "Host: 127.0.0.1\r\n",
        "content-length: 12\r\n",
        "X-Agent-Frow-Token: abc\r\n",
        "\r\n",
        "Content-Length: 99\r\n",
    ]);
    assert_eq!(head.path, "/hook");
    assert_eq!(head.body_length(), Some(12), "what follows the blank line is the body");
    assert!(head.admitted("abc"));
    assert!(!head.admitted("abd"));
    assert_eq!(
        head.request("abc", b"{}".to_vec()),
        Some(Request {
            path: "/hook".to_owned(),
            body: b"{}".to_vec(),
        })
    );
}

#[test]
fn nobody_is_heard_who_shows_no_token() {
    let head = head(&["POST /hook HTTP/1.1\r\n", "\r\n"]);
    assert!(!head.admitted(""));
    assert!(!head.admitted("abc"));
}

/// A request with the right token that claims a body of `length` bytes.
fn claiming(length: &str) -> Head {
    head(&[
        "POST /hook HTTP/1.1\r\n",
        "X-Agent-Frow-Token: abc\r\n",
        &format!("Content-Length: {length}\r\n"),
        "\r\n",
    ])
}

#[test]
fn a_body_past_the_limit_is_refused_rather_than_read() {
    let fits = claiming(&MAX_BODY.to_string());
    assert_eq!(fits.body_length(), Some(MAX_BODY));
    assert!(fits.admitted("abc"));
    for length in [
        (MAX_BODY + 1).to_string(),
        usize::MAX.to_string(),
        "1000000000000000000000000000000".to_owned(),
    ] {
        let much = claiming(&length);
        assert_eq!(much.body_length(), None);
        assert!(!much.admitted("abc"));
        assert_eq!(much.request("abc", Vec::new()), None);
    }
}

#[test]
fn a_length_that_is_no_number_is_none() {
    let mut head = Head::start("POST /hook HTTP/1.1\r\n");
    assert!(head.take("Content-Length: seven\r\n"));
    assert_eq!(head.body_length(), Some(0));
    assert!(!head.take("\r\n"));
}

#[test]
fn a_path_is_the_second_word() {
    assert_eq!(path_of("GET /x HTTP/1.1"), "/x");
    assert_eq!(path_of("GET"), "/");
    assert_eq!(path_of(""), "/");
}

#[test]
fn an_answer_has_no_body() {
    let yes = answer(true);
    assert!(yes.starts_with("HTTP/1.1 204 No Content\r\n"), "{yes}");
    assert!(yes.ends_with("\r\n\r\n"), "{yes}");
    let no = answer(false);
    assert!(no.starts_with("HTTP/1.1 401 Unauthorized\r\n"), "{no}");
}

#[test]
fn a_port_that_is_taken_is_said_to_be() {
    assert_eq!(
        not_bound(true, "whatever"),
        "port 47115 is already in use — agent-frow is probably already running"
    );
    assert_eq!(
        not_bound(false, "denied"),
        "could not bind 127.0.0.1:47115: denied"
    );
}

#[test]
fn only_a_hook_with_json_in_it_is_an_event() {
    let event = event_of("/hook", "{\"src\": \"codex-win\"}").unwrap();
    assert_eq!(event.get("src").unwrap().as_str(), Some("codex-win"));
    assert!(event_of("/", "{}").is_none());
    assert!(event_of("/hook", "{").is_none());
}
