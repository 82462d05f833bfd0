use tsgu_rpc::http::{bad_status_line, no_address, request_head, Head, HeadReader, Response};

fn read_head(lines: &[&str]) -> Result<Response, String> {
    let mut reader = HeadReader::new();
    for line in lines {
        reader = match reader.on_line(line) {
            Ok(Head::More(reader)) => reader,
            Ok(Head::Complete(response)) => return Ok(response),
            Err(e) => return Err(e.message()),
        };
    }
    Err("more".to_owned())
}

#[test]
fn a_head_reads_as_status_reason_and_headers() {
    let r = read_head(&[
        "HTTP/1.1 401 Access Denied by policy\r\n",
        "Content-Type: text/plain\r\n",
        "WWW-Authenticate:NTLM abc= \r\n",
        "not a header\r\n",
        "Date:  Mon, 1 Jan 12:30:45 GMT  \r\n",
        "\r\n",
    ])
    .unwrap();
    assert_eq!(r.status, 401);
    assert_eq!(r.reason, "Access Denied by policy");
    assert_eq!(
        r.headers,
        vec![
            ("Content-Type".to_owned(), "text/plain".to_owned()),
            ("WWW-Authenticate".to_owned(), "NTLM abc=".to_owned()),
            ("Date".to_owned(), "Mon, 1 Jan 12:30:45 GMT".to_owned()),
        ]
    );
    assert!(r.body.is_empty());
    assert_eq!(r.www_authenticate_ntlm(), Some("abc="));
}

#[test]
fn a_status_line_may_lack_a_reason() {
    let r = read_head(&["HTTP/1.1 200\n", "\n"]).unwrap();
    assert_eq!((r.status, r.reason.as_str()), (200, ""));
    let r = read_head(&["HTTP/1.1 200 \r\n", " \t\r\n"]).unwrap();
    assert_eq!((r.status, r.reason.as_str()), (200, ""));
    assert_eq!(read_head(&["X +7 y\r\n", "\r\n"]).unwrap().status, 7);
}

#[test]
fn a_bad_status_line_is_quoted() {
    assert_eq!(
        read_head(&["garbage\r\n"]).unwrap_err(),
        "gateway: bad status line: \"garbage\""
    );
    assert_eq!(
        read_head(&["HTTP/1.1 \"x\" y\r\n"]).unwrap_err(),
        "gateway: bad status line: \"HTTP/1.1 \\\"x\\\" y\""
    );
    assert_eq!(bad_status_line("'x'").message(), "gateway: bad status line: 'x'");
    assert!(read_head(&["HTTP/1.1 65536 y\r\n"]).is_err());
    assert!(read_head(&["HTTP/1.1 -1 y\r\n"]).is_err());
    assert!(read_head(&["HTTP/1.1  200 y\r\n"]).is_err());
    assert!(read_head(&["\r\n"]).is_err());
}

#[test]
fn the_end_of_the_stream_is_an_error() {
    assert_eq!(read_head(&[""]).unwrap_err(), "gateway: gateway closed the connection");
    assert_eq!(
        read_head(&["HTTP/1.1 200 OK\r\n", "A: b\r\n", ""]).unwrap_err(),
        "gateway: gateway closed the connection"
    );
}

fn response(headers: &[(&str, &str)]) -> Response {
    Response {
        status: 200,
        reason: String::new(),
        headers: headers.iter().map(|(k, v)| (k.to_string(), v.to_string())).collect(),
        body: Vec::new(),
    }
}

#[test]
fn lookup_takes_the_first_match_in_any_case() {
    let r = response(&[("Content-Length", "12"), ("content-length", "13"), ("\u{212A}", "kelvin")]);
    assert_eq!(r.header("CONTENT-LENGTH"), Some("12"));
    assert_eq!(r.header("Content-Lengt"), None);
    // Only ASCII letters have a case here.
    assert_eq!(r.header("k"), None);
}

#[test]
fn the_ntlm_offer_is_found_among_others() {
    let r = response(&[
        ("WWW-Authenticate", "Negotiate"),
        ("www-authenticate", "  NTLM   TlRMTQ==  "),
        ("WWW-Authenticate", "NTLM other"),
    ]);
    assert_eq!(r.www_authenticate_ntlm(), Some("TlRMTQ=="));
    assert_eq!(response(&[("WWW-Authenticate", "NTLM")]).www_authenticate_ntlm(), Some(""));
    assert_eq!(response(&[("WWW-Authenticate", "ntlm abc")]).www_authenticate_ntlm(), None);
    assert_eq!(response(&[("Authorization", "NTLM abc")]).www_authenticate_ntlm(), None);
}

#[test]
fn a_length_that_cannot_be_read_counts_as_zero() {
    assert_eq!(response(&[("content-length", "1234")]).content_length(), 1234);
    assert_eq!(response(&[("content-length", "+8")]).content_length(), 8);
    assert_eq!(response(&[("content-length", "")]).content_length(), 0);
    assert_eq!(response(&[("content-length", "+")]).content_length(), 0);
    assert_eq!(response(&[("content-length", "12x")]).content_length(), 0);
    assert_eq!(response(&[("content-length", " 12")]).content_length(), 0);
    assert_eq!(response(&[]).content_length(), 0);
    let max = format!("{}", usize::MAX);
    assert_eq!(response(&[("content-length", &max)]).content_length(), usize::MAX);
    let over = format!("{}0", usize::MAX);
    assert_eq!(response(&[("content-length", &over)]).content_length(), 0);
}

#[test]
fn a_request_head_has_the_lines_the_proxy_expects() {
    let headers = [
        ("Authorization".to_owned(), "NTLM abc".to_owned()),
        ("Cookie".to_owned(), "x".to_owned()),
    ];
    let head = request_head("RPC_IN_DATA", "/rpc/rpcproxy.dll?a:1", "gw.example", 1_073_741_824, &headers);
    assert_eq!(
        head,
        "RPC_IN_DATA /rpc/rpcproxy.dll?a:1 HTTP/1.1\r\nHost: gw.example\r\n\
         Accept: application/rpc\r\nCache-Control: no-cache\r\nUser-Agent: MSRPC\r\n\
         Pragma: ResourceTypeUuid=44e265dd-7daf-42cd-8560-3cdb6e7a2729\r\n\
         Authorization: NTLM abc\r\nCookie: x\r\n\
         Content-Length: 1073741824\r\nConnection: keep-alive\r\n\r\n"
    );
    let bare = request_head("M", "/", "h", 0, &[]);
    assert!(bare.ends_with("7a2729\r\nContent-Length: 0\r\nConnection: keep-alive\r\n\r\n"));
}

#[test]
fn a_host_without_address_is_invalid() {
    assert_eq!(no_address("gw", 443).message(), "no address for gw:443");
}
