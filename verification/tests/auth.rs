use tsgu_rpc::auth::{
    accepted_username, authorization_headers, awaits_challenge, can_send, challenge,
    challenge_from, conclude, signature_from, AuthNext, HttpAuth, NtlmAuth, StepResult, DCE_REQUIREMENTS, HTTP_REQUIREMENTS,
    RPC_SIGNATURE_SIZE, STATUS_COMPLETE_NEEDED, STATUS_CONTINUE_NEEDED, STATUS_OK,
};
use tsgu_rpc::http::Response;

fn response(status: u16, reason: &str, headers: &[(&str, &str)]) -> Response {
    Response {
        status,
        reason: reason.to_owned(),
        headers: headers.iter().map(|(k, v)| (k.to_string(), v.to_string())).collect(),
        body: Vec::new(),
    }
}

fn type2() -> Vec<u8> {
    let mut c = b"NTLMSSP\0".to_vec();
    c.extend_from_slice(&2u32.to_le_bytes());
    c.extend_from_slice(&[0, 0, 0, 0, 48, 0, 0, 0]);
    c.extend_from_slice(&1u32.to_le_bytes());
    c.extend_from_slice(&[1, 2, 3, 4, 5, 6, 7, 8]);
    c.extend_from_slice(&[0; 8]);
    c.extend_from_slice(&[4, 0, 4, 0, 48, 0, 0, 0]);
    c.extend_from_slice(&[0; 4]);
    c
}

#[test]
fn requirements_are_those_of_the_security_package() {
    let http = sspi::ClientRequestFlags::CONFIDENTIALITY | sspi::ClientRequestFlags::ALLOCATE_MEMORY;
    assert_eq!(HTTP_REQUIREMENTS, http.bits());
    let dce = sspi::ClientRequestFlags::USE_DCE_STYLE
        | sspi::ClientRequestFlags::DELEGATE
        | sspi::ClientRequestFlags::REPLAY_DETECT
        | sspi::ClientRequestFlags::SEQUENCE_DETECT
        | sspi::ClientRequestFlags::ALLOCATE_MEMORY;
    assert_eq!(DCE_REQUIREMENTS, dce.bits());
    assert_eq!(STATUS_OK, sspi::SecurityStatus::Ok as u32);
    assert_eq!(STATUS_CONTINUE_NEEDED, sspi::SecurityStatus::ContinueNeeded as u32);
    assert_eq!(STATUS_COMPLETE_NEEDED, sspi::SecurityStatus::CompleteNeeded as u32);
}

#[test]
fn the_handshake_completes_with_type_3() {
    let mut auth = NtlmAuth::new("user", Some("DOMAIN"), "password").unwrap();
    assert!(!auth.is_complete());
    let type1 = auth.step(None).unwrap();
    assert_eq!(&type1[..12], b"NTLMSSP\0\x01\0\0\0");
    assert!(!auth.is_complete());
    let type3 = auth.step(Some(&type2())).unwrap();
    assert_eq!(&type3[..12], b"NTLMSSP\0\x03\0\0\0");
    assert!(auth.is_complete());
    // Domain and user are in the answer, in UTF-16.
    let name: Vec<u8> = "DOMAIN".encode_utf16().flat_map(|u| u.to_le_bytes()).collect();
    assert!(type3.windows(name.len()).any(|w| w == name));
}

#[test]
fn the_first_token_depends_on_the_account_in_nothing() {
    let mut a = NtlmAuth::new("user", Some("DOMAIN"), "password").unwrap();
    let mut b = NtlmAuth::new("other@example.com", None, "secret").unwrap();
    assert_eq!(a.step(None).unwrap(), b.step(None).unwrap());
}

#[test]
fn a_second_first_step_is_refused() {
    let mut auth = NtlmAuth::new("user", None, "password").unwrap();
    auth.step(None).unwrap();
    let e = auth.step(None).unwrap_err();
    assert!(e.message().starts_with("gateway: NTLM resolve: "));
    assert!(!auth.is_complete());
    // The context can still take the challenge.
    assert!(auth.step(Some(&type2())).is_ok());
    assert!(auth.is_complete());
}

#[test]
fn a_mixed_user_name_is_invalid() {
    let e = NtlmAuth::new("DOM\\user", Some("OTHER"), "password").err().unwrap();
    assert_eq!(e.message(), "username: mixed username format");
    let e = NtlmAuth::new_dce("DOM\\user", Some("OTHER"), "password").err().unwrap();
    assert_eq!(e.message(), "username: mixed username format");
}

#[test]
fn an_empty_user_name_is_invalid() {
    for domain in [None, Some("DOMAIN")] {
        let e = NtlmAuth::new("", domain, "password").err().unwrap();
        assert_eq!(e.message(), "username: empty");
        let e = NtlmAuth::new_dce("", domain, "password").err().unwrap();
        assert_eq!(e.message(), "username: empty");
    }
}

#[test]
fn a_hash_that_is_cut_inside_a_character_answers_no_challenge() {
    let cut = [
        format!("$NTLM$:\u{20ac}{}", "0".repeat(29)),
        format!("$NTLM$:\u{1f600}{}", "0".repeat(28)),
        format!("$NTLM$:0\u{e9}{}", "0".repeat(29)),
        format!("$NTLM$:{}+f\u{20ac}{}", "0".repeat(26), "0"),
        format!("$NTLM$:{}\u{20ac}", "0".repeat(29)),
    ];
    for password in cut {
        assert_eq!(password.len(), 7 + 32);
        assert!(!can_send(&password));
        for mut auth in [
            NtlmAuth::new("user", None, &password).unwrap(),
            NtlmAuth::new_dce("user", None, &password).unwrap(),
        ] {
            assert!(auth.step(None).is_ok());
            let e = auth.step(Some(&type2())).unwrap_err();
            assert_eq!(e.message(), "password: malformed NT hash");
            assert!(!auth.is_complete());
            let e = auth.step(None).unwrap_err();
            assert!(e.message().starts_with("gateway: NTLM resolve: "), "{}", e.message());
            assert!(auth.sign(b"data").is_err());
        }
        // Only a challenge is refused, not the input of a first step.
        let mut auth = NtlmAuth::new("user", None, &password).unwrap();
        assert_eq!(&auth.step(Some(&type2())).unwrap()[..12], b"NTLMSSP\0\x01\0\0\0");
        // A gateway that does not challenge is served.
        let mut auth = NtlmAuth::new("user", None, &password).unwrap();
        http_auth(false).begin(&mut auth).unwrap();
        match http_auth(false).answer(&mut auth, response(200, "OK", &[])).unwrap() {
            AuthNext::Settled(r) => assert_eq!(r.status, 200),
            AuthNext::Send(_) => panic!("no challenge to answer"),
        }
        // A context that was in other hands can be at a challenge.
        let mut auth = NtlmAuth::new("user", None, &password).unwrap();
        let mut other = NtlmAuth::new("user", None, "password").unwrap();
        other.step(None).unwrap();
        *auth.context() = other.context().clone();
        let e = auth.step(Some(&type2())).unwrap_err();
        assert_eq!(e.message(), "password: malformed NT hash");
    }
}

#[test]
fn a_context_comes_back_as_it_was_left() {
    let mut auth = NtlmAuth::new("user", None, "password").unwrap();
    auth.step(None).unwrap();
    let mut other = NtlmAuth::new("user", None, "password").unwrap();
    *other.context() = auth.context().clone();
    let type3 = other.step(Some(&type2())).unwrap();
    assert_eq!(&type3[..12], b"NTLMSSP\0\x03\0\0\0");
    assert_eq!(other.sign(b"data").unwrap().len(), RPC_SIGNATURE_SIZE);
    assert!(auth.sign(b"data").is_err());
}

#[test]
fn a_challenge_is_awaited_behind_the_first_token() {
    let token = |status| StepResult::Token(vec![1], status);
    for before in [false, true] {
        assert!(awaits_challenge(before, &token(STATUS_CONTINUE_NEEDED)));
        assert!(!awaits_challenge(before, &token(STATUS_OK)));
        assert!(!awaits_challenge(before, &token(STATUS_COMPLETE_NEEDED)));
        assert_eq!(awaits_challenge(before, &StepResult::Refused("no".to_owned())), before);
        assert_eq!(awaits_challenge(before, &StepResult::Unresolved("no".to_owned())), before);
    }
}

#[test]
fn any_other_password_answers_the_challenge_or_fails() {
    let answer = |password: &str| {
        assert!(can_send(password));
        let mut auth = NtlmAuth::new("user", None, password).unwrap();
        auth.step(None).unwrap();
        auth.step(Some(&type2()))
    };
    for password in [
        "",
        "password",
        "pass\u{20ac}word",
        "$NTLM$",
        "$NTLM$:32ed87bdb5fdc5e9cba88547376818d4",
        "x$NTLM$:\u{20ac}00000000000000000000000000000",
    ] {
        assert_eq!(&answer(password).unwrap()[..12], b"NTLMSSP\0\x03\0\0\0");
    }
    let refused = [
        "$NTLM$:".to_owned(),
        "$NTLM$:32ed87bdb5fdc5e9cba88547376818zz".to_owned(),
        // Not the length of a hash.
        format!("$NTLM$:\u{20ac}{}", "0".repeat(28)),
        // A character of two bytes is a pair of its own.
        format!("$NTLM$:\u{e9}{}", "0".repeat(30)),
        // The first pair that is no number comes before the character.
        format!("$NTLM$:zz\u{20ac}{}", "0".repeat(27)),
        format!("$NTLM$:-0\u{20ac}{}", "0".repeat(27)),
        format!("$NTLM$:0+\u{20ac}{}", "0".repeat(27)),
    ];
    for password in refused {
        let e = answer(&password).unwrap_err();
        assert!(e.message().starts_with("gateway: NTLM resolve: "), "{}", e.message());
    }
}

#[test]
fn results_of_the_security_package_are_passed_on() {
    let e = accepted_username(Err("why".to_owned())).err().unwrap();
    assert_eq!(e.message(), "username: why");
    let name = accepted_username(Ok(sspi::Username::parse("user@example.com").unwrap())).unwrap();
    assert_eq!(name.account_name(), "user");
    assert_eq!(signature_from(Ok(vec![1, 2])).unwrap(), vec![1, 2]);
    let e = signature_from(Err("why".to_owned())).unwrap_err();
    assert_eq!(e.message(), "gateway: RPC request sign: why");
}

#[test]
fn signatures_are_numbered() {
    let mut auth = NtlmAuth::new_dce("user", None, "password").unwrap();
    auth.step(None).unwrap();
    auth.step(Some(&type2())).unwrap();
    let first = auth.sign(b"some data").unwrap();
    assert_eq!(first.len(), RPC_SIGNATURE_SIZE);
    assert_eq!(&first[..4], &[1, 0, 0, 0]);
    assert_eq!(&first[12..], &[0, 0, 0, 0]);
    let second = auth.sign(b"some data").unwrap();
    assert_eq!(&second[12..], &[1, 0, 0, 0]);
    assert_ne!(first[4..12], second[4..12]);
}

#[test]
fn nothing_is_signed_before_the_handshake() {
    let mut auth = NtlmAuth::new_dce("user", None, "password").unwrap();
    let e = auth.sign(b"data").unwrap_err();
    assert!(e.message().starts_with("gateway: RPC request sign: "));
    // The context is handed out as it is.
    let before = format!("{:?}", auth.context());
    assert!(before.contains("Initial"));
}

#[test]
fn a_step_means_its_token_and_its_status() {
    let (r, complete) = conclude(false, StepResult::Token(vec![1], STATUS_CONTINUE_NEEDED));
    assert_eq!(r.unwrap(), vec![1]);
    assert!(!complete);
    let (_, complete) = conclude(false, StepResult::Token(vec![1], STATUS_OK));
    assert!(complete);
    let (_, complete) = conclude(false, StepResult::Token(vec![1], STATUS_COMPLETE_NEEDED));
    assert!(complete);
    let (r, complete) = conclude(true, StepResult::Refused("why".to_owned()));
    assert_eq!(
        r.unwrap_err().message(),
        "gateway: NTLM initialize_security_context: why"
    );
    assert!(complete);
    let (r, complete) = conclude(false, StepResult::Unresolved("why".to_owned()));
    assert_eq!(r.unwrap_err().message(), "gateway: NTLM resolve: why");
    assert!(!complete);
}

#[test]
fn tokens_travel_in_base64() {
    let cases: [(&[u8], &str); 6] = [
        (b"", "NTLM "),
        (b"f", "NTLM Zg=="),
        (b"fo", "NTLM Zm8="),
        (b"foo", "NTLM Zm9v"),
        (b"foobar", "NTLM Zm9vYmFy"),
        (&[0xFB, 0xEF, 0xFF], "NTLM ++//"),
    ];
    for (token, value) in cases {
        let headers = authorization_headers(token, &[]);
        assert_eq!(headers, vec![("Authorization".to_owned(), value.to_owned())]);
    }
    let extra = [("Cookie".to_owned(), "a".to_owned()), ("X".to_owned(), "b".to_owned())];
    let headers = authorization_headers(b"foo", &extra);
    assert_eq!(headers.len(), 3);
    assert_eq!(headers[1..], extra);
}

fn http_auth(streaming: bool) -> HttpAuth {
    HttpAuth {
        method: "RPC_IN_DATA".to_owned(),
        uri: "/rpc".to_owned(),
        host: "gw".to_owned(),
        final_content_length: 1_073_741_824,
        extra: vec![("Cookie".to_owned(), "x".to_owned())],
        streaming,
    }
}

#[test]
fn two_requests_authenticate_a_channel() {
    for streaming in [false, true] {
        let mut auth = NtlmAuth::new("user", None, "password").unwrap();
        let exchange = http_auth(streaming);
        let head = exchange.begin(&mut auth).unwrap();
        assert!(head.starts_with("RPC_IN_DATA /rpc HTTP/1.1\r\nHost: gw\r\n"));
        assert!(head.contains("\r\nAuthorization: NTLM TlRMTVNTUAABAAAA"));
        assert!(head.contains("\r\nCookie: x\r\nContent-Length: 0\r\n"));
        let value = authorization_headers(&type2(), &[])[0].1.clone();
        let r = response(401, "Unauthorized", &[("www-authenticate", &value)]);
        match exchange.answer(&mut auth, r).unwrap() {
            AuthNext::Send(head) => {
                assert!(head.contains("\r\nAuthorization: NTLM TlRMTVNTUAADAAAA"));
                assert!(head.contains("\r\nCookie: x\r\nContent-Length: 1073741824\r\n"));
            }
            AuthNext::Settled(_) => panic!("settled"),
        }
        assert!(auth.is_complete());
        assert!(exchange.begin(&mut auth).is_err());
    }
}

#[test]
fn a_head_carries_the_token_it_is_given() {
    let head = http_auth(true).head_from(Ok(b"foo".to_vec()), 76).unwrap();
    assert!(head.contains("\r\nAuthorization: NTLM Zm9v\r\nCookie: x\r\nContent-Length: 76\r\n"));
}

#[test]
fn a_challenge_comes_out_as_it_went_in() {
    let value = authorization_headers(&type2(), &[])[0].1.clone();
    let r = response(401, "Unauthorized", &[("www-authenticate", &value)]);
    assert_eq!(challenge(&r).unwrap(), type2());
}

#[test]
fn a_response_without_challenge_settles_the_matter() {
    let mut auth = NtlmAuth::new("user", None, "password").unwrap();
    auth.step(None).unwrap();
    match http_auth(false).answer(&mut auth, response(200, "Success", &[])).unwrap() {
        AuthNext::Settled(r) => assert_eq!((r.status, r.reason.as_str()), (200, "Success")),
        AuthNext::Send(_) => panic!("challenged"),
    }
    let e = http_auth(true).answer(&mut auth, response(200, "Success", &[])).err().unwrap();
    assert_eq!(
        e.message(),
        "gateway: RPC_IN_DATA: expected 401 NTLM challenge, got 200 Success"
    );
    // The context is where it was.
    assert!(auth.step(Some(&type2())).is_ok());
}

#[test]
fn an_empty_or_broken_challenge_is_an_error() {
    let missing = "gateway: gateway 401 without an NTLM challenge";
    let none = response(401, "Unauthorized", &[("WWW-Authenticate", "Basic realm=x")]);
    assert_eq!(challenge(&none).unwrap_err().message(), missing);
    let bare = response(401, "Unauthorized", &[("WWW-Authenticate", "NTLM")]);
    assert_eq!(challenge(&bare).unwrap_err().message(), missing);
    let mut auth = NtlmAuth::new("user", None, "password").unwrap();
    assert_eq!(http_auth(false).answer(&mut auth, bare).err().unwrap().message(), missing);
    let broken = response(401, "Unauthorized", &[("WWW-Authenticate", "NTLM !!!!")]);
    let e = challenge(&broken).unwrap_err().message();
    assert!(e.starts_with("gateway: bad NTLM challenge base64: "));
    assert_ne!(e, "gateway: bad NTLM challenge base64: ");
    assert_eq!(
        challenge_from(Err("why".to_owned())).unwrap_err().message(),
        "gateway: bad NTLM challenge base64: why"
    );
}
