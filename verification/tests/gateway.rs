use tsgu_rpc::gateway::{rpc_uri, Goal, Session, Stage, X224_CONNECTION_REQUEST};
use tsgu_rpc::rts::{Cookie, VirtualConnection};
use tsgu_rpc::tls::{CertInfo, TofuDecision};
use tsgu_rpc::tsgu::{ContextHandle, TargetChannel, Tunnel};
use tsgu_rpc::{
    AuthProbe, BindProbe, BoundRpc, ChannelProbe, GatewayError, GatewayParams, NtlmAuth, Response,
    RtsProbe, TunnelProbe,
};

fn cert() -> CertInfo {
    CertInfo { host: "gw".to_owned(), sha256_hex: "ab12".to_owned() }
}

fn params() -> GatewayParams {
    GatewayParams {
        host: "gw".to_owned(),
        port: 443,
        username: "user".to_owned(),
        password: "password".to_owned(),
        domain: Some("DOMAIN".to_owned()),
        target_host: "target".to_owned(),
        target_port: 3389,
    }
}

#[test]
fn the_proxy_dials_the_gateway_itself() {
    assert_eq!(rpc_uri(), "/rpc/rpcproxy.dll?localhost:3388");
}

#[test]
fn the_connection_request_gives_its_length() {
    assert_eq!(X224_CONNECTION_REQUEST[3] as usize, X224_CONNECTION_REQUEST.len());
    assert_eq!(X224_CONNECTION_REQUEST[..2], [3, 0]);
    assert_eq!(X224_CONNECTION_REQUEST[4..6], [0x0e, 0xe0]);
    assert_eq!(X224_CONNECTION_REQUEST[11..], [1, 0, 8, 0, 3, 0, 0, 0]);
}

fn run(goal: Goal) -> Vec<Stage> {
    let mut session = Session::new(goal);
    let mut stages = Vec::new();
    while session.stage() != Stage::Done {
        stages.push(session.stage());
        if session.stage() == Stage::Verify {
            session.decide(TofuDecision::Pin, &cert()).unwrap();
        } else {
            session.advance();
        }
    }
    session.advance();
    assert_eq!(session.stage(), Stage::Done);
    stages
}

#[test]
fn every_goal_takes_the_stages_in_order() {
    let all = [
        Stage::ConnectOut,
        Stage::ConnectIn,
        Stage::Verify,
        Stage::OpenVirtualConnection,
        Stage::SecureBind,
        Stage::CreateTunnel,
        Stage::AuthorizeTunnel,
        Stage::CreateChannel,
        Stage::SetupReceivePipe,
    ];
    assert_eq!(run(Goal::Rts), all[..4]);
    assert_eq!(run(Goal::Bind), all[..5]);
    assert_eq!(run(Goal::Tunnel), all[..6]);
    assert_eq!(run(Goal::Channel), all[..8]);
    assert_eq!(run(Goal::Pipe), all[..9]);
}

#[test]
fn a_rejected_certificate_stops_before_the_credentials() {
    let mut session = Session::new(Goal::Pipe);
    session.advance();
    session.advance();
    assert_eq!(session.stage(), Stage::Verify);
    let e = session.decide(TofuDecision::Abort, &cert()).unwrap_err();
    assert!(matches!(e, GatewayError::CertRejected(_)));
    assert_eq!(e.message(), "gateway certificate rejected: AB:12");
    assert_eq!(session.stage(), Stage::Verify);
}

#[test]
fn parameters_give_fresh_contexts() {
    let p = params().clone();
    assert_eq!(p.host, "gw");
    assert_eq!(p.port, 443);
    assert_eq!(p.domain.as_deref(), Some("DOMAIN"));
    assert_eq!((p.target_host.as_str(), p.target_port), ("target", 3389));
    let mut http = p.http_auth().unwrap();
    let mut rpc = p.rpc_auth().unwrap();
    assert!(!http.is_complete());
    assert!(http.step(None).is_ok());
    assert!(rpc.step(None).is_ok());
    let mut bad = params();
    bad.username = "A\\b".to_owned();
    assert_eq!(
        bad.http_auth().err().unwrap().message(),
        "username: mixed username format"
    );
    assert!(bad.rpc_auth().is_err());
    bad.domain = None;
    assert!(bad.rpc_auth().is_ok());
}

#[test]
fn probes_report_what_was_found() {
    let vc = VirtualConnection {
        in_channel: (),
        out_channel: (),
        connection_timeout: 120_000,
        receive_window: 0x0001_0000,
        out_cookie: Cookie([9; 16]),
    };
    let p = RtsProbe::new(cert(), &vc);
    assert_eq!((p.connection_timeout, p.receive_window), (120_000, 0x0001_0000));
    let ntlm = NtlmAuth::new("user", None, "password").unwrap();
    let response = Response {
        status: 401,
        reason: "Unauthorized".to_owned(),
        headers: vec![],
        body: vec![],
    };
    let p = AuthProbe::new(cert(), response, &ntlm);
    assert_eq!((p.status, p.reason.as_str(), p.complete), (401, "Unauthorized", false));
    assert_eq!(p.cert.sha256_hex, "ab12");
    let rpc = BoundRpc { vc, ntlm, call_id: 3, max_xmit_frag: 5, max_recv_frag: 6 };
    let p = BindProbe::new(cert(), &rpc);
    assert_eq!((p.connection_timeout, p.max_xmit_frag, p.max_recv_frag), (120_000, 5, 6));
    let tunnel = Tunnel { context: ContextHandle([0; 20]), tunnel_id: 8 };
    assert_eq!(TunnelProbe::new(cert(), &tunnel).tunnel_id, 8);
    let channel = TargetChannel { context: ContextHandle([0; 20]), channel_id: 9 };
    let p = ChannelProbe::new(cert(), &tunnel, &channel);
    assert_eq!((p.tunnel_id, p.channel_id), (8, 9));
}

#[test]
fn errors_say_where_they_come_from() {
    let io = std::io::Error::other("refused");
    assert_eq!(GatewayError::Network(io).message(), "network: refused");
    assert_eq!(GatewayError::Tls("x".to_owned()).message(), "tls: x");
    assert_eq!(
        GatewayError::CertRejected("x".to_owned()).message(),
        "gateway certificate rejected: x"
    );
    assert_eq!(GatewayError::Protocol("x".to_owned()).message(), "gateway: x");
    assert_eq!(GatewayError::Invalid("x".to_owned()).message(), "x");
}
