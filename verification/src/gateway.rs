//! The way to a target through a gateway, stage by stage: two TLS channels, the trust
//! decision, the virtual connection, the secure bind, and the `TsProxy*` calls.
use vstd::prelude::*;
use vstd::string::*;

use crate::auth;
use crate::auth::NtlmAuth;
use crate::bind::BoundRpc;
use crate::error::{ErrorView, GatewayError};
use crate::http::Response;
use crate::rts::VirtualConnection;
use crate::tls;
use crate::tls::{CertInfo, TofuDecision};
use crate::tsgu::{TargetChannel, Tunnel};

verus! {

/// Parameters to reach a target host through an RD Gateway.
pub struct GatewayParams {
    /// Gateway hostname (HTTPS on `port`).
    pub host: String,
    /// Gateway TCP port (443).
    pub port: u16,
    /// Gateway account username.
    pub username: String,
    /// Gateway account password.
    pub password: String,
    /// Optional gateway AD domain.
    pub domain: Option<String>,
    /// The internal RDP host the gateway should reach.
    pub target_host: String,
    /// The internal RDP port (3389).
    pub target_port: u16,
}

/// The characters of the domain, where there is one.
pub open spec fn domain_of(domain: Option<String>) -> Option<Seq<char>> {
    match domain {
        Some(d) => Some(d@),
        None => None,
    }
}

impl Clone for GatewayParams {
    fn clone(&self) -> (p: Self)
        ensures
            p.host@ == self.host@,
            p.port == self.port,
            p.username@ == self.username@,
            p.password@ == self.password@,
            domain_of(p.domain) == domain_of(self.domain),
            p.target_host@ == self.target_host@,
            p.target_port == self.target_port,
    {
        GatewayParams {
            host: self.host.clone(),
            port: self.port,
            username: self.username.clone(),
            password: self.password.clone(),
            domain: match &self.domain {
                Some(d) => Some(d.clone()),
                None => None,
            },
            target_host: self.target_host.clone(),
            target_port: self.target_port,
        }
    }
}

impl GatewayParams {
    /// A context that authenticates one HTTP channel.
    pub fn http_auth(&self) -> (r: Result<NtlmAuth, GatewayError>)
        ensures
            auth::built_for_http(self.username@, domain_of(self.domain), self.password@, r),
    {
        let domain: Option<&str> = match &self.domain {
            Some(d) => Some(d.as_str()),
            None => None,
        };
        NtlmAuth::new(self.username.as_str(), domain, self.password.as_str())
    }

    /// The context of the secure bind.
    pub fn rpc_auth(&self) -> (r: Result<NtlmAuth, GatewayError>)
        ensures
            auth::built_for_rpc(self.username@, domain_of(self.domain), self.password@, r),
    {
        let domain: Option<&str> = match &self.domain {
            Some(d) => Some(d.as_str()),
            None => None,
        };
        NtlmAuth::new_dce(self.username.as_str(), domain, self.password.as_str())
    }
}

/// The request URI of the RPC proxy. What follows the question mark is not the target
/// but the RPC endpoint that the proxy dials: the gateway service on the gateway
/// itself. The target is named later, by `TsProxyCreateChannel`.
pub fn rpc_uri() -> (uri: String)
    ensures
        uri@ == "/rpc/rpcproxy.dll?localhost:3388"@,
{
    "/rpc/rpcproxy.dll?localhost:3388".to_owned()
}

/// An RDP X.224 Connection Request (TPKT, X.224, and a negotiation request for TLS or
/// CredSSP): the first bytes any RDP client sends.
pub const X224_CONNECTION_REQUEST: [u8; 19] = [
    0x03, 0x00, 0x00, 0x13, 0x0e, 0xe0, 0x00, 0x00, 0x00, 0x00, 0x00, 0x01, 0x00, 0x08, 0x00, 0x03,
    0x00, 0x00, 0x00,
];

/// How far to go.
#[derive(Debug, Clone, Copy, PartialEq, Eq, Structural)]
pub enum Goal {
    /// An open virtual connection.
    Rts,
    /// A bound association.
    Bind,
    /// A tunnel.
    Tunnel,
    /// A channel to the target.
    Channel,
    /// A channel with its receive pipe: the whole tunnel.
    Pipe,
}

/// What is to be done next.
#[derive(Debug, Clone, Copy, PartialEq, Eq, Structural)]
pub enum Stage {
    ConnectOut,
    ConnectIn,
    Verify,
    OpenVirtualConnection,
    SecureBind,
    CreateTunnel,
    AuthorizeTunnel,
    CreateChannel,
    SetupReceivePipe,
    Done,
}

impl Stage {
    /// The position of the stage.
    pub open spec fn rank(self) -> nat {
        match self {
            Stage::ConnectOut => 0,
            Stage::ConnectIn => 1,
            Stage::Verify => 2,
            Stage::OpenVirtualConnection => 3,
            Stage::SecureBind => 4,
            Stage::CreateTunnel => 5,
            Stage::AuthorizeTunnel => 6,
            Stage::CreateChannel => 7,
            Stage::SetupReceivePipe => 8,
            Stage::Done => 9,
        }
    }

    /// Whether the stage uses the credentials of the account, or what came of them.
    pub open spec fn uses_credentials(self) -> bool {
        self.rank() > Stage::Verify.rank()
    }
}

impl Goal {
    /// The last stage before the goal is reached.
    pub open spec fn last_stage(self) -> Stage {
        match self {
            Goal::Rts => Stage::OpenVirtualConnection,
            Goal::Bind => Stage::SecureBind,
            Goal::Tunnel => Stage::CreateTunnel,
            Goal::Channel => Stage::CreateChannel,
            Goal::Pipe => Stage::SetupReceivePipe,
        }
    }
}

/// The stage after `stage` on the way to `goal`: the next in order, until the goal is
/// reached.
pub open spec fn stage_after(goal: Goal, stage: Stage) -> Stage {
    if stage == goal.last_stage() {
        Stage::Done
    } else {
        match stage {
            Stage::ConnectOut => Stage::ConnectIn,
            Stage::ConnectIn => Stage::Verify,
            Stage::Verify => Stage::OpenVirtualConnection,
            Stage::OpenVirtualConnection => Stage::SecureBind,
            Stage::SecureBind => Stage::CreateTunnel,
            Stage::CreateTunnel => Stage::AuthorizeTunnel,
            Stage::AuthorizeTunnel => Stage::CreateChannel,
            Stage::CreateChannel => Stage::SetupReceivePipe,
            Stage::SetupReceivePipe => Stage::Done,
            Stage::Done => Stage::Done,
        }
    }
}

/// A connection that is being made.
pub struct Session {
    goal: Goal,
    stage: Stage,
    pinned: bool,
}

/// What a [`Session`] holds.
pub struct SessionView {
    pub goal: Goal,
    pub stage: Stage,
    /// Whether the certificate of the gateway is trusted.
    pub pinned: bool,
}

impl View for Session {
    type V = SessionView;

    closed spec fn view(&self) -> SessionView {
        SessionView { goal: self.goal, stage: self.stage, pinned: self.pinned }
    }
}

/// What a trust decision makes of a session, or the error with which it ends.
pub open spec fn decided(
    before: SessionView,
    decision: TofuDecision,
    sha256_hex: Seq<char>,
) -> Result<SessionView, ErrorView> {
    match decision {
        TofuDecision::Pin => Ok(
            SessionView {
                goal: before.goal,
                stage: stage_after(before.goal, Stage::Verify),
                pinned: true,
            },
        ),
        TofuDecision::Abort => Err(ErrorView::CertRejected(tls::grouped(sha256_hex))),
    }
}

impl Session {
    /// No credential is used before the certificate is trusted.
    #[verifier::type_invariant]
    spec fn inv(self) -> bool {
        self.stage.uses_credentials() ==> self.pinned
    }

    pub fn new(goal: Goal) -> (s: Self)
        ensures
            s@ == (SessionView { goal, stage: stage_at(goal, 0), pinned: false }),
    {
        Session { goal, stage: Stage::ConnectOut, pinned: false }
    }

    /// What is to be done next. A stage that uses credentials comes only once the
    /// certificate is trusted.
    pub fn stage(&self) -> (stage: Stage)
        ensures
            stage == self@.stage,
            stage.uses_credentials() ==> self@.pinned,
    {
        proof {
            use_type_invariant(self);
        }
        self.stage
    }

    /// Note that the stage is done. The trust decision has a method of its own.
    pub fn advance(&mut self)
        requires
            old(self)@.stage != Stage::Verify,
        ensures
            final(self)@ == (SessionView {
                stage: stage_after(old(self)@.goal, old(self)@.stage),
                ..old(self)@
            }),
    {
        proof {
            use_type_invariant(&*self);
        }
        let done: bool = match (self.goal, self.stage) {
            (Goal::Rts, Stage::OpenVirtualConnection) => true,
            (Goal::Bind, Stage::SecureBind) => true,
            (Goal::Tunnel, Stage::CreateTunnel) => true,
            (Goal::Channel, Stage::CreateChannel) => true,
            (Goal::Pipe, Stage::SetupReceivePipe) => true,
            _ => false,
        };
        let next: Stage = if done {
            Stage::Done
        } else {
            match self.stage {
                Stage::ConnectOut => Stage::ConnectIn,
                Stage::ConnectIn => Stage::Verify,
                Stage::Verify => Stage::Verify,
                Stage::OpenVirtualConnection => Stage::SecureBind,
                Stage::SecureBind => Stage::CreateTunnel,
                Stage::CreateTunnel => Stage::AuthorizeTunnel,
                Stage::AuthorizeTunnel => Stage::CreateChannel,
                Stage::CreateChannel => Stage::SetupReceivePipe,
                Stage::SetupReceivePipe => Stage::Done,
                Stage::Done => Stage::Done,
            }
        };
        self.stage = next;
    }

    /// Take the decision on the certificate. A rejected one ends the connection with its
    /// fingerprint.
    pub fn decide(&mut self, decision: TofuDecision, cert: &CertInfo) -> (r: Result<
        (),
        GatewayError,
    >)
        requires
            old(self)@.stage == Stage::Verify,
        ensures
            match decided(old(self)@, decision, cert.sha256_hex@) {
                Ok(after) => r is Ok && final(self)@ == after,
                Err(e) => r matches Err(err) && err@ == e && final(self)@ == old(self)@,
            },
    {
        match decision {
            TofuDecision::Pin => {
                self.pinned = true;
                self.stage = Stage::OpenVirtualConnection;
                Ok(())
            },
            TofuDecision::Abort => Err(GatewayError::CertRejected(cert.fingerprint())),
        }
    }
}

/// A rejected certificate stops the connection before any stage that uses credentials,
/// and an accepted one leads to the first of them.
pub proof fn credentials_wait_for_trust(before: SessionView, sha256_hex: Seq<char>)
    requires
        before.stage == Stage::Verify,
    ensures
        !before.stage.uses_credentials(),
        decided(before, TofuDecision::Abort, sha256_hex) is Err,
        decided(before, TofuDecision::Pin, sha256_hex) matches Ok(after) && after.pinned
            && after.stage.uses_credentials(),
{
}

/// The stage after `n` stages on the way to `goal`.
pub open spec fn stage_at(goal: Goal, n: nat) -> Stage
    decreases n,
{
    if n == 0 {
        Stage::ConnectOut
    } else {
        stage_after(goal, stage_at(goal, (n - 1) as nat))
    }
}

/// The way to a goal takes the stages in order, ends with the last stage of the goal,
/// and is then done.
pub proof fn stages_lead_to_goal(goal: Goal, n: nat)
    ensures
        n <= goal.last_stage().rank() ==> stage_at(goal, n).rank() == n,
        n > goal.last_stage().rank() ==> stage_at(goal, n) == Stage::Done,
    decreases n,
{
    if n > 0 {
        stages_lead_to_goal(goal, (n - 1) as nat);
        let before = stage_at(goal, (n - 1) as nat);
        if n - 1 == goal.last_stage().rank() {
            assert(before == goal.last_stage());
        }
    }
}

/// Result of the authentication probe.
#[derive(Debug)]
pub struct AuthProbe {
    /// The TLS certificate of the gateway.
    pub cert: CertInfo,
    /// HTTP status after the Type-3 token (200 if NTLM was accepted).
    pub status: u16,
    /// The status reason phrase.
    pub reason: String,
    /// Whether the NTLM handshake completed.
    pub complete: bool,
}

impl AuthProbe {
    pub fn new(cert: CertInfo, response: Response, auth: &NtlmAuth) -> (p: Self)
        ensures
            p == (AuthProbe {
                cert,
                status: response.status,
                reason: response.reason,
                complete: auth@.complete,
            }),
    {
        AuthProbe {
            cert,
            status: response.status,
            reason: response.reason,
            complete: auth.is_complete(),
        }
    }
}

/// Result of the virtual connection probe.
#[derive(Debug)]
pub struct RtsProbe {
    /// The TLS certificate of the gateway.
    pub cert: CertInfo,
    /// The server's timeout from CONN/C2, in milliseconds.
    pub connection_timeout: u32,
    /// The server's receive window from CONN/C2.
    pub receive_window: u32,
}

impl RtsProbe {
    pub fn new<C>(cert: CertInfo, vc: &VirtualConnection<C>) -> (p: Self)
        ensures
            p == (RtsProbe {
                cert,
                connection_timeout: vc.connection_timeout,
                receive_window: vc.receive_window,
            }),
    {
        RtsProbe {
            cert,
            connection_timeout: vc.connection_timeout,
            receive_window: vc.receive_window,
        }
    }
}

/// Result of the secure bind probe.
#[derive(Debug)]
pub struct BindProbe {
    /// The TLS certificate of the gateway.
    pub cert: CertInfo,
    /// The server's timeout from CONN/C2, in milliseconds.
    pub connection_timeout: u32,
    /// Negotiated max send fragment after the bind.
    pub max_xmit_frag: u16,
    /// Negotiated max receive fragment after the bind.
    pub max_recv_frag: u16,
}

impl BindProbe {
    pub fn new<C>(cert: CertInfo, rpc: &BoundRpc<C>) -> (p: Self)
        ensures
            p == (BindProbe {
                cert,
                connection_timeout: rpc.vc.connection_timeout,
                max_xmit_frag: rpc.max_xmit_frag,
                max_recv_frag: rpc.max_recv_frag,
            }),
    {
        BindProbe {
            cert,
            connection_timeout: rpc.vc.connection_timeout,
            max_xmit_frag: rpc.max_xmit_frag,
            max_recv_frag: rpc.max_recv_frag,
        }
    }
}

/// Result of the `TsProxyCreateTunnel` probe.
#[derive(Debug)]
pub struct TunnelProbe {
    /// The TLS certificate of the gateway.
    pub cert: CertInfo,
    /// The tunnel id returned by `TsProxyCreateTunnel`.
    pub tunnel_id: u32,
}

impl TunnelProbe {
    pub fn new(cert: CertInfo, tunnel: &Tunnel) -> (p: Self)
        ensures
            p == (TunnelProbe { cert, tunnel_id: tunnel.tunnel_id }),
    {
        TunnelProbe { cert, tunnel_id: tunnel.tunnel_id }
    }
}

/// Result of the `TsProxyCreateChannel` probe.
#[derive(Debug)]
pub struct ChannelProbe {
    /// The TLS certificate of the gateway.
    pub cert: CertInfo,
    /// The tunnel id from `TsProxyCreateTunnel`.
    pub tunnel_id: u32,
    /// The channel id from `TsProxyCreateChannel` (the gateway reached the target).
    pub channel_id: u32,
}

impl ChannelProbe {
    pub fn new(cert: CertInfo, tunnel: &Tunnel, channel: &TargetChannel) -> (p: Self)
        ensures
            p == (ChannelProbe {
                cert,
                tunnel_id: tunnel.tunnel_id,
                channel_id: channel.channel_id,
            }),
    {
        ChannelProbe { cert, tunnel_id: tunnel.tunnel_id, channel_id: channel.channel_id }
    }
}

/// Result of the data pipe probe.
#[derive(Debug)]
pub struct PipeProbe {
    /// The TLS certificate of the gateway.
    pub cert: CertInfo,
    /// The channel id from `TsProxyCreateChannel`.
    pub channel_id: u32,
    /// The bytes read back from the target: the RDP X.224 Connection Confirm if the
    /// tunnel round-trips.
    pub response: Vec<u8>,
}

/// Each goal takes its stages in this order and no others: every way connects both
/// channels, asks for trust and opens the virtual connection; a bind, a tunnel, a channel
/// and the pipe each go on from the one before, and a channel needs an authorized tunnel.
pub proof fn ways_to_the_goals(goal: Goal)
    ensures
        stage_at(goal, 0) == Stage::ConnectOut,
        stage_at(goal, 1) == Stage::ConnectIn,
        stage_at(goal, 2) == Stage::Verify,
        stage_at(goal, 3) == Stage::OpenVirtualConnection,
        stage_at(Goal::Rts, 4) == Stage::Done,
        goal != Goal::Rts ==> stage_at(goal, 4) == Stage::SecureBind,
        stage_at(Goal::Bind, 5) == Stage::Done,
        goal != Goal::Rts && goal != Goal::Bind ==> stage_at(goal, 5) == Stage::CreateTunnel,
        stage_at(Goal::Tunnel, 6) == Stage::Done,
        goal == Goal::Channel || goal == Goal::Pipe ==> stage_at(goal, 6) == Stage::AuthorizeTunnel,
        goal == Goal::Channel || goal == Goal::Pipe ==> stage_at(goal, 7) == Stage::CreateChannel,
        stage_at(Goal::Channel, 8) == Stage::Done,
        stage_at(Goal::Pipe, 8) == Stage::SetupReceivePipe,
        stage_at(Goal::Pipe, 9) == Stage::Done,
{
    reveal_with_fuel(stage_at, 10);
}

/// Connecting and asking for trust are all that is done without credentials.
pub proof fn credentials_are_used_behind_trust(stage: Stage)
    ensures
        stage.uses_credentials() <==> stage != Stage::ConnectOut && stage != Stage::ConnectIn
            && stage != Stage::Verify,
{
}

/// A trusted certificate leads on to the virtual connection with the goal unchanged, and a
/// rejected one is reported by its fingerprint.
pub proof fn trust_leads_on(before: SessionView, digest: Seq<u8>)
    ensures
        decided(before, TofuDecision::Pin, tls::hex_of(digest)) == Ok::<SessionView, ErrorView>(
            SessionView { goal: before.goal, stage: Stage::OpenVirtualConnection, pinned: true },
        ),
        decided(before, TofuDecision::Abort, tls::hex_of(digest)) matches Err(
            ErrorView::CertRejected(shown),
        ) && shown == tls::grouped(tls::hex_of(digest)),
{
}

/// The connection request of RDP says its own lengths: that of the whole, that of the X.224
/// part behind it, and that of the negotiation request, which offers TLS and CredSSP.
pub proof fn connection_request_fits_its_lengths()
    ensures
        X224_CONNECTION_REQUEST@.len() == 19,
        X224_CONNECTION_REQUEST@[0] == 3,
        256 * X224_CONNECTION_REQUEST@[2] + X224_CONNECTION_REQUEST@[3] == 19,
        X224_CONNECTION_REQUEST@[4] == 19 - 5,
        X224_CONNECTION_REQUEST@[5] == 0xe0,
        X224_CONNECTION_REQUEST@[11] == 1,
        X224_CONNECTION_REQUEST@[13] + 256 * X224_CONNECTION_REQUEST@[14] == 19 - 11,
        X224_CONNECTION_REQUEST@[15] == 1 + 2,
{
}

} // verus!
