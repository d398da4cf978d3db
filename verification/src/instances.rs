//! Data model of tunnel instances as a desktop front end sees them: stored
//! login state, the lifecycle of one tunnel, and the results reported back
//! to the user interface.

use vstd::prelude::*;
use vstd::string::StringExecFns;

verus! {

/// Login state a front end keeps for its user.
#[derive(Clone, Debug)]
pub struct Credentials {
    /// The account identifier.
    pub user_id: String,
    /// The bearer token.
    pub token: String,
    /// The account's mail address.
    pub email: String,
}

/// The lifecycle state of one tunnel.
#[derive(Clone, Copy, Debug, PartialEq, Eq, Structural)]
pub enum TunnelStatus {
    /// No tunnel process is running.
    Inactive,
    /// The tunnel is being established.
    Starting,
    /// The tunnel is up and forwarding.
    Active,
    /// The tunnel failed; see the error message.
    Error,
}

impl TunnelStatus {
    /// The lowercase name under which the state is reported.
    pub fn label(&self) -> (r: &'static str)
        ensures
            *self == TunnelStatus::Inactive ==> r@ == "inactive"@,
            *self == TunnelStatus::Starting ==> r@ == "starting"@,
            *self == TunnelStatus::Active ==> r@ == "active"@,
            *self == TunnelStatus::Error ==> r@ == "error"@,
    {
        match self {
            TunnelStatus::Inactive => "inactive",
            TunnelStatus::Starting => "starting",
            TunnelStatus::Active => "active",
            TunnelStatus::Error => "error",
        }
    }
}

/// One tunnel instance with its current state.
#[derive(Clone, Debug)]
pub struct TunnelInstance {
    /// The instance identifier.
    pub id: String,
    /// The instance's display name.
    pub name: String,
    /// The local port being forwarded.
    pub local_port: u16,
    /// The region of the serving host.
    pub region: String,
    /// The tunnel server's address.
    pub server_address: String,
    /// The public URL, when connected.
    pub public_url: Option<String>,
    /// The assigned public port, when connected.
    pub remote_port: Option<u16>,
    /// The lifecycle state.
    pub status: TunnelStatus,
    /// Why the tunnel failed, when it did.
    pub error_message: Option<String>,
}

/// What a running tunnel needs to connect.
#[derive(Clone, Debug)]
pub struct TunnelConfig {
    /// The instance this tunnel belongs to.
    pub instance_id: String,
    /// The local port to forward.
    pub local_port: u16,
    /// The tunnel server to dial.
    pub server_address: String,
    /// The secret or managed key to authenticate with.
    pub secret: String,
}

/// A tunnel instance as reported back to the user interface.
#[derive(Clone, Debug)]
pub struct TunnelInstanceResponse {
    /// The instance identifier.
    pub id: String,
    /// The instance's display name.
    pub name: String,
    /// The local port being forwarded.
    pub local_port: u16,
    /// The region of the serving host.
    pub region: String,
    /// The tunnel server's address.
    pub server_address: String,
    /// The public URL, when connected.
    pub public_url: Option<String>,
    /// The assigned public port, when connected.
    pub remote_port: Option<u16>,
    /// The lifecycle state, by its lowercase name.
    pub status: String,
    /// Why the tunnel failed, when it did.
    pub error_message: Option<String>,
}

/// The outcome of a login attempt as reported to the user interface.
#[derive(Clone, Debug)]
pub struct LoginResponse {
    /// Whether the login succeeded.
    pub success: bool,
    /// A human-readable account of the outcome.
    pub message: String,
    /// The account identifier on success.
    pub user_id: Option<String>,
    /// The bearer token on success.
    pub token: Option<String>,
}

/// What was checked and installed of the tunnel's helper programs.
#[derive(Clone, Debug)]
pub struct DependencyStatus {
    /// Whether the tunnel helper is installed.
    pub bore_installed: bool,
    /// Whether this run installed it.
    pub bore_installed_now: bool,
    /// Why installing it failed, when it did.
    pub bore_error: Option<String>,
    /// Whether the editor server is installed.
    pub code_server_installed: bool,
    /// Whether this run installed it.
    pub code_server_installed_now: bool,
    /// Why installing it failed, when it did.
    pub code_server_error: Option<String>,
}

/// Builds the report of one tunnel instance for the user interface.
pub fn instance_response(t: &TunnelInstance) -> (r: TunnelInstanceResponse)
    ensures
        r.id@ == t.id@,
        r.name@ == t.name@,
        r.local_port == t.local_port,
        r.region@ == t.region@,
        r.server_address@ == t.server_address@,
        t.status == TunnelStatus::Inactive ==> r.status@ == "inactive"@,
        t.status == TunnelStatus::Starting ==> r.status@ == "starting"@,
        t.status == TunnelStatus::Active ==> r.status@ == "active"@,
        t.status == TunnelStatus::Error ==> r.status@ == "error"@,
        r.remote_port == t.remote_port,
{
    TunnelInstanceResponse {
        id: t.id.clone(),
        name: t.name.clone(),
        local_port: t.local_port,
        region: t.region.clone(),
        server_address: t.server_address.clone(),
        public_url: match &t.public_url {
            Some(u) => Some(u.clone()),
            None => None,
        },
        remote_port: t.remote_port,
        status: String::from_str(t.status.label()),
        error_message: match &t.error_message {
            Some(e) => Some(e.clone()),
            None => None,
        },
    }
}

} // verus!
