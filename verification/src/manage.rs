//! Data model of the management plane as the tunnel client consumes it:
//! login, stored credentials, and the instances a user may connect to.
//! The HTTP binding of these types lives outside the verified core.

use vstd::prelude::*;

verus! {

/// A login request to the management plane.
#[derive(Clone, Debug)]
pub struct LoginRequest {
    /// The account's mail address.
    pub email: String,
    /// The account's password.
    pub password: String,
}

/// A successful login.
#[derive(Clone, Debug)]
pub struct LoginResponse {
    /// The bearer token for later calls.
    pub token: String,
    /// The account identifier.
    pub user_id: String,
}

/// One tunnel instance of the account.
#[derive(Clone, Debug)]
pub struct Instance {
    /// The instance identifier.
    pub id: String,
    /// The instance's display name.
    pub name: String,
    /// The local port the instance forwards.
    pub local_port: u16,
    /// The region of the serving host.
    pub server_region: String,
    /// The instance's lifecycle state, as reported.
    pub status: String,
    /// The public URL, when the instance is connected.
    pub public_url: Option<String>,
}

/// The list of an account's instances.
#[derive(Clone, Debug)]
pub struct InstancesResponse {
    /// The instances, in the order the management plane returned them.
    pub instances: Vec<Instance>,
}

/// What a client needs to open the tunnel of one instance.
#[derive(Clone, Debug)]
pub struct ConnectionInfo {
    /// The instance this connection belongs to.
    pub instance_id: String,
    /// The managed key to authenticate with.
    pub tunnel_token: String,
    /// The tunnel server to dial.
    pub server_host: String,
    /// The local port to forward.
    pub local_port: u16,
    /// The public port assigned on the server.
    pub remote_port: u16,
    /// How long the token stays valid, in seconds.
    pub ttl: u64,
}

/// Credentials stored on behalf of a logged-in user.
#[derive(Clone, Debug)]
pub struct Credentials {
    /// The management-plane endpoint the credentials belong to.
    pub api_endpoint: String,
    /// The bearer token.
    pub auth_token: String,
    /// The account identifier.
    pub user_id: String,
}

impl Credentials {
    /// Bundles an endpoint, a token and a user id into credentials.
    pub fn new(api_endpoint: String, auth_token: String, user_id: String) -> (r: Credentials)
        ensures
            r.api_endpoint@ == api_endpoint@,
            r.auth_token@ == auth_token@,
            r.user_id@ == user_id@,
    {
        Credentials { api_endpoint, auth_token, user_id }
    }
}

/// The index of the instance a name-or-id refers to: the first instance
/// whose id matches, else the first whose name matches, else none.
pub fn find_instance(instances: &Vec<Instance>, name_or_id: &String) -> (r: Option<usize>)
    ensures
        match r {
            Some(i) => {
                &&& i < instances@.len()
                &&& (instances@[i as int].id@ == name_or_id@ && (forall|j: int|
                    0 <= j < i ==> (#[trigger] instances@[j]).id@ != name_or_id@)) || (
                instances@[i as int].name@ == name_or_id@ && (forall|j: int|
                    0 <= j < instances@.len() ==> (#[trigger] instances@[j]).id@ != name_or_id@)
                    && (forall|j: int|
                    0 <= j < i ==> (#[trigger] instances@[j]).name@ != name_or_id@))
            },
            None => forall|j: int|
                0 <= j < instances@.len() ==> (#[trigger] instances@[j]).id@ != name_or_id@ && (
                #[trigger] instances@[j]).name@ != name_or_id@,
        },
{
    let n = instances.len();
    let mut i: usize = 0;
    while i < n
        invariant
            n == instances@.len(),
            i <= n,
            forall|j: int| 0 <= j < i ==> (#[trigger] instances@[j]).id@ != name_or_id@,
        decreases n - i,
    {
        if instances[i].id == *name_or_id {
            return Some(i);
        }
        i = i + 1;
    }
    let mut k: usize = 0;
    while k < n
        invariant
            n == instances@.len(),
            k <= n,
            forall|j: int| 0 <= j < n ==> (#[trigger] instances@[j]).id@ != name_or_id@,
            forall|j: int| 0 <= j < k ==> (#[trigger] instances@[j]).name@ != name_or_id@,
        decreases n - k,
    {
        if instances[k].name == *name_or_id {
            return Some(k);
        }
        k = k + 1;
    }
    None
}

} // verus!
