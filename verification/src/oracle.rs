//! The validation-oracle interface: the result an external authority returns
//! for an opaque key, the branch the server takes on it, and the retry
//! schedule of the best-effort usage reporter.

use vstd::prelude::*;
use vstd::utf8::valid_utf8;
use crate::auth::lemma_ascii_valid_utf8;
use crate::jsontext::{append_lit, ascii_bytes};
use crate::wire::{dec_rep, push_dec};

verus! {

/// How often a best-effort reporter call is attempted.
pub const RETRY_ATTEMPTS: usize = 3;

/// Base of the linear retry backoff, in milliseconds.
pub const RETRY_DELAY_MS: u64 = 300;

/// The delay before the next retry: linear in the attempt number.
pub fn retry_delay_ms(attempt: usize) -> (r: u64)
    requires
        attempt < RETRY_ATTEMPTS,
    ensures
        r == RETRY_DELAY_MS * (attempt + 1),
{
    RETRY_DELAY_MS * (attempt as u64 + 1)
}

/// What the validation oracle answered for an opaque key.
pub struct ValidateKeyResponse {
    /// Whether the key is recognised.
    pub valid: bool,
    /// The account the key belongs to.
    pub user_id: Option<Vec<u8>>,
    /// The account's mail address, if the oracle shares it.
    pub email: Option<Vec<u8>>,
    /// The account's plan, informational.
    pub plan_type: Option<Vec<u8>>,
    /// The concurrency cap granted to the account.
    pub max_concurrent_tunnels: Option<u32>,
    /// The bandwidth allowance, informational.
    pub max_bandwidth_gb: Option<u64>,
    /// Whether the account may open tunnels now.
    pub usage_allowed: bool,
    /// A message to surface to the client on denial.
    pub message: Option<Vec<u8>>,
    /// The managed instance this key is bound to, if any.
    pub instance_id: Option<Vec<u8>>,
}

impl ValidateKeyResponse {
    /// Every textual field is well-formed UTF-8.
    pub open spec fn wf(&self) -> bool {
        &&& (self.user_id matches Some(v) ==> valid_utf8(v@))
        &&& (self.email matches Some(v) ==> valid_utf8(v@))
        &&& (self.plan_type matches Some(v) ==> valid_utf8(v@))
        &&& (self.message matches Some(v) ==> valid_utf8(v@))
        &&& (self.instance_id matches Some(v) ==> valid_utf8(v@))
    }
}

/// The cap assumed when the oracle grants none.
pub const DEFAULT_MAX_TUNNELS: u32 = 5;

/// The identity and cap of the legacy shared-secret mode.
pub const LEGACY_MAX_TUNNELS: u32 = 999;

/// The user id under which legacy-mode connections are accounted.
pub fn legacy_user_id() -> (r: Vec<u8>)
    ensures
        r@ == ascii_bytes("legacy-user"@),
        valid_utf8(r@),
{
    let mut out: Vec<u8> = Vec::new();
    proof {
        reveal_strlit("legacy-user");
    }
    append_lit(&mut out, "legacy-user");
    proof {
        lemma_ascii_valid_utf8(out@);
    }
    out
}

/// The always-allow answer used when no oracle is configured.
pub fn disabled_validation() -> (r: ValidateKeyResponse)
    ensures
        r.valid,
        r.usage_allowed,
        r.user_id matches Some(u) && u@ == ascii_bytes("local-user"@),
        r.email is None,
        r.plan_type matches Some(p) && p@ == ascii_bytes("unlimited"@),
        r.max_concurrent_tunnels == Some(999u32),
        r.max_bandwidth_gb == Some(999999u64),
        r.message matches Some(m) && m@ == ascii_bytes("Backend validation disabled"@),
        r.instance_id is None,
        r.wf(),
{
    proof {
        reveal_strlit("local-user");
        reveal_strlit("unlimited");
        reveal_strlit("Backend validation disabled");
    }
    let mut user: Vec<u8> = Vec::new();
    append_lit(&mut user, "local-user");
    let mut plan: Vec<u8> = Vec::new();
    append_lit(&mut plan, "unlimited");
    let mut note: Vec<u8> = Vec::new();
    append_lit(&mut note, "Backend validation disabled");
    proof {
        lemma_ascii_valid_utf8(user@);
        lemma_ascii_valid_utf8(plan@);
        lemma_ascii_valid_utf8(note@);
    }
    ValidateKeyResponse {
        valid: true,
        user_id: Some(user),
        email: None,
        plan_type: Some(plan),
        max_concurrent_tunnels: Some(999),
        max_bandwidth_gb: Some(999999),
        usage_allowed: true,
        message: Some(note),
        instance_id: None,
    }
}

/// The denial recorded when the oracle answers with a non-success HTTP
/// status: invalid, no identity, and a message naming the status.
pub fn failed_status_validation(status: u16) -> (r: ValidateKeyResponse)
    ensures
        !r.valid,
        !r.usage_allowed,
        r.user_id is None,
        r.email is None,
        r.plan_type is None,
        r.max_concurrent_tunnels is None,
        r.max_bandwidth_gb is None,
        r.instance_id is None,
        r.message matches Some(m) && m@ == ascii_bytes("Backend error: "@) + dec_rep(status as nat),
        r.wf(),
{
    proof {
        reveal_strlit("Backend error: ");
    }
    let mut note: Vec<u8> = Vec::new();
    append_lit(&mut note, "Backend error: ");
    push_dec(&mut note, status as u64);
    proof {
        lemma_dec_rep_ascii(status as nat);
        lemma_ascii_valid_utf8(note@);
    }
    ValidateKeyResponse {
        valid: false,
        user_id: None,
        email: None,
        plan_type: None,
        max_concurrent_tunnels: None,
        max_bandwidth_gb: None,
        usage_allowed: false,
        message: Some(note),
        instance_id: None,
    }
}

/// Every byte of a decimal representation is an ASCII digit.
pub proof fn lemma_dec_rep_ascii(n: nat)
    ensures
        forall|i: int| 0 <= i < dec_rep(n).len() ==> dec_rep(n)[i] < 0x80,
{
    crate::wire::lemma_dec_rep_shape(n);
}

/// What the server does with an oracle answer.
pub enum ValidationDecision {
    /// Send the message as a terminal error and close.
    Deny(Vec<u8>),
    /// Record the identity and proceed to the port request.
    Admit {
        /// The account to charge the tunnel to.
        user_id: Vec<u8>,
        /// The concurrency cap granted at this admission.
        max_tunnels: u32,
        /// The managed instance to notify, if any.
        instance_id: Option<Vec<u8>>,
    },
}

/// The denial message for case `which` of an oracle answer `v`: the oracle's
/// own message where it gave one, else the stock text of that case.
pub open spec fn denial_text(v: ValidateKeyResponse, stock: Seq<char>) -> Seq<u8> {
    match v.message {
        Some(m) => m@,
        None => ascii_bytes(stock),
    }
}

/// The branch the server takes on an oracle answer: deny with the oracle's
/// message (or the stock text), deny an answer that claims validity without
/// an identity, or admit with the granted identity and cap.
pub fn validation_decision(v: ValidateKeyResponse) -> (r: ValidationDecision)
    requires
        v.wf(),
    ensures
        !v.valid ==> (r matches ValidationDecision::Deny(m) && m@ == denial_text(
            v,
            "Invalid API key"@,
        )),
        v.valid && !v.usage_allowed ==> (r matches ValidationDecision::Deny(m) && m@
            == denial_text(
            v,
            "Subscription expired or usage limit exceeded. Please visit the dashboard."@,
        )),
        v.valid && v.usage_allowed && v.user_id is None ==> (r matches ValidationDecision::Deny(m)
            && m@ == ascii_bytes(
            "Authentication service returned invalid data. Please contact support."@,
        )),
        (v.valid && v.usage_allowed && v.user_id is Some) ==> (r
            matches ValidationDecision::Admit { user_id, max_tunnels, instance_id } && {
            &&& user_id@ == v.user_id.unwrap()@
            &&& max_tunnels == (match v.max_concurrent_tunnels {
                Some(m) => m,
                None => DEFAULT_MAX_TUNNELS,
            })
            &&& (match (instance_id, v.instance_id) {
                (Some(a), Some(b)) => a@ == b@,
                (None, None) => true,
                _ => false,
            })
        }),
        r matches ValidationDecision::Deny(m) ==> valid_utf8(m@),
{
    if !v.valid {
        let m = match v.message {
            Some(m) => m,
            None => {
                proof {
                    reveal_strlit("Invalid API key");
                }
                let mut t: Vec<u8> = Vec::new();
                append_lit(&mut t, "Invalid API key");
                proof {
                    lemma_ascii_valid_utf8(t@);
                }
                t
            },
        };
        return ValidationDecision::Deny(m);
    }
    if !v.usage_allowed {
        let m = match v.message {
            Some(m) => m,
            None => {
                proof {
                    reveal_strlit(
                        "Subscription expired or usage limit exceeded. Please visit the dashboard.",
                    );
                }
                let mut t: Vec<u8> = Vec::new();
                append_lit(
                    &mut t,
                    "Subscription expired or usage limit exceeded. Please visit the dashboard.",
                );
                proof {
                    lemma_ascii_valid_utf8(t@);
                }
                t
            },
        };
        return ValidationDecision::Deny(m);
    }
    match v.user_id {
        None => {
            proof {
                reveal_strlit(
                    "Authentication service returned invalid data. Please contact support.",
                );
            }
            let mut t: Vec<u8> = Vec::new();
            append_lit(
                &mut t,
                "Authentication service returned invalid data. Please contact support.",
            );
            proof {
                lemma_ascii_valid_utf8(t@);
            }
            ValidationDecision::Deny(t)
        },
        Some(u) => {
            let cap = match v.max_concurrent_tunnels {
                Some(m) => m,
                None => DEFAULT_MAX_TUNNELS,
            };
            ValidationDecision::Admit { user_id: u, max_tunnels: cap, instance_id: v.instance_id }
        },
    }
}

} // verus!
