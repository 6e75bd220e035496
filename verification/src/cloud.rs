//! What is said to the cloud service and what it answers: the requests and
//! responses, the address of each operation, and the text of a failure.

use vstd::prelude::*;
use vstd::string::StringExecFns;

verus! {

/// Asks for a new cloud instance.
#[derive(Debug)]
pub struct CloudInitRequest {
    pub instance_type: String,
}

/// The cloud instance that was set up.
#[derive(Debug)]
pub struct CloudInitResponse {
    pub instance_id: String,
    pub deployment_key: String,
    pub api_key: String,
    pub expires_at: String,
}

/// Asks for an image to be deployed to an instance.
#[derive(Debug)]
pub struct CloudDeployRequest {
    pub instance_id: String,
    pub deployment_key: String,
    pub docker_image: String,
    pub region: String,
}

/// The application that was deployed.
#[derive(Debug)]
pub struct CloudDeployResponse {
    pub app_name: String,
    pub app_url: String,
    pub status: String,
}

/// Asks for an instance to be tied to the account of the caller.
#[derive(Debug)]
pub struct CloudClaimRequest {
    pub instance_id: String,
    pub deployment_key: String,
}

/// How a cloud instance is doing.
#[derive(Debug)]
pub struct CloudStatusResponse {
    pub instance_id: String,
    pub status: String,
    pub app_name: Option<String>,
    pub app_url: Option<String>,
}

/// An operation of the cloud service.
#[derive(Debug, Clone, Copy, PartialEq, Eq, Structural)]
pub enum CloudOperation {
    Init,
    Deploy,
    Claim,
    Status,
}

impl CloudInitRequest {
    /// The request for an instance of the free kind.
    pub fn free() -> (request: CloudInitRequest)
        ensures
            request.instance_type@ == "free"@,
    {
        CloudInitRequest { instance_type: String::from_str("free") }
    }
}

impl CloudDeployRequest {
    /// The request to deploy `docker_image` to the instance in `region`.
    pub fn new(instance_id: &str, deployment_key: &str, docker_image: &str, region: &str) -> (request:
        CloudDeployRequest)
        ensures
            request.instance_id@ == instance_id@,
            request.deployment_key@ == deployment_key@,
            request.docker_image@ == docker_image@,
            request.region@ == region@,
    {
        CloudDeployRequest {
            instance_id: String::from_str(instance_id),
            deployment_key: String::from_str(deployment_key),
            docker_image: String::from_str(docker_image),
            region: String::from_str(region),
        }
    }
}

impl CloudClaimRequest {
    /// The request to claim the instance.
    pub fn new(instance_id: &str, deployment_key: &str) -> (request: CloudClaimRequest)
        ensures
            request.instance_id@ == instance_id@,
            request.deployment_key@ == deployment_key@,
    {
        CloudClaimRequest {
            instance_id: String::from_str(instance_id),
            deployment_key: String::from_str(deployment_key),
        }
    }
}

/// The address of the cloud service where none is configured.
pub open spec fn spec_default_api_url() -> Seq<char> {
    "https://api.helix-db.com"@
}

/// The address of the cloud service: the configured one if there is one,
/// the public one if not.
pub fn base_url(configured: Option<String>) -> (url: String)
    ensures
        url@ == match configured {
            Some(given) => given@,
            None => spec_default_api_url(),
        },
{
    match configured {
        Some(given) => given,
        None => String::from_str("https://api.helix-db.com"),
    }
}

impl CloudOperation {
    /// The path of the operation below the address of the service. The
    /// status of an instance is asked for under the id of the instance.
    pub open spec fn spec_path(self, instance_id: Seq<char>) -> Seq<char> {
        match self {
            CloudOperation::Init => "/cloud/init"@,
            CloudOperation::Deploy => "/cloud/deploy"@,
            CloudOperation::Claim => "/cloud/claim"@,
            CloudOperation::Status => "/cloud/status/"@ + instance_id,
        }
    }

    /// What is said when the operation is refused.
    pub open spec fn spec_failure(self) -> Seq<char> {
        match self {
            CloudOperation::Init => "Failed to initialize cloud instance: "@,
            CloudOperation::Deploy => "Failed to deploy to cloud: "@,
            CloudOperation::Claim => "Failed to claim instance: "@,
            CloudOperation::Status => "Failed to get instance status: "@,
        }
    }

    /// The address of the operation at the service at `base`. Only the
    /// status operation looks at `instance_id`.
    pub fn url(self, base: &str, instance_id: &str) -> (url: String)
        ensures
            url@ == base@ + self.spec_path(instance_id@),
    {
        let start = String::from_str(base);
        let url = match self {
            CloudOperation::Init => start.concat("/cloud/init"),
            CloudOperation::Deploy => start.concat("/cloud/deploy"),
            CloudOperation::Claim => start.concat("/cloud/claim"),
            CloudOperation::Status => {
                let partial = start.concat("/cloud/status/");
                let full = partial.concat(instance_id);
                assert(full@ =~= base@ + ("/cloud/status/"@ + instance_id@));
                full
            },
        };
        url
    }

    /// The text of the error for a refusal of the operation: what failed,
    /// the status the service answered with, and what it said.
    pub fn failure(self, status: &str, said: &str) -> (text: String)
        ensures
            text@ == self.spec_failure() + status@ + " - "@ + said@,
    {
        let start = match self {
            CloudOperation::Init => String::from_str("Failed to initialize cloud instance: "),
            CloudOperation::Deploy => String::from_str("Failed to deploy to cloud: "),
            CloudOperation::Claim => String::from_str("Failed to claim instance: "),
            CloudOperation::Status => String::from_str("Failed to get instance status: "),
        };
        start.concat(status).concat(" - ").concat(said)
    }
}

/// The value of the authorization header for a token.
pub fn bearer(auth_token: &str) -> (value: String)
    ensures
        value@ == "Bearer "@ + auth_token@,
{
    String::from_str("Bearer ").concat(auth_token)
}

/// What stands for the answer of a service that refused and said nothing
/// readable.
pub fn said_or_unknown(said: Option<String>) -> (text: String)
    ensures
        text@ == match said {
            Some(given) => given@,
            None => "Unknown error"@,
        },
{
    match said {
        Some(given) => given,
        None => String::from_str("Unknown error"),
    }
}

} // verus!
