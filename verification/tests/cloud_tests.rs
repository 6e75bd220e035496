use helix_db::cloud::{
    base_url, bearer, said_or_unknown, CloudClaimRequest, CloudDeployRequest, CloudInitRequest,
    CloudOperation,
};

#[test]
fn init_request_asks_for_the_free_kind() {
    assert_eq!(CloudInitRequest::free().instance_type, "free");
}

#[test]
fn deploy_request_carries_its_arguments() {
    let r = CloudDeployRequest::new("i-1", "key", "registry/img:tag", "us-east-1");
    assert_eq!(r.instance_id, "i-1");
    assert_eq!(r.deployment_key, "key");
    assert_eq!(r.docker_image, "registry/img:tag");
    assert_eq!(r.region, "us-east-1");
}

#[test]
fn claim_request_carries_its_arguments() {
    let r = CloudClaimRequest::new("i-2", "k2");
    assert_eq!(r.instance_id, "i-2");
    assert_eq!(r.deployment_key, "k2");
}

#[test]
fn base_url_falls_back_to_the_public_service() {
    assert_eq!(base_url(None), "https://api.helix-db.com");
    assert_eq!(base_url(Some("http://localhost:9".to_string())), "http://localhost:9");
    assert_eq!(base_url(Some(String::new())), "");
}

#[test]
fn urls_of_the_operations() {
    let base = "https://api.helix-db.com";
    assert_eq!(CloudOperation::Init.url(base, ""), "https://api.helix-db.com/cloud/init");
    assert_eq!(CloudOperation::Deploy.url(base, "x"), "https://api.helix-db.com/cloud/deploy");
    assert_eq!(CloudOperation::Claim.url(base, "x"), "https://api.helix-db.com/cloud/claim");
    assert_eq!(
        CloudOperation::Status.url(base, "i-77"),
        "https://api.helix-db.com/cloud/status/i-77"
    );
    assert_eq!(CloudOperation::Status.url("", ""), "/cloud/status/");
}

#[test]
fn failure_texts_of_the_operations() {
    assert_eq!(
        CloudOperation::Init.failure("500 Internal Server Error", "boom"),
        "Failed to initialize cloud instance: 500 Internal Server Error - boom"
    );
    assert_eq!(
        CloudOperation::Deploy.failure("404 Not Found", ""),
        "Failed to deploy to cloud: 404 Not Found - "
    );
    assert_eq!(
        CloudOperation::Claim.failure("401 Unauthorized", "no"),
        "Failed to claim instance: 401 Unauthorized - no"
    );
    assert_eq!(
        CloudOperation::Status.failure("403 Forbidden", "Unknown error"),
        "Failed to get instance status: 403 Forbidden - Unknown error"
    );
}

#[test]
fn bearer_header_value() {
    assert_eq!(bearer("abc"), "Bearer abc");
    assert_eq!(bearer(""), "Bearer ");
}

#[test]
fn unreadable_answer_is_an_unknown_error() {
    assert_eq!(said_or_unknown(None), "Unknown error");
    assert_eq!(said_or_unknown(Some("quota".to_string())), "quota");
}
