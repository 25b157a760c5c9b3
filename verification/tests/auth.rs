use ublk_azblob::auth::{
    bearer, canonicalized_headers, dated, needs_date, build_container_client, build_pipeline, uses_token,
    AuthConfig, AuthError, ClientPlan, PipelinePlan, SasPolicy, SharedKeyPolicy,
    UserAssignedIdentity,
};

fn pairs(v: &[(&str, &str)]) -> Vec<(String, String)> {
    v.iter().map(|(a, b)| (a.to_string(), b.to_string())).collect()
}

#[test]
fn canonicalized_resource_azurite_includes_account_in_path() {
    // Azurite URLs carry the account as the first path segment, so the
    // canonicalized resource contains it twice: this is what Azurite's own
    // SharedKey signing expects.
    let resource = SharedKeyPolicy::canonicalized_resource(
        "devstoreaccount1",
        "http://127.0.0.1:10000/devstoreaccount1/mycontainer/myblob",
    )
    .unwrap();
    assert_eq!(resource, "/devstoreaccount1/devstoreaccount1/mycontainer/myblob");
}

#[test]
fn canonicalized_resource_keeps_normal_storage_paths() {
    let resource = SharedKeyPolicy::canonicalized_resource(
        "devstoreaccount1",
        "https://devstoreaccount1.blob.core.windows.net/mycontainer/myblob",
    )
    .unwrap();
    assert_eq!(resource, "/devstoreaccount1/mycontainer/myblob");
}

#[test]
fn canonicalized_resource_sorts_and_lowers_the_query() {
    let resource = SharedKeyPolicy::canonicalized_resource(
        "acct",
        "https://acct.blob.core.windows.net/c/b?Timeout=30&comp=page&a=%2B",
    )
    .unwrap();
    assert_eq!(resource, "/acct/c/b\na:+\ncomp:page\ntimeout:30");
    assert_eq!(SharedKeyPolicy::canonicalized_resource("acct", "no url"), None);
}

#[test]
fn canonicalized_headers_keep_only_ms_headers_in_order() {
    let h = pairs(&[
        ("x-ms-version", "2021-08-06"),
        ("content-length", "0"),
        ("x-ms-date", "Mon, 01 Jan 2024 00:00:00 GMT"),
    ]);
    assert_eq!(
        canonicalized_headers(&h),
        "x-ms-date:Mon, 01 Jan 2024 00:00:00 GMT\nx-ms-version:2021-08-06"
    );
    assert!(!needs_date(&h));
    assert!(needs_date(&pairs(&[("content-length", "0")])));
}

#[test]
fn sas_policy_merges_query_and_preserves_existing() {
    let sas = SasPolicy::new("?sv=2021-08-06&ss=b&sig=abc%2Bdef%3D&se=2030-01-01T00%3A00%3A00Z");

    // The request URL already carries `comp` and `snapshot`; those must survive.
    let existing = pairs(&[("comp", "page"), ("snapshot", "2020-01-01T00:00:00Z")]);
    let mut all = existing.clone();
    all.extend(sas.to_add(&existing));
    let get = |k: &str| all.iter().find(|p| p.0 == k).map(|p| p.1.as_str());

    // Pre-existing keys are preserved with their original values.
    assert_eq!(get("comp"), Some("page"));
    assert_eq!(get("snapshot"), Some("2020-01-01T00:00:00Z"));
    // SAS pairs are merged in.
    assert_eq!(get("sv"), Some("2021-08-06"));
    assert_eq!(get("ss"), Some("b"));
    assert_eq!(get("sig"), Some("abc+def="));
    assert_eq!(get("se"), Some("2030-01-01T00:00:00Z"));
}

#[test]
fn a_sas_does_not_repeat_a_parameter() {
    let sas = SasPolicy::new("comp=x&sig=y");
    assert_eq!(sas.to_add(&pairs(&[("comp", "page")])), pairs(&[("sig", "y")]));
}

#[test]
fn shared_key_signature_of_a_known_text() {
    // HMAC-SHA256 with the key "key" of the well-known test sentence.
    let p = SharedKeyPolicy::new("acct".to_string(), "a2V5".to_string()).unwrap();
    assert_eq!(
        p.authorize("The quick brown fox jumps over the lazy dog"),
        "SharedKey acct:97yD9DBThCSxMpjmqm+xQ+9NWaFJRhdZl0edvC0aPNg="
    );
    assert!(matches!(
        SharedKeyPolicy::new("acct".to_string(), "not base64!".to_string()),
        Err(AuthError::BadAccountKey)
    ));
}

#[test]
fn the_signed_text_has_its_parts_in_order() {
    let p = SharedKeyPolicy::new("acct".to_string(), "a2V5".to_string()).unwrap();
    let headers = pairs(&[
        ("content-length", "0"),
        ("content-type", "text/plain"),
        ("range", "bytes=0-511"),
        ("x-ms-date", "D"),
    ]);
    let text = p.string_to_sign("get", &headers, "/c/b", &pairs(&[("comp", "page")]));
    assert_eq!(text, "GET\n\n\n\n\ntext/plain\n\n\n\n\n\nbytes=0-511\nx-ms-date:D\n/acct/c/b\ncomp:page");
    let longer = p.string_to_sign("PUT", &pairs(&[("content-length", "512")]), "/c/b", &pairs(&[]));
    assert_eq!(longer, "PUT\n\n\n512\n\n\n\n\n\n\n\n\n\n/acct/c/b");
    assert_eq!(
        p.sign("get", &headers, "https://acct.blob.core.windows.net/c/b?comp=page"),
        Some(p.authorize(&text))
    );
    assert_eq!(p.sign("get", &headers, "nowhere"), None);
}

#[test]
fn clients_follow_the_auth_mode() {
    let key = AuthConfig::SharedKey { account_name: "a".to_string(), account_key: "a2V5".to_string() };
    match build_container_client("http://127.0.0.1:10000/a/", "c", &key).unwrap() {
        ClientPlan::SharedKey { container_url, .. } => {
            assert_eq!(container_url, "http://127.0.0.1:10000/a/c")
        }
        _ => panic!("a key signs"),
    }
    let sas = AuthConfig::Sas { sas_token: "sig=x".to_string() };
    match build_container_client("https://a.blob.core.windows.net", "c", &sas).unwrap() {
        ClientPlan::Sas { container_url, policy } => {
            assert_eq!(container_url, "https://a.blob.core.windows.net/c");
            assert_eq!(policy.pairs, pairs(&[("sig", "x")]));
        }
        _ => panic!("a SAS is appended"),
    }
    let msi = AuthConfig::Msi(Some(UserAssignedIdentity::ClientId("id".to_string())));
    assert!(matches!(
        build_container_client("https://a.blob.core.windows.net", "c", &msi),
        Ok(ClientPlan::Service { .. })
    ));
    assert!(matches!(build_container_client("::", "c", &msi), Err(AuthError::BadServiceUrl)));
    let bad = AuthConfig::SharedKey { account_name: "a".to_string(), account_key: "!".to_string() };
    assert!(matches!(
        build_container_client("https://a.blob.core.windows.net", "c", &bad),
        Err(AuthError::BadAccountKey)
    ));
    assert!(uses_token(&msi));
    assert!(!uses_token(&key));
    assert!(!uses_token(&sas));
    assert!(matches!(build_pipeline(&msi), Ok(PipelinePlan::Bearer)));
    assert!(matches!(build_pipeline(&key), Ok(PipelinePlan::SharedKey(_))));
    assert!(matches!(build_pipeline(&sas), Ok(PipelinePlan::Sas(_))));
    assert!(matches!(build_pipeline(&bad), Err(AuthError::BadAccountKey)));
    assert_eq!(bearer("t"), "Bearer t");
}

#[test]
fn requests_are_dated_and_signed() {
    let h = dated(&pairs(&[("content-length", "0")]), 0);
    assert_eq!(h[1], ("x-ms-date".to_string(), "Thu, 01 Jan 1970 00:00:00 GMT".to_string()));
    // The example date of the documentation.
    assert_eq!(dated(&pairs(&[]), 1136214245)[0].1, "Mon, 02 Jan 2006 15:04:05 GMT");
    let own = pairs(&[("x-ms-date", "D")]);
    assert_eq!(dated(&own, 0), own);
    let p = SharedKeyPolicy::new("acct".to_string(), "a2V5".to_string()).unwrap();
    let url = "https://acct.blob.core.windows.net/c/b";
    let sent = p.send("GET", &own, url, 0).unwrap();
    assert_eq!(sent.len(), 2);
    assert_eq!(sent[1].0, "authorization");
    assert_eq!(Some(sent[1].1.clone()), p.sign("GET", &own, url));
    assert!(p.send("GET", &own, "nowhere", 0).is_none());
}
