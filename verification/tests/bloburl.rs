use ublk_azblob::bloburl::{is_subdomain_host, parse_blob_url, BlobUrlError};

#[test]
fn parse_blob_url_azure_subdomain() {
    let r = parse_blob_url("https://myacct.blob.core.windows.net/images/golden/disk.vhd").unwrap();
    assert_eq!(r.service_url, "https://myacct.blob.core.windows.net");
    assert_eq!(r.account, "myacct");
    assert_eq!(r.container, "images");
    assert_eq!(r.blob, "golden/disk.vhd");
    assert_eq!(r.snapshot, None);
    assert_eq!(r.sas, None);
}

#[test]
fn parse_blob_url_azurite_path_style() {
    let r = parse_blob_url("http://127.0.0.1:10000/devstoreaccount1/images/golden/disk.vhd").unwrap();
    assert_eq!(r.service_url, "http://127.0.0.1:10000/devstoreaccount1");
    assert_eq!(r.account, "devstoreaccount1");
    assert_eq!(r.container, "images");
    assert_eq!(r.blob, "golden/disk.vhd");
}

#[test]
fn parse_blob_url_with_sas_and_snapshot() {
    let r = parse_blob_url(
        "https://myacct.blob.core.windows.net/c/b?snapshot=2024-01-02T03:04:05.0Z&sv=2022-11-02&sig=ABC%2Bdef&se=2030-01-01",
    )
    .unwrap();
    assert_eq!(r.account, "myacct");
    assert_eq!(r.container, "c");
    assert_eq!(r.blob, "b");
    assert_eq!(r.snapshot.as_deref(), Some("2024-01-02T03:04:05.0Z"));
    let sas = r.sas.expect("sas present");
    assert!(sas.contains("sig=ABC%2Bdef"));
    assert!(sas.contains("sv=2022-11-02"));
    assert!(!sas.contains("snapshot"));
}

#[test]
fn parse_blob_url_no_sig_means_no_sas() {
    // A bare query without a signature is not treated as a SAS token.
    let r = parse_blob_url("https://myacct.blob.core.windows.net/c/b?foo=bar").unwrap();
    assert_eq!(r.sas, None);
}

#[test]
fn parse_blob_url_custom_subdomain_host() {
    // A non-`.blob.` multi-label host (e.g. an Azurite custom subdomain) is
    // production style: the account is the first host label.
    let r = parse_blob_url(
        "http://devstoreaccount1.azurite.kube-system.svc.cluster.local:10000/c/blob/path",
    )
    .unwrap();
    assert_eq!(
        r.service_url,
        "http://devstoreaccount1.azurite.kube-system.svc.cluster.local:10000"
    );
    assert_eq!(r.account, "devstoreaccount1");
    assert_eq!(r.container, "c");
    assert_eq!(r.blob, "blob/path");
}

#[test]
fn is_subdomain_host_classification() {
    assert!(is_subdomain_host("myacct.blob.core.windows.net"));
    assert!(is_subdomain_host("devstoreaccount1.azurite.kube-system.svc.cluster.local"));
    // IP literals and single-label hosts are path-style.
    assert!(!is_subdomain_host("127.0.0.1"));
    assert!(!is_subdomain_host("azurite"));
    assert!(!is_subdomain_host("localhost"));
    assert!(!is_subdomain_host("[::1]"));
}

#[test]
fn ip_literals_are_told_from_names() {
    assert!(is_subdomain_host("1.2.3"));
    assert!(is_subdomain_host("1.2.3.256"));
    assert!(is_subdomain_host("01.2.3.4"));
    assert!(!is_subdomain_host("255.255.255.255"));
    assert!(!is_subdomain_host("[::ffff:1.2.3.4]"));
    assert!(!is_subdomain_host("[fe80::1]"));
    assert!(is_subdomain_host("[1.2"));
}

#[test]
fn parse_blob_url_rejects_incomplete() {
    assert!(parse_blob_url("https://myacct.blob.core.windows.net/onlycontainer").is_err());
    assert!(parse_blob_url("http://127.0.0.1:10000/acct/onlycontainer").is_err());
    assert!(parse_blob_url("not a url").is_err());
}

#[test]
fn blob_url_faults_are_named() {
    assert_eq!(parse_blob_url("not a url").unwrap_err(), BlobUrlError::NotAUrl);
    assert_eq!(parse_blob_url("mailto:x").unwrap_err(), BlobUrlError::NoHost);
    assert_eq!(
        parse_blob_url("https://a.b.net/c").unwrap_err(),
        BlobUrlError::MissingBlobPath
    );
    assert_eq!(
        parse_blob_url("http://localhost/a/c").unwrap_err(),
        BlobUrlError::MissingAccountPath
    );
    assert_eq!(BlobUrlError::NoHost.message("data:x"), "blob URL has no host");
    assert_eq!(BlobUrlError::NotAUrl.message("x"), "parse blob URL: x");
    assert_eq!(
        BlobUrlError::MissingBlobPath.message("https://a.b/c"),
        "blob URL missing container/blob path: https://a.b/c"
    );
    assert_eq!(
        BlobUrlError::MissingAccountPath.message("http://localhost/a/c"),
        "blob URL missing account/container/blob path: http://localhost/a/c"
    );
}

#[test]
fn a_signature_makes_a_sas() {
    let b = parse_blob_url("https://a.b.net/c/d?snapshot=t&sv=1&sig=x%2By").unwrap();
    assert_eq!(b.snapshot.as_deref(), Some("t"));
    assert_eq!(b.sas.as_deref(), Some("sv=1&sig=x%2By"));
    assert!(parse_blob_url("https://a.b.net/c/d?sv=1").unwrap().sas.is_none());
}
