use ublk_azblob::auth::{AuthConfig, AuthError, ClientPlan, UserAssignedIdentity};
use ublk_azblob::backend::mem::MemBackend;
use ublk_azblob::backend::BlobBackend;
use ublk_azblob::bloburl::{parse_blob_url, BlobUrlError};
use ublk_azblob::cli::StorageArgs;
use ublk_azblob::csi::node::NodeService;
use ublk_azblob::device::{
    auth_message, buffers_writes, cache_file_name, cache_setting, copy_size, driver_config, lease_names,
    node_name, build_azure_backend, plan_template_source, read_only, ublk_config, warmup_limit, Cli,
    Location, LocationError,
};
use ublk_azblob::import::{image_size, import_image, round_up, ImportError};
use ublk_azblob::table::Table;

fn table(v: &[(&str, &str)]) -> Table {
    Table::of(v.iter().map(|(a, b)| (a.to_string(), b.to_string())).collect())
}

fn cli() -> Cli {
    Cli {
        blob_url: None,
        snapshot: None,
        account_key: None,
        sas_token: None,
        msi: false,
        msi_client_id: None,
        msi_object_id: None,
        msi_resource_id: None,
        workload_identity: false,
        azure_client_id: None,
        azure_tenant_id: None,
        azure_federated_token_file: None,
        azure_client_secret: None,
    }
}

fn text(s: &str) -> Option<String> {
    Some(s.to_string())
}

// ── Import ──────────────────────────────────────────────────────────────────

#[test]
fn round_up_works() {
    assert_eq!(round_up(0, 512), 0);
    assert_eq!(round_up(1, 512), 512);
    assert_eq!(round_up(512, 512), 512);
    assert_eq!(round_up(513, 512), 1024);
}

#[test]
fn import_writes_archive_to_backend() {
    let mut b = MemBackend::new(512).unwrap();
    let tar: Vec<u8> = (0..700u32).map(|i| (i % 251) as u8).collect();
    let snap = import_image(&mut b, tar.clone(), None, false).unwrap();
    assert!(snap.is_none());
    let size = b.size().unwrap();
    assert_eq!(size, 1024);
    let data = b.read(0, size).unwrap();
    assert_eq!(&data[..700], &tar[..]);
    assert!(data[700..].iter().all(|&x| x == 0));
}

#[test]
fn import_rejects_too_small_size() {
    let mut b = MemBackend::new(512).unwrap();
    match import_image(&mut b, vec![0u8; 64 * 1024], Some(512), false) {
        Err(ImportError::TooSmall { size: 512, needed: 65536 }) => {}
        _ => panic!("the archive does not fit"),
    }
}

#[test]
fn import_rejects_unaligned_size() {
    let mut b = MemBackend::new(512).unwrap();
    match import_image(&mut b, vec![1u8], Some(1000), false) {
        Err(ImportError::Misaligned { size: 1000 }) => {}
        _ => panic!("not a multiple of 512"),
    }
    // A store without snapshots fails in that step.
    assert!(matches!(
        import_image(&mut b, vec![1u8], None, true),
        Err(ImportError::Snapshot(_))
    ));
    assert_eq!(image_size(0, None).unwrap(), 512);
    assert_eq!(image_size(10, Some(2048)).unwrap(), 2048);
}

// ── The blob ────────────────────────────────────────────────────────────────

#[test]
fn a_blob_url_selects_the_blob() {
    let mut c = cli();
    c.blob_url = text("https://a.blob.core.windows.net/c/d/b?snapshot=s1&sig=x");
    let env = table(&[("AZURE_STORAGE_SNAPSHOT", "s3")]);
    let l = c.location(&env).unwrap();
    assert_eq!(l.endpoint, "https://a.blob.core.windows.net/");
    assert_eq!((l.account.as_str(), l.container.as_str(), l.blob.as_str()), ("a", "c", "d/b"));
    assert_eq!(l.snapshot.as_deref(), Some("s1"));
    assert_eq!(l.sas.as_deref(), Some("sig=x"));
    c.snapshot = text("s2");
    c.sas_token = text("sig=y");
    let l = c.location(&env).unwrap();
    assert_eq!(l.snapshot.as_deref(), Some("s2"));
    assert_eq!(l.sas.as_deref(), Some("sig=y"));
    c.blob_url = text("nowhere");
    let e = c.location(&env).unwrap_err();
    assert_eq!(e, LocationError::BlobUrl(BlobUrlError::NotAUrl));
    assert_eq!(e.message("nowhere"), "parse --blob-url: parse blob URL: nowhere");
}

#[test]
fn the_environment_selects_the_blob() {
    let c = cli();
    assert_eq!(c.location(&table(&[])).unwrap_err(), LocationError::MissingBlob);
    assert_eq!(
        c.location(&table(&[("AZURE_STORAGE_BLOB", "b")])).unwrap_err(),
        LocationError::MissingAccount
    );
    assert_eq!(
        c.location(&table(&[("AZURE_STORAGE_BLOB", "b"), ("AZURE_STORAGE_ACCOUNT", "a")]))
            .unwrap_err(),
        LocationError::MissingContainer
    );
    let l = c
        .location(&table(&[
            ("AZURE_STORAGE_BLOB", "b"),
            ("AZURE_STORAGE_ACCOUNT", "a"),
            ("AZURE_STORAGE_CONTAINER", "c"),
            ("AZURE_STORAGE_ENDPOINT", "http://%s.blob.localhost:10000//"),
        ]))
        .unwrap();
    assert_eq!(l.endpoint, "http://a.blob.localhost:10000/");
    assert!(l.snapshot.is_none());
}

#[test]
fn a_child_environment_leads_to_its_blob() {
    let config = driver_config(
        &Cli { account_key: text("a2V5"), ..cli() },
        "acct".to_string(),
        "cont".to_string(),
        None,
        false,
        "127.0.0.1".to_string(),
        10809,
    );
    assert_eq!(config.endpoint, "https://acct.blob.core.windows.net/");
    let node = NodeService::new("n".to_string(), config);
    let env = node.child_env(&table(&[("blob", "x/y")]), &table(&[]), &None).unwrap();
    let l = cli().location(&env).unwrap();
    assert_eq!((l.account.as_str(), l.container.as_str(), l.blob.as_str()), ("acct", "cont", "x/y"));
    assert!(l.snapshot.is_none());
}

// ── Credentials ─────────────────────────────────────────────────────────────

#[test]
fn credentials_have_an_order() {
    let mut c = cli();
    assert!(matches!(c.build_auth("a", &None), Err(AuthError::NotConfigured)));
    c.azure_tenant_id = text("t");
    c.azure_client_id = text("i");
    c.azure_client_secret = text("s");
    assert!(matches!(c.build_auth("a", &None), Ok(AuthConfig::ServicePrincipal { .. })));
    c.msi_object_id = text("o");
    c.msi_resource_id = text("r");
    assert!(matches!(
        c.build_auth("a", &None),
        Ok(AuthConfig::Msi(Some(UserAssignedIdentity::ObjectId(_))))
    ));
    c.workload_identity = true;
    assert!(matches!(c.build_auth("a", &None), Ok(AuthConfig::WorkloadIdentity { .. })));
    c.account_key = text("k");
    match c.build_auth("a", &None).unwrap() {
        AuthConfig::SharedKey { account_name, account_key } => {
            assert_eq!((account_name.as_str(), account_key.as_str()), ("a", "k"))
        }
        _ => panic!("a key comes before identities"),
    }
    assert!(matches!(c.build_auth("a", &text("sig=x")), Ok(AuthConfig::Sas { .. })));
    let mut m = cli();
    m.msi = true;
    assert!(matches!(m.build_auth("a", &None), Ok(AuthConfig::Msi(None))));
}

#[test]
fn tools_select_their_store() {
    let mut s = StorageArgs {
        account: "a".to_string(),
        container: "c".to_string(),
        blob: "b".to_string(),
        endpoint: None,
        account_key: None,
        msi: false,
        msi_client_id: text("id"),
        msi_object_id: None,
        msi_resource_id: None,
    };
    assert_eq!(s.endpoint(), "https://a.blob.core.windows.net/");
    let plan = s.build_backend().unwrap();
    assert!(matches!(plan.client, ClientPlan::Service { .. }));
    s.msi_client_id = None;
    assert!(matches!(s.build_auth(), Err(AuthError::NotConfigured)));
    assert!(s.build_backend().is_err());
    s.endpoint = text("http://127.0.0.1:10000/a");
    s.account_key = text("a2V5");
    assert_eq!(s.endpoint(), "http://127.0.0.1:10000/a");
    assert!(matches!(s.build_backend().unwrap().client, ClientPlan::SharedKey { .. }));
}

// ── Running ─────────────────────────────────────────────────────────────────

fn location() -> Location {
    Location {
        endpoint: "https://a.blob.core.windows.net/".to_string(),
        account: "a".to_string(),
        container: "c".to_string(),
        blob: "d/B.vhd".to_string(),
        snapshot: None,
        sas: None,
    }
}

#[test]
fn a_snapshot_is_read_only() {
    let mut l = location();
    assert_eq!(read_only(&l, true), Ok(false));
    l.snapshot = text("s");
    assert_eq!(read_only(&l, false), Ok(true));
    assert_eq!(
        read_only(&l, true).unwrap_err().message(),
        "--create cannot be used against a snapshot (read-only)"
    );
    assert!(buffers_writes(false, 4096));
    assert!(!buffers_writes(true, 4096));
    assert!(!buffers_writes(false, 0));
    let plan = build_azure_backend(&l, AuthConfig::Msi(None)).unwrap();
    assert_eq!(plan.snapshot.as_deref(), Some("s"));
    let u = ublk_config(4096, 2, 32, -1);
    assert_eq!((u.block_size, u.dev_size, u.nr_queues, u.queue_depth, u.id), (512, 4096, 2, 32, -1));
}

#[test]
fn caches_are_named_safely() {
    assert_eq!(cache_file_name("c", "d/B.vhd"), "c-d_B_vhd");
    assert_eq!(cache_setting(&None, &location()), "c-d_B_vhd");
    assert_eq!(cache_setting(&text("../x"), &location()), "___x");
    assert_eq!(warmup_limit(0, 0, 100), 100);
    assert_eq!(warmup_limit(0, 50, 100), 50);
    assert_eq!(warmup_limit(30, 50, 100), 30);
    assert_eq!(warmup_limit(300, 50, 100), 100);
}

#[test]
fn templates_are_read_with_their_own_sas() {
    let c = Cli { account_key: text("a2V5"), ..cli() };
    let own = parse_blob_url("https://g.blob.core.windows.net/c/b?sig=x").unwrap();
    assert!(matches!(plan_template_source(&c, &own).unwrap().client, ClientPlan::Sas { .. }));
    let shared = parse_blob_url("https://g.blob.core.windows.net/c/b").unwrap();
    match plan_template_source(&c, &shared).unwrap().client {
        ClientPlan::SharedKey { container_url, .. } => {
            assert_eq!(container_url, "https://g.blob.core.windows.net/c")
        }
        _ => panic!("the key signs"),
    }
    assert_eq!(copy_size(1000, 0), Some(1024));
    assert_eq!(copy_size(1000, 5000), Some(5120));
    assert_eq!(copy_size(0, 0), Some(512));
    assert_eq!(copy_size(u64::MAX, 0), None);
}

#[test]
fn names_fall_back_in_order() {
    let env = table(&[("HOSTNAME", "host"), ("POD_NAMESPACE", "")]);
    let n = lease_names(&location(), text(""), None, None, &env);
    assert_eq!((n.holder.as_str(), n.namespace.as_str()), ("host", "default"));
    assert_eq!(n.name, "c-d-b.vhd");
    let n = lease_names(&location(), text("h"), text("ns"), text("l"), &env);
    assert_eq!((n.holder.as_str(), n.namespace.as_str(), n.name.as_str()), ("h", "ns", "l"));
    assert_eq!(node_name(String::new(), &env), "host");
    assert_eq!(node_name(String::new(), &table(&[])), "unknown-node");
    assert_eq!(node_name("x".to_string(), &env), "x");
}

#[test]
fn missing_credentials_are_named_in_full() {
    assert_eq!(
        auth_message(AuthError::NotConfigured, "", ""),
        "No auth method specified. Use --account-key for Azurite/dev, \
         --workload-identity for AKS (federated token), \
         --msi / --msi-client-id for Managed Identity, \
         or AZURE_CLIENT_ID + AZURE_TENANT_ID + AZURE_CLIENT_SECRET for a service principal."
    );
    assert_eq!(
        auth_message(AuthError::BadContainerUrl, "http://h/", "c"),
        "parse container URL: http://h/c"
    );
    assert_eq!(
        AuthError::NotConfigured.message("", ""),
        "no auth configured: provide an account key (secret 'accountKey' or \
         --account-key), enable Workload Identity (--workload-identity), \
         enable Managed Identity (--msi / --msi-client-id), \
         or a service principal (AZURE_CLIENT_ID / AZURE_TENANT_ID / AZURE_CLIENT_SECRET)"
    );
    assert_eq!(AuthError::BadServiceUrl.message("::", "c"), "parse service URL: ::");
}
