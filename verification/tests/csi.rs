use ublk_azblob::auth::{AuthConfig, ClientPlan};
use ublk_azblob::backend::mem::MemBackend;
use ublk_azblob::backend::{smoke_test, BackendError, BlobBackend, SmokeTest};
use ublk_azblob::import::import_image;
use ublk_azblob::csi::controller::{
    expand_template, sanitize_path, ControllerCapability, ControllerService, CreateStep,
    CreateVolumeRequest, TemplateStep,
};
use ublk_azblob::csi::identity::{IdentityService, PluginCapability};
use ublk_azblob::csi::node::{
    publish_step, AccessType, NodePublishVolumeRequest, NodeService, PublishEvent, PublishState,
};
use ublk_azblob::csi::state::{is_state_file, state_dir, state_file};
use ublk_azblob::csi::{
    account_endpoint, copy_blob_streamed, copy_mode, listen_address, make_volume_id,
    make_volume_id_ro, parse_volume_id, round_up_512, Code, CopyMode, DriverConfig, Listen, Role,
};
use ublk_azblob::paths::file_name_of;
use ublk_azblob::table::Table;

fn table(v: &[(&str, &str)]) -> Table {
    Table::of(v.iter().map(|(a, b)| (a.to_string(), b.to_string())).collect())
}

fn test_config() -> DriverConfig {
    DriverConfig {
        account: "devstoreaccount1".to_string(),
        endpoint: "http://127.0.0.1:10000/devstoreaccount1".to_string(),
        default_container: "vols".to_string(),
        account_key: Some("a2V5".to_string()),
        use_msi: false,
        msi_client_id: None,
        use_workload_identity: false,
        workload_identity_client_id: None,
        workload_identity_tenant_id: None,
        workload_identity_token_file: None,
        sp_tenant_id: None,
        sp_client_id: None,
        sp_client_secret: None,
        use_nbd: false,
        nbd_host: "127.0.0.1".to_string(),
        nbd_port_start: 10900,
    }
}

// ── Ids, roles, addresses ───────────────────────────────────────────────────

#[test]
fn volume_id_roundtrip() {
    let id = make_volume_id("myaccount", "mycontainer", "pvc-abc/data.vhd");
    assert_eq!(id, "myaccount/mycontainer/pvc-abc/data.vhd");
    let (ro, a, c, b) = parse_volume_id(&id).unwrap();
    assert!(!ro);
    assert_eq!(a, "myaccount");
    assert_eq!(c, "mycontainer");
    assert_eq!(b, "pvc-abc/data.vhd");
}

#[test]
fn volume_id_ro_roundtrip() {
    let id = make_volume_id_ro("acct", "cont", "golden/img.vhd");
    assert_eq!(id, "ro:acct/cont/golden/img.vhd");
    let (ro, a, c, b) = parse_volume_id(&id).unwrap();
    assert!(ro);
    assert_eq!(a, "acct");
    assert_eq!(c, "cont");
    assert_eq!(b, "golden/img.vhd");
}

#[test]
fn volume_id_rejects_malformed() {
    assert!(parse_volume_id("nocontainer").is_err());
    assert!(parse_volume_id("account/container").is_err());
    assert!(parse_volume_id("/container/blob").is_err());
    assert!(parse_volume_id("account//blob").is_err());
    assert!(parse_volume_id("account/container/").is_err());
}

#[test]
fn role_parsing() {
    assert_eq!(Role::parse("controller").unwrap(), Role::Controller);
    assert_eq!(Role::parse("NODE").unwrap(), Role::Node);
    assert_eq!(Role::parse("all").unwrap(), Role::All);
    assert!(Role::parse("bogus").is_none());
}

#[test]
fn listen_addresses_are_split() {
    assert!(matches!(listen_address("unix:///csi/csi.sock"), Listen::Unix(p) if p == "/csi/csi.sock"));
    assert!(matches!(listen_address("tcp://1.2.3.4:5"), Listen::Tcp(a) if a == "1.2.3.4:5"));
    assert!(matches!(listen_address("1.2.3.4:5"), Listen::Tcp(a) if a == "1.2.3.4:5"));
}

#[test]
fn sizes_are_rounded_to_blocks() {
    assert_eq!(round_up_512(0), 512);
    assert_eq!(round_up_512(1), 512);
    assert_eq!(round_up_512(512), 512);
    assert_eq!(round_up_512(513), 1024);
}

#[test]
fn endpoints_take_the_account() {
    let mut c = test_config();
    assert_eq!(account_endpoint(&c, "other"), "https://other.blob.core.windows.net/");
    c.endpoint = "http://%s.blob.localhost:10000/".to_string();
    assert_eq!(account_endpoint(&c, "other"), "http://other.blob.localhost:10000/");
}

// ── State files ─────────────────────────────────────────────────────────────

#[test]
fn state_file_sanitizes_volume_id() {
    // The sanitized prefix is filesystem-safe, and a stable hash suffix keeps
    // distinct ids that sanitize alike from colliding onto one file.
    let p = state_file("/csi/state", "a/b#c");
    let name = file_name_of(&p).unwrap();
    assert!(name.starts_with("a_b_c-"), "got {name}");
    assert!(name.ends_with(".json"), "got {name}");
    // Deterministic for a given id.
    assert_eq!(p, state_file("/csi/state", "a/b#c"));
    // Distinct ids that sanitize to the same prefix get distinct files.
    assert_ne!(p, state_file("/csi/state", "a#b/c"));
}

#[test]
fn state_file_names_use_the_fnv_hash() {
    // FNV-1a of "a" is af63dc4c8601ec8c.
    assert_eq!(state_file("/s", "a"), "/s/a-af63dc4c8601ec8c.json");
    assert_eq!(state_dir(&None), "/csi/state");
    assert_eq!(state_dir(&Some(String::new())), "/csi/state");
    assert_eq!(state_dir(&Some("/x".to_string())), "/x");
    assert!(is_state_file("a.json"));
    assert!(!is_state_file(".json"));
    assert!(!is_state_file("a.tmp"));
}

// ── Identity ────────────────────────────────────────────────────────────────

#[test]
fn identity_follows_the_role() {
    let all = IdentityService::new(Role::All);
    assert_eq!(
        all.get_plugin_info(),
        ("azblob.ublk.csi.tg123.github.io".to_string(), "0.1.0".to_string())
    );
    assert_eq!(all.get_plugin_capabilities(), vec![PluginCapability::ControllerService]);
    assert!(IdentityService::new(Role::Node).get_plugin_capabilities().is_empty());
    assert!(all.probe());
}

// ── Controller ──────────────────────────────────────────────────────────────

#[test]
fn expand_volume_advertised_as_capability() {
    let svc = ControllerService::new(test_config());
    let caps = svc.controller_get_capabilities();
    assert!(
        caps.contains(&ControllerCapability::ExpandVolume),
        "EXPAND_VOLUME must be advertised"
    );
}

#[test]
fn expand_volume_rejects_empty_id() {
    let svc = ControllerService::new(test_config());
    let err = svc.controller_expand_volume("", 1024, &table(&[])).unwrap_err();
    assert_eq!(err.code, Code::InvalidArgument);
}

#[test]
fn expand_volume_rejects_read_only_template() {
    let svc = ControllerService::new(test_config());
    let id = make_volume_id_ro("acct", "cont", "blob");
    let err = svc.controller_expand_volume(&id, 1 << 20, &table(&[])).unwrap_err();
    assert_eq!(err.code, Code::FailedPrecondition);
}

#[test]
fn expand_volume_rejects_zero_capacity() {
    let svc = ControllerService::new(test_config());
    let id = make_volume_id("acct", "cont", "blob");
    let err = svc.controller_expand_volume(&id, 0, &table(&[])).unwrap_err();
    assert_eq!(err.code, Code::InvalidArgument);
}

#[test]
fn expansion_opens_the_volume() {
    let svc = ControllerService::new(test_config());
    let (plan, size) = svc.controller_expand_volume("acct/cont/b/c", 1000, &table(&[])).unwrap();
    assert_eq!(size, 1024);
    assert_eq!(plan.container, "cont");
    assert_eq!(plan.blob, "b/c");
    assert!(matches!(plan.auth, AuthConfig::SharedKey { .. }));
    match plan.client {
        ClientPlan::SharedKey { container_url, .. } => {
            assert_eq!(container_url, "https://acct.blob.core.windows.net/cont")
        }
        _ => panic!("a key signs"),
    }
    assert_eq!(svc.volume_expanded(1024), (1024, true));
    let err = svc.controller_expand_volume("bad", 1, &table(&[])).unwrap_err();
    assert!(err.message.contains("malformed volume id 'bad'"));
}

fn create(parameters: &[(&str, &str)]) -> CreateVolumeRequest {
    CreateVolumeRequest {
        name: "pvc-1".to_string(),
        required_bytes: 1000,
        parameters: table(parameters),
        secrets: table(&[]),
    }
}

#[test]
fn a_fresh_volume_is_created_and_found_again() {
    let svc = ControllerService::new(test_config());
    match svc.create_volume(&create(&[])).unwrap() {
        CreateStep::Fresh { backend, target, volume } => {
            assert_eq!(target.size, 1024);
            assert_eq!(backend.blob, target.blob);
            assert_eq!(volume.capacity_bytes, 1024);
            let (ro, a, c, b) = parse_volume_id(&volume.volume_id).unwrap();
            assert!(!ro);
            assert_eq!(a, "devstoreaccount1");
            assert_eq!(c, "vols");
            assert_eq!(b, "ublk-azblob-disk/pvc-1");
            assert_eq!(volume.volume_context.get("blob").as_deref(), Some("ublk-azblob-disk/pvc-1"));
            let gone = svc.delete_volume(&volume.volume_id, &table(&[])).unwrap().unwrap();
            assert_eq!(gone.blob, b);
        }
        _ => panic!("no template was asked for"),
    }
    let mut nameless = create(&[]);
    nameless.name = String::new();
    assert_eq!(svc.create_volume(&nameless).unwrap_err().code, Code::InvalidArgument);
}

#[test]
fn a_snapshot_template_is_mounted_as_it_is() {
    let svc = ControllerService::new(test_config());
    let url = "https://gold.blob.core.windows.net/img/disk?snapshot=2024-01-01T00:00:00Z&sig=x";
    let req = create(&[("templateBlobUrl", url)]);
    match svc.create_volume(&req).unwrap() {
        CreateStep::Template { source, tmpl, target, .. } => {
            assert_eq!(source.snapshot.as_deref(), Some("2024-01-01T00:00:00Z"));
            match svc.template_found(&req, &tmpl, &target, 4096).unwrap() {
                TemplateStep::Mount { volume } => {
                    assert_eq!(volume.volume_id, "ro:gold/img/disk");
                    assert!(svc.delete_volume(&volume.volume_id, &table(&[])).unwrap().is_none());
                }
                _ => panic!("a snapshot is not copied"),
            }
        }
        _ => panic!("a template was asked for"),
    }
    let bad = create(&[("templateBlobUrl", "nonsense")]);
    assert!(svc.create_volume(&bad).unwrap_err().message.starts_with("templateBlobUrl: "));
}

#[test]
fn another_template_is_copied() {
    let svc = ControllerService::new(test_config());
    let req = create(&[("templateBlobUrl", "https://gold.blob.core.windows.net/img/disk")]);
    match svc.create_volume(&req).unwrap() {
        CreateStep::Template { tmpl, target, .. } => {
            match svc.template_found(&req, &tmpl, &target, 5000).unwrap() {
                TemplateStep::Copy { mode, size, volume, .. } => {
                    assert_eq!(size, 5120);
                    // An account key cannot authenticate a server-side source read.
                    assert_eq!(mode, CopyMode::Streamed);
                    assert_eq!(volume.capacity_bytes, 5120);
                }
                _ => panic!("a blob without a snapshot is copied"),
            }
        }
        _ => panic!("a template was asked for"),
    }
    let msi = AuthConfig::Msi(None);
    assert_eq!(copy_mode(true, &msi), CopyMode::ServerWithSas);
    assert_eq!(copy_mode(false, &msi), CopyMode::ServerWithToken);
}

#[test]
fn blob_paths_are_expanded_and_cleaned() {
    assert_eq!(
        expand_template("${pvc.namespace}/${pvc.name}-${pv.name}", "n", "ns", "v"),
        "ns/n-v"
    );
    assert_eq!(sanitize_path("/a//b/"), "a/b");
    let svc = ControllerService::new(test_config());
    assert_eq!(svc.unimplemented_rpc("list").code, Code::Unimplemented);
}

#[test]
fn a_sparse_copy_is_a_full_copy() {
    let mut source = MemBackend::new(4096).unwrap();
    source.write(1024, &vec![7u8; 512]).unwrap();
    let mut dest = MemBackend::new(8192).unwrap();
    dest.write(0, &vec![9u8; 8192]).unwrap();
    let ranges = vec![(1024u64, 512u64)];
    let (copied, cleared) =
        copy_blob_streamed(&mut source, &mut dest, 4096, Some(&ranges), 1024).unwrap();
    assert_eq!((copied, cleared), (1024, 3072));
    assert_eq!(dest.read(0, 4096).unwrap(), source.read(0, 4096).unwrap());
    assert!(dest.read(4096, 4096).unwrap().iter().all(|&b| b == 9));
}

// ── Node ────────────────────────────────────────────────────────────────────

fn publish(ctx: &[(&str, &str)]) -> NodePublishVolumeRequest {
    NodePublishVolumeRequest {
        volume_id: "a/c/b".to_string(),
        target_path: "/t/mount".to_string(),
        volume_context: table(ctx),
        secrets: table(&[]),
        access_type: AccessType::Mount { fs_type: "xfs".to_string(), mount_flags: vec![] },
        readonly: false,
    }
}

#[test]
fn publishing_plans_a_child() {
    let svc = NodeService::new("node-1".to_string(), test_config());
    let plan = svc
        .node_publish_volume(
            &publish(&[("blob", "b"), ("size", "4096"), ("coordination", "Yes")]),
            &Some("ns".to_string()),
        )
        .unwrap()
        .unwrap();
    assert_eq!(plan.fs_type, "xfs");
    assert_eq!(plan.size, 4096);
    assert!(plan.nbd_listen.is_none());
    assert_eq!(plan.env.get("AZURE_STORAGE_ACCOUNT").as_deref(), Some("devstoreaccount1"));
    assert_eq!(plan.env.get("AZURE_STORAGE_CONTAINER").as_deref(), Some("vols"));
    assert_eq!(plan.env.get("AZURE_STORAGE_BLOB").as_deref(), Some("b"));
    assert_eq!(plan.env.get("AZURE_STORAGE_KEY").as_deref(), Some("a2V5"));
    assert_eq!(plan.env.get("UBLK_COORDINATION").as_deref(), Some("1"));
    assert_eq!(plan.env.get("UBLK_LEASE_HOLDER").as_deref(), Some("node-1"));
    assert_eq!(plan.env.get("UBLK_LEASE_NAMESPACE").as_deref(), Some("ns"));
    let missing = svc.node_publish_volume(&publish(&[]), &None).unwrap_err();
    assert_eq!(missing.message, "volume context missing 'blob'");
    let mut block = publish(&[("blob", "b")]);
    block.access_type = AccessType::Block;
    assert_eq!(svc.node_publish_volume(&block, &None).unwrap_err().code, Code::InvalidArgument);
    let mut c = test_config();
    c.account_key = None;
    let bare = NodeService::new("n".to_string(), c);
    assert!(bare
        .node_publish_volume(&publish(&[("blob", "b")]), &None)
        .unwrap_err()
        .message
        .starts_with("no auth configured"));
}

#[test]
fn a_published_volume_is_recorded_and_dropped() {
    let mut svc = NodeService::new("n".to_string(), test_config());
    svc.record("a/c/b".to_string(), "/dev/ublkb0".to_string(), "/t/mount".to_string());
    assert!(svc.node_publish_volume(&publish(&[("blob", "b")]), &None).unwrap().is_none());
    let mut elsewhere = publish(&[("blob", "b")]);
    elsewhere.target_path = "/other".to_string();
    assert_eq!(
        svc.node_publish_volume(&elsewhere, &None).unwrap_err().code,
        Code::FailedPrecondition
    );
    let gone = svc.node_unpublish_volume("a/c/b", "/t/mount").unwrap().unwrap();
    assert_eq!(gone.device, "/dev/ublkb0");
    assert!(svc.node_unpublish_volume("a/c/b", "/t/mount").unwrap().is_none());
    assert!(svc.node_unpublish_volume("", "/t").is_err());
    assert!(svc.node_unpublish_volume("a", "").is_err());
    assert_eq!(svc.node_get_info(), "n");
}

#[test]
fn a_failed_publish_undoes_its_child() {
    let s = publish_step(PublishState::Spawn, PublishEvent::Spawned(Ok(())));
    let s = publish_step(s, PublishEvent::Discovered(Ok("/dev/ublkb0".to_string())));
    let s = publish_step(s, PublishEvent::Probed { has_filesystem: false });
    assert!(matches!(&s, PublishState::Format { device } if device == "/dev/ublkb0"));
    let s = publish_step(s, PublishEvent::Formatted(Ok(())));
    let s = publish_step(s, PublishEvent::Mounted(Err("busy".to_string())));
    assert!(matches!(&s, PublishState::Undo { why } if why == "busy"));
    let s = publish_step(s, PublishEvent::Undone);
    assert!(matches!(s, PublishState::Failed { .. }));
}

#[test]
fn lease_settings_reach_the_child() {
    let svc = NodeService::new("node-1".to_string(), test_config());
    let plan = svc
        .node_publish_volume(
            &publish(&[
                ("blob", "b"),
                ("coordination", "true"),
                ("leaseNamespace", "other"),
                ("recoveryTimeoutSecs", "90"),
                ("leaseDurationSecs", "30"),
            ]),
            &None,
        )
        .unwrap()
        .unwrap();
    assert_eq!(plan.env.get("UBLK_LEASE_NAMESPACE").as_deref(), Some("other"));
    assert_eq!(plan.env.get("UBLK_RECOVERY_TIMEOUT_SECS").as_deref(), Some("90"));
    assert_eq!(plan.env.get("UBLK_LEASE_DURATION_SECS").as_deref(), Some("30"));
    let plain = svc
        .node_publish_volume(&publish(&[("blob", "b"), ("leaseDurationSecs", "30")]), &None)
        .unwrap()
        .unwrap();
    assert!(plain.env.get("UBLK_LEASE_DURATION_SECS").is_none());
}

/// A store that keeps the requests made of it.
struct Watched {
    store: MemBackend,
    seen: Vec<String>,
}

impl Watched {
    fn new(size: u64) -> Self {
        Watched { store: MemBackend::new(size).unwrap(), seen: Vec::new() }
    }
}

impl BlobBackend for Watched {
    fn create(&mut self, size: u64) -> Result<(), BackendError> {
        self.seen.push(format!("create {size}"));
        self.store.create(size)
    }
    fn read(&mut self, offset: u64, len: u64) -> Result<Vec<u8>, BackendError> {
        self.seen.push(format!("read {offset} {len}"));
        self.store.read(offset, len)
    }
    fn write(&mut self, offset: u64, data: &Vec<u8>) -> Result<(), BackendError> {
        self.seen.push(format!("write {offset} {}", data.len()));
        self.store.write(offset, data)
    }
    fn clear(&mut self, offset: u64, len: u64) -> Result<(), BackendError> {
        self.seen.push(format!("clear {offset} {len}"));
        self.store.clear(offset, len)
    }
    fn discard(&mut self, offset: u64, len: u64) -> Result<(), BackendError> {
        self.store.discard(offset, len)
    }
    fn flush(&mut self) -> Result<(), BackendError> {
        self.seen.push("flush".to_string());
        self.store.flush()
    }
    fn resize(&mut self, new_size: u64) -> Result<(), BackendError> {
        self.store.resize(new_size)
    }
    fn delete(&mut self) -> Result<(), BackendError> {
        self.store.delete()
    }
    fn size(&mut self) -> Result<u64, BackendError> {
        self.store.size()
    }
    fn snapshot(&mut self) -> Result<String, BackendError> {
        self.seen.push("snapshot".to_string());
        Ok("taken".to_string())
    }
}

#[test]
fn a_streamed_copy_asks_for_data_only() {
    let mut source = Watched::new(4096);
    let mut dest = Watched::new(8192);
    copy_blob_streamed(&mut source, &mut dest, 4096, Some(&vec![(1024, 512)]), 1024).unwrap();
    assert_eq!(source.seen, ["read 1024 1024"]);
    assert_eq!(
        dest.seen,
        ["clear 0 1024", "write 1024 1024", "clear 2048 1024", "clear 3072 1024", "flush"]
    );
}

#[test]
fn an_import_returns_the_snapshot_that_was_taken() {
    let mut store = Watched::new(512);
    let id = import_image(&mut store, vec![1u8; 700], Some(2048), true).unwrap();
    assert_eq!(id.as_deref(), Some("taken"));
    assert_eq!(store.seen, ["create 2048", "write 0 1024", "flush", "snapshot"]);
}

#[test]
fn a_smoke_test_writes_reads_and_clears() {
    let mut store = Watched::new(512);
    assert!(matches!(smoke_test(&mut store, 4096), SmokeTest::Passed));
    assert_eq!(
        store.seen,
        ["create 4096", "write 0 512", "read 0 512", "clear 0 512", "read 0 512"]
    );
}
