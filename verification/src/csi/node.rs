//! CSI **Node** service: attach an Azure page blob device on the node and mount it
//! where the kubelet asks (`NodePublishVolume`), then unmount it and tear the
//! device down (`NodeUnpublishVolume`).
//!
//! Each published volume owns a child process that keeps its device alive. The
//! service decides and keeps the table of published volumes; its caller runs the
//! processes and hands back what became of them.

use vstd::prelude::*;

use crate::auth::{AuthConfig, AuthView, IdentityView, UserAssignedIdentity};
use crate::csi;
use crate::csi::{Code, DriverConfig, Status};
use crate::table;
use crate::table::Table;
use crate::text;

verus! {

/// Default filesystem created on a freshly-provisioned volume.
pub const DEFAULT_FS_TYPE: &'static str = "ext4";

/// How long to wait for the device node to appear after spawning the child, in
/// seconds.
pub const DEVICE_TIMEOUT_SECS: u64 = 60;

// ── The table of published volumes ──────────────────────────────────────────

/// A currently-published volume and the resources backing it.
#[derive(Debug)]
pub struct Published {
    pub volume_id: String,
    pub device: String,
    pub target: String,
}

/// The device and the target of a published volume.
pub struct PublishedView {
    pub device: Seq<char>,
    pub target: Seq<char>,
}

/// The published volumes of a list, by id; a later entry replaces an earlier one.
pub open spec fn volumes_of(v: Seq<Published>) -> Map<Seq<char>, PublishedView>
    decreases v.len(),
{
    if v.len() == 0 {
        Map::empty()
    } else {
        volumes_of(v.drop_last()).insert(
            v.last().volume_id@,
            PublishedView { device: v.last().device@, target: v.last().target@ },
        )
    }
}

/// Node service.
pub struct NodeService {
    pub node_id: String,
    pub config: DriverConfig,
    pub volumes: Vec<Published>,
}

// ── Publishing ──────────────────────────────────────────────────────────────

/// The access that a publish request asks for.
#[derive(Debug)]
pub enum AccessType {
    /// A mounted filesystem, with a type (or an empty text) and mount flags.
    Mount { fs_type: String, mount_flags: Vec<String> },
    /// A raw block device.
    Block,
    /// Nothing in particular.
    Unspecified,
}

/// A request to publish a volume.
#[derive(Debug)]
pub struct NodePublishVolumeRequest {
    pub volume_id: String,
    pub target_path: String,
    pub volume_context: Table,
    pub secrets: Table,
    pub access_type: AccessType,
    pub readonly: bool,
}

/// How to bring a volume up.
#[derive(Debug)]
pub struct PublishPlan {
    pub fs_type: String,
    pub mount_flags: Vec<String>,
    /// The size of the device; 0 where the volume context names none.
    pub size: u64,
    /// The environment of the child process.
    pub env: Table,
    /// The address of the child's NBD server, in NBD mode.
    pub nbd_listen: Option<String>,
}

/// Why a child's environment cannot be made.
#[derive(Clone, Copy, Debug, PartialEq, Eq, Structural)]
pub enum EnvError {
    MissingBlob,
    NoAuth,
}

impl EnvError {
    /// What is missing, in words.
    pub open spec fn words(self) -> Seq<char> {
        match self {
            EnvError::MissingBlob => "volume context missing 'blob'"@,
            EnvError::NoAuth => "no auth configured for node publish: provide secret 'accountKey', enable Workload Identity, enable MSI, or a service principal (AZURE_CLIENT_ID / AZURE_TENANT_ID / AZURE_CLIENT_SECRET)"@,
        }
    }

    /// What is missing, in words.
    pub fn message(self) -> (r: String)
        ensures
            r@ == self.words(),
    {
        match self {
            EnvError::MissingBlob => "volume context missing 'blob'".to_owned(),
            EnvError::NoAuth => "no auth configured for node publish: provide secret 'accountKey', enable Workload Identity, enable MSI, or a service principal (AZURE_CLIENT_ID / AZURE_TENANT_ID / AZURE_CLIENT_SECRET)".to_owned(),
        }
    }
}

/// A value of the volume context, or the driver's own.
pub open spec fn ctx_or(ctx: Map<Seq<char>, Seq<char>>, name: Seq<char>, own: Seq<char>) -> Seq<
    char,
> {
    match table::value(ctx, name) {
        Some(v) => v,
        None => own,
    }
}

/// The environment that tells a child which blob to open.
pub open spec fn blob_env(
    c: DriverConfig,
    ctx: Map<Seq<char>, Seq<char>>,
    blob: Seq<char>,
) -> Map<Seq<char>, Seq<char>> {
    Map::empty().insert("AZURE_STORAGE_ACCOUNT"@, ctx_or(ctx, "account"@, c.account@)).insert(
        "AZURE_STORAGE_ENDPOINT"@,
        ctx_or(ctx, "endpoint"@, c.endpoint@),
    ).insert("AZURE_STORAGE_CONTAINER"@, ctx_or(ctx, "container"@, c.default_container@)).insert(
        "AZURE_STORAGE_BLOB"@,
        blob,
    )
}

/// `m` with the credentials of an auth configuration.
pub open spec fn with_auth(m: Map<Seq<char>, Seq<char>>, a: AuthView) -> Map<Seq<char>, Seq<char>> {
    match a {
        AuthView::SharedKey { account_key, .. } => m.insert("AZURE_STORAGE_KEY"@, account_key),
        AuthView::WorkloadIdentity { client_id, tenant_id, token_file } => {
            let m = m.insert("AZURE_USE_WORKLOAD_IDENTITY"@, "1"@);
            let m = table::with(m, "AZURE_CLIENT_ID"@, client_id);
            let m = table::with(m, "AZURE_TENANT_ID"@, tenant_id);
            table::with(m, "AZURE_FEDERATED_TOKEN_FILE"@, token_file)
        },
        AuthView::Msi(id) => {
            let m = m.insert("AZURE_USE_MSI"@, "1"@);
            match id {
                Some(IdentityView::ClientId(s)) => m.insert("AZURE_MSI_CLIENT_ID"@, s),
                _ => m,
            }
        },
        AuthView::ServicePrincipal { tenant_id, client_id, client_secret } => m.insert(
            "AZURE_TENANT_ID"@,
            tenant_id,
        ).insert("AZURE_CLIENT_ID"@, client_id).insert("AZURE_CLIENT_SECRET"@, client_secret),
        AuthView::Sas { .. } => m,
    }
}

/// A volume context asks for cluster coordination.
pub open spec fn coordinated(ctx: Map<Seq<char>, Seq<char>>) -> bool {
    match table::value(ctx, "coordination"@) {
        Some(v) => {
            let l = text::lower_text(v);
            l == "true"@ || l == "1"@ || l == "yes"@
        },
        None => false,
    }
}

/// `m` with the coordination settings of a volume context.
pub open spec fn with_coordination(
    m: Map<Seq<char>, Seq<char>>,
    node_id: Seq<char>,
    ctx: Map<Seq<char>, Seq<char>>,
    pod_namespace: Option<Seq<char>>,
) -> Map<Seq<char>, Seq<char>> {
    if coordinated(ctx) {
        let m = m.insert("UBLK_COORDINATION"@, "1"@).insert("UBLK_LEASE_HOLDER"@, node_id);
        let ns = match table::value(ctx, "leaseNamespace"@) {
            Some(n) => Some(n),
            None => pod_namespace,
        };
        let m = table::with(m, "UBLK_LEASE_NAMESPACE"@, table::filled(ns));
        let m = table::with(
            m,
            "UBLK_RECOVERY_TIMEOUT_SECS"@,
            table::filled(table::value(ctx, "recoveryTimeoutSecs"@)),
        );
        table::with(
            m,
            "UBLK_LEASE_DURATION_SECS"@,
            table::filled(table::value(ctx, "leaseDurationSecs"@)),
        )
    } else {
        m
    }
}

/// The environment of the child process of a volume.
pub open spec fn child_environment(
    c: DriverConfig,
    node_id: Seq<char>,
    ctx: Map<Seq<char>, Seq<char>>,
    secrets: Map<Seq<char>, Seq<char>>,
    pod_namespace: Option<Seq<char>>,
) -> Result<Map<Seq<char>, Seq<char>>, EnvError> {
    match table::value(ctx, "blob"@) {
        None => Err(EnvError::MissingBlob),
        Some(blob) => match csi::driver_auth(c, ctx_or(ctx, "account"@, c.account@), secrets) {
            None => Err(EnvError::NoAuth),
            Some(a) => Ok(
                with_coordination(with_auth(blob_env(c, ctx, blob), a), node_id, ctx, pod_namespace),
            ),
        },
    }
}

/// A result over a table's view.
pub open spec fn env_view(r: Result<Table, EnvError>) -> Result<Map<Seq<char>, Seq<char>>, EnvError> {
    match r {
        Ok(t) => Ok(t@),
        Err(e) => Err(e),
    }
}

/// The filesystem type: the capability's, else the volume context's, else the
/// default.
pub open spec fn fs_type_of(req: NodePublishVolumeRequest) -> Seq<char> {
    let own = ctx_or(req.volume_context@, "fsType"@, "ext4"@);
    match req.access_type {
        AccessType::Mount { fs_type, .. } => if fs_type@.len() > 0 {
            fs_type@
        } else {
            own
        },
        _ => own,
    }
}

/// The mount flags of the capability.
pub open spec fn flags_of(req: NodePublishVolumeRequest) -> Seq<Seq<char>> {
    match req.access_type {
        AccessType::Mount { mount_flags, .. } => text::views(mount_flags@),
        _ => Seq::empty(),
    }
}

/// The size that a volume context names, or 0.
pub open spec fn size_in(ctx: Map<Seq<char>, Seq<char>>) -> nat {
    match table::value(ctx, "size"@) {
        Some(s) => match text::number(s, u64::MAX as nat) {
            Some(n) => n,
            None => 0,
        },
        None => 0,
    }
}

/// A plan brings a request's volume up.
pub open spec fn plans(
    c: DriverConfig,
    node_id: Seq<char>,
    req: NodePublishVolumeRequest,
    pod_namespace: Option<Seq<char>>,
    p: PublishPlan,
) -> bool {
    &&& p.fs_type@ == fs_type_of(req)
    &&& text::views(p.mount_flags@) == flags_of(req)
    &&& p.size == size_in(req.volume_context@)
    &&& child_environment(c, node_id, req.volume_context@, req.secrets@, pod_namespace) == Ok::<
        _,
        EnvError,
    >(p.env@)
    &&& text::opt_view(p.nbd_listen) == (if c.use_nbd {
        Some(c.nbd_host@ + ":"@ + text::decimal(c.nbd_port_start as nat))
    } else {
        None
    })
}

/// `r` refuses with a code and a message.
pub open spec fn refuses<T>(r: Result<T, Status>, code: Code, message: Seq<char>) -> bool {
    r matches Err(s) && s.code == code && s.message@ == message
}

impl NodeService {
    /// The published volumes, by id.
    pub open spec fn published(&self) -> Map<Seq<char>, PublishedView> {
        volumes_of(self.volumes@)
    }

    /// Build a node service for `node_id` using the driver configuration.
    pub fn new(node_id: String, config: DriverConfig) -> (r: Self)
        ensures
            r.node_id == node_id,
            r.config == config,
            r.published() == Map::<Seq<char>, PublishedView>::empty(),
    {
        NodeService { node_id, config, volumes: Vec::new() }
    }

    fn find(&self, volume_id: &str) -> (r: Option<usize>)
        ensures
            match r {
                Some(i) => i < self.volumes@.len() && self.published().contains_key(volume_id@)
                    && self.published()[volume_id@] == (PublishedView {
                    device: self.volumes@[i as int].device@,
                    target: self.volumes@[i as int].target@,
                }),
                None => !self.published().contains_key(volume_id@),
            },
    {
        let ghost all = self.volumes@;
        let mut i: usize = self.volumes.len();
        assert(all.take(all.len() as int) == all);
        while i > 0
            invariant
                all == self.volumes@,
                i <= all.len(),
                volumes_of(all).contains_key(volume_id@) == volumes_of(
                    all.take(i as int),
                ).contains_key(volume_id@),
                volumes_of(all).contains_key(volume_id@) ==> volumes_of(all)[volume_id@]
                    == volumes_of(all.take(i as int))[volume_id@],
            decreases i,
        {
            proof {
                assert(all.take(i as int).drop_last() == all.take(i - 1));
                assert(all.take(i as int).last() == all[i - 1]);
            }
            i = i - 1;
            if text::same(self.volumes[i].volume_id.as_str(), volume_id) {
                return Some(i);
            }
        }
        None
    }

    /// Build the `AZURE_STORAGE_*` environment for the child process from the
    /// volume context, request secrets and driver config, and the coordination
    /// settings where the volume opts in.
    pub fn child_env(&self, ctx: &Table, secrets: &Table, pod_namespace: &Option<String>) -> (r:
        Result<Table, EnvError>)
        ensures
            env_view(r) == child_environment(
                self.config,
                self.node_id@,
                ctx@,
                secrets@,
                text::opt_view(*pod_namespace),
            ),
    {
        let account = ctx.get_or("account", self.config.account.as_str());
        let endpoint = ctx.get_or("endpoint", self.config.endpoint.as_str());
        let container = ctx.get_or("container", self.config.default_container.as_str());
        let blob = match ctx.get("blob") {
            Some(b) => b,
            None => {
                return Err(EnvError::MissingBlob);
            },
        };
        let auth = match csi::select_driver_auth(&self.config, account.as_str(), secrets) {
            Ok(a) => a,
            Err(_) => {
                return Err(EnvError::NoAuth);
            },
        };
        let mut env = Table::new();
        env.insert("AZURE_STORAGE_ACCOUNT", account);
        env.insert("AZURE_STORAGE_ENDPOINT", endpoint);
        env.insert("AZURE_STORAGE_CONTAINER", container);
        env.insert("AZURE_STORAGE_BLOB", blob);
        match auth {
            AuthConfig::SharedKey { account_key, .. } => {
                env.insert("AZURE_STORAGE_KEY", account_key);
            },
            AuthConfig::WorkloadIdentity { client_id, tenant_id, token_file } => {
                env.insert("AZURE_USE_WORKLOAD_IDENTITY", "1".to_owned());
                env.insert_opt("AZURE_CLIENT_ID", &client_id);
                env.insert_opt("AZURE_TENANT_ID", &tenant_id);
                env.insert_opt("AZURE_FEDERATED_TOKEN_FILE", &token_file);
            },
            AuthConfig::Msi(id) => {
                env.insert("AZURE_USE_MSI", "1".to_owned());
                match id {
                    Some(UserAssignedIdentity::ClientId(s)) => {
                        env.insert("AZURE_MSI_CLIENT_ID", s);
                    },
                    _ => {},
                }
            },
            AuthConfig::ServicePrincipal { tenant_id, client_id, client_secret } => {
                env.insert("AZURE_TENANT_ID", tenant_id);
                env.insert("AZURE_CLIENT_ID", client_id);
                env.insert("AZURE_CLIENT_SECRET", client_secret);
            },
            AuthConfig::Sas { .. } => {},
        }
        let coordination = match ctx.get("coordination") {
            Some(v) => {
                let l = text::to_lower(v.as_str());
                text::same(l.as_str(), "true") || text::same(l.as_str(), "1") || text::same(
                    l.as_str(),
                    "yes",
                )
            },
            None => false,
        };
        if coordination {
            env.insert("UBLK_COORDINATION", "1".to_owned());
            env.insert("UBLK_LEASE_HOLDER", self.node_id.clone());
            let ns = match ctx.get("leaseNamespace") {
                Some(n) => Some(n),
                None => text::clone_opt(pod_namespace),
            };
            env.insert_opt("UBLK_LEASE_NAMESPACE", &table::keep_filled(ns));
            env.insert_opt(
                "UBLK_RECOVERY_TIMEOUT_SECS",
                &ctx.get_filled("recoveryTimeoutSecs"),
            );
            env.insert_opt("UBLK_LEASE_DURATION_SECS", &ctx.get_filled("leaseDurationSecs"));
        }
        Ok(env)
    }

    /// Decide how to publish a volume: nothing where it is already published at
    /// the target, otherwise a plan.
    pub fn node_publish_volume(
        &self,
        req: &NodePublishVolumeRequest,
        pod_namespace: &Option<String>,
    ) -> (r: Result<Option<PublishPlan>, Status>)
        ensures
            if req.volume_id@.len() == 0 {
                refuses(r, Code::InvalidArgument, "volume id is required"@)
            } else if req.target_path@.len() == 0 {
                refuses(r, Code::InvalidArgument, "target path is required"@)
            } else if self.published().contains_key(req.volume_id@) {
                if self.published()[req.volume_id@].target == req.target_path@ {
                    r == Ok::<Option<PublishPlan>, Status>(None)
                } else {
                    refuses(
                        r,
                        Code::FailedPrecondition,
                        "volume already published at a different target path"@,
                    )
                }
            } else if req.access_type is Block {
                refuses(
                    r,
                    Code::InvalidArgument,
                    "raw block volumes are not supported; request a filesystem (Mount) volume"@,
                )
            } else {
                match child_environment(
                    self.config,
                    self.node_id@,
                    req.volume_context@,
                    req.secrets@,
                    text::opt_view(*pod_namespace),
                ) {
                    Err(e) => refuses(r, Code::InvalidArgument, e.words()),
                    Ok(_) => r matches Ok(Some(p)) && plans(
                        self.config,
                        self.node_id@,
                        *req,
                        text::opt_view(*pod_namespace),
                        p,
                    ),
                }
            },
    {
        if req.volume_id.as_str().is_empty() {
            return Err(csi::status(Code::InvalidArgument, "volume id is required"));
        }
        if req.target_path.as_str().is_empty() {
            return Err(csi::status(Code::InvalidArgument, "target path is required"));
        }
        if let Some(i) = self.find(req.volume_id.as_str()) {
            if text::same(self.volumes[i].target.as_str(), req.target_path.as_str()) {
                return Ok(None);
            }
            return Err(
                csi::status(
                    Code::FailedPrecondition,
                    "volume already published at a different target path",
                ),
            );
        }
        let mut fs_type = req.volume_context.get_or("fsType", DEFAULT_FS_TYPE);
        let mut mount_flags: Vec<String> = Vec::new();
        assert(text::views(mount_flags@) == Seq::<Seq<char>>::empty());
        match &req.access_type {
            AccessType::Mount { fs_type: named, mount_flags: flags } => {
                if !named.as_str().is_empty() {
                    fs_type = named.clone();
                }
                text::put_all(&mut mount_flags, flags);
                assert(text::views(mount_flags@) =~= text::views(flags@));
            },
            AccessType::Block => {
                return Err(
                    csi::status(
                        Code::InvalidArgument,
                        "raw block volumes are not supported; request a filesystem (Mount) volume",
                    ),
                );
            },
            AccessType::Unspecified => {},
        }
        let size: u64 = match req.volume_context.get("size") {
            Some(s) => match text::parse_u64(s.as_str()) {
                Some(n) => n,
                None => 0,
            },
            None => 0,
        };
        let env = match self.child_env(&req.volume_context, &req.secrets, pod_namespace) {
            Ok(e) => e,
            Err(e) => {
                return Err(csi::status(Code::InvalidArgument, e.message().as_str()));
            },
        };
        let nbd_listen = if self.config.use_nbd {
            Some(
                text::concat3(
                    self.config.nbd_host.as_str(),
                    ":",
                    text::decimal_of(self.config.nbd_port_start as u64).as_str(),
                ),
            )
        } else {
            None
        };
        Ok(Some(PublishPlan { fs_type, mount_flags, size, env, nbd_listen }))
    }

    /// Record a volume whose device is up and mounted.
    pub fn record(&mut self, volume_id: String, device: String, target: String)
        ensures
            final(self).published() == old(self).published().insert(
                volume_id@,
                (PublishedView { device: device@, target: target@ }),
            ),
            final(self).node_id == old(self).node_id,
            final(self).config == old(self).config,
    {
        let ghost had = self.volumes@;
        let p = Published { volume_id, device, target };
        self.volumes.push(p);
        assert(self.volumes@.drop_last() == had);
    }

    /// Decide how to unpublish: the recorded volume, if there is one, is dropped
    /// from the table and handed out, for its device to be stopped after the
    /// target is unmounted.
    pub fn node_unpublish_volume(&mut self, volume_id: &str, target_path: &str) -> (r: Result<
        Option<Published>,
        Status,
    >)
        ensures
            final(self).node_id == old(self).node_id,
            final(self).config == old(self).config,
            if volume_id@.len() == 0 {
                refuses(r, Code::InvalidArgument, "volume id is required"@) && final(self).published()
                    == old(self).published()
            } else if target_path@.len() == 0 {
                refuses(r, Code::InvalidArgument, "target path is required"@) && final(self).published() == old(self).published()
            } else {
                &&& final(self).published() == old(self).published().remove(volume_id@)
                &&& r matches Ok(p)
                &&& match p {
                    Some(x) => old(self).published().contains_key(volume_id@) && old(self).published()[volume_id@] == (PublishedView {
                        device: x.device@,
                        target: x.target@,
                    }) && x.volume_id@ == volume_id@,
                    None => !old(self).published().contains_key(volume_id@),
                }
            },
    {
        if volume_id.is_empty() {
            return Err(csi::status(Code::InvalidArgument, "volume id is required"));
        }
        if target_path.is_empty() {
            return Err(csi::status(Code::InvalidArgument, "target path is required"));
        }
        let found = match self.find(volume_id) {
            Some(i) => Some(
                Published {
                    volume_id: volume_id.to_owned(),
                    device: self.volumes[i].device.clone(),
                    target: self.volumes[i].target.clone(),
                },
            ),
            None => None,
        };
        let ghost all = self.volumes@;
        let mut rest: Vec<Published> = Vec::new();
        let mut i: usize = 0;
        assert(volumes_of(rest@) == volumes_of(all.take(0)).remove(volume_id@));
        while i < self.volumes.len()
            invariant
                self.volumes@ == all,
                i <= all.len(),
                volumes_of(rest@) == volumes_of(all.take(i as int)).remove(volume_id@),
            decreases all.len() - i,
        {
            proof {
                assert(all.take(i + 1).drop_last() == all.take(i as int));
                assert(all.take(i + 1).last() == all[i as int]);
            }
            if !text::same(self.volumes[i].volume_id.as_str(), volume_id) {
                let ghost had = rest@;
                let p = Published {
                    volume_id: self.volumes[i].volume_id.clone(),
                    device: self.volumes[i].device.clone(),
                    target: self.volumes[i].target.clone(),
                };
                rest.push(p);
                proof {
                    assert(rest@.drop_last() == had);
                    assert(volumes_of(rest@) =~= volumes_of(all.take(i + 1)).remove(volume_id@));
                }
            } else {
                assert(volumes_of(rest@) =~= volumes_of(all.take(i + 1)).remove(volume_id@));
            }
            i = i + 1;
        }
        assert(all.take(all.len() as int) == all);
        self.volumes = rest;
        Ok(found)
    }

    /// The node's identity.
    pub fn node_get_info(&self) -> (r: String)
        ensures
            r@ == self.node_id@,
    {
        self.node_id.clone()
    }
}

// ── Bringing a device up ────────────────────────────────────────────────────

/// Where bringing a volume's device up stands.
#[derive(Debug)]
pub enum PublishState {
    /// About to spawn the child process.
    Spawn,
    /// Waiting for the child's device.
    Discover,
    /// About to look for a filesystem on the device.
    Probe { device: String },
    /// About to make a filesystem on the blank device.
    Format { device: String },
    /// About to mount the device.
    Mount { device: String },
    /// About to stop the child after a failure.
    Undo { why: String },
    /// The volume is published.
    Done { device: String },
    /// The volume is not published, and no child is left behind.
    Failed { why: String },
}

/// What was found out while bringing a device up.
#[derive(Debug)]
pub enum PublishEvent {
    Spawned(Result<(), String>),
    Discovered(Result<String, String>),
    Probed { has_filesystem: bool },
    Formatted(Result<(), String>),
    Mounted(Result<(), String>),
    Undone,
}

/// The next state of bringing a device up.
pub open spec fn publishes(s: PublishState, e: PublishEvent) -> PublishState {
    match (s, e) {
        (PublishState::Spawn, PublishEvent::Spawned(r)) => match r {
            Ok(_) => PublishState::Discover,
            Err(why) => PublishState::Failed { why },
        },
        (PublishState::Discover, PublishEvent::Discovered(r)) => match r {
            Ok(device) => PublishState::Probe { device },
            Err(why) => PublishState::Undo { why },
        },
        (PublishState::Probe { device }, PublishEvent::Probed { has_filesystem }) => if has_filesystem {
            PublishState::Mount { device }
        } else {
            PublishState::Format { device }
        },
        (PublishState::Format { device }, PublishEvent::Formatted(r)) => match r {
            Ok(_) => PublishState::Mount { device },
            Err(why) => PublishState::Undo { why },
        },
        (PublishState::Mount { device }, PublishEvent::Mounted(r)) => match r {
            Ok(_) => PublishState::Done { device },
            Err(why) => PublishState::Undo { why },
        },
        (PublishState::Undo { why }, PublishEvent::Undone) => PublishState::Failed { why },
        (s, _) => s,
    }
}

/// Take one step of bringing a device up. A filesystem is made only on a blank
/// device, and every failure after the child was spawned stops the child. What
/// does not fit the state changes nothing.
pub fn publish_step(s: PublishState, e: PublishEvent) -> (n: PublishState)
    ensures
        n == publishes(s, e),
{
    match (s, e) {
        (PublishState::Spawn, PublishEvent::Spawned(r)) => {
            match r {
                Ok(_) => PublishState::Discover,
                Err(why) => PublishState::Failed { why },
            }
        },
        (PublishState::Discover, PublishEvent::Discovered(r)) => {
            match r {
                Ok(device) => PublishState::Probe { device },
                Err(why) => PublishState::Undo { why },
            }
        },
        (PublishState::Probe { device }, PublishEvent::Probed { has_filesystem }) => {
            if has_filesystem {
                PublishState::Mount { device }
            } else {
                PublishState::Format { device }
            }
        },
        (PublishState::Format { device }, PublishEvent::Formatted(r)) => {
            match r {
                Ok(_) => PublishState::Mount { device },
                Err(why) => PublishState::Undo { why },
            }
        },
        (PublishState::Mount { device }, PublishEvent::Mounted(r)) => {
            match r {
                Ok(_) => PublishState::Done { device },
                Err(why) => PublishState::Undo { why },
            }
        },
        (PublishState::Undo { why }, PublishEvent::Undone) => PublishState::Failed { why },
        (s, _) => s,
    }
}

/// The state that a sequence of events leads to.
pub open spec fn publish_run(events: Seq<PublishEvent>) -> PublishState
    decreases events.len(),
{
    if events.len() == 0 {
        PublishState::Spawn
    } else {
        publishes(publish_run(events.drop_last()), events.last())
    }
}

/// A child is running: it was spawned, and neither stopped nor left to serve a
/// published volume.
pub open spec fn child_pending(s: PublishState) -> bool {
    s is Discover || s is Probe || s is Format || s is Mount || s is Undo
}

/// No child is left behind: once one was spawned, failure is reached only through
/// stopping it.
pub proof fn a_failed_publish_stops_its_child(events: Seq<PublishEvent>, e: PublishEvent)
    requires
        child_pending(publish_run(events)),
        publish_run(events.push(e)) is Failed,
    ensures
        publish_run(events) is Undo,
        e is Undone,
{
    assert(events.push(e).drop_last() == events);
}

/// A filesystem is made only on a device that was found to have none.
pub proof fn only_a_blank_device_is_formatted(events: Seq<PublishEvent>, e: PublishEvent)
    requires
        !(publish_run(events) is Format),
        publish_run(events.push(e)) is Format,
    ensures
        e == (PublishEvent::Probed { has_filesystem: false }),
{
    assert(events.push(e).drop_last() == events);
}

/// A volume counts as published only once its device has been mounted.
pub proof fn only_a_mount_publishes(events: Seq<PublishEvent>, e: PublishEvent)
    requires
        !(publish_run(events) is Done),
        publish_run(events.push(e)) is Done,
    ensures
        e matches PublishEvent::Mounted(Ok(_)),
        publish_run(events) == (PublishState::Mount {
            device: publish_run(events.push(e))->Done_device,
        }),
{
    assert(events.push(e).drop_last() == events);
}

/// A device is mounted only if it was found to have a filesystem or has just got one,
/// and it is the device that was probed or formatted.
pub proof fn only_a_filesystem_is_mounted(events: Seq<PublishEvent>, e: PublishEvent)
    requires
        !(publish_run(events) is Mount),
        publish_run(events.push(e)) is Mount,
    ensures
        ({
            let device = publish_run(events.push(e))->Mount_device;
            ||| e == (PublishEvent::Probed { has_filesystem: true }) && publish_run(events) == (
            PublishState::Probe { device })
            ||| e matches PublishEvent::Formatted(Ok(_)) && publish_run(events) == (
            PublishState::Format { device })
        }),
{
    assert(events.push(e).drop_last() == events);
}

/// A run in which every step works publishes the device that was discovered: a device
/// with a filesystem is mounted as it is, a blank one gets a filesystem first.
pub proof fn a_run_without_failures_publishes(device: String, has_filesystem: bool)
    ensures
        ({
            let found = seq![
                PublishEvent::Spawned(Ok(())),
                PublishEvent::Discovered(Ok(device)),
                PublishEvent::Probed { has_filesystem },
            ];
            let formatted = if has_filesystem {
                found
            } else {
                found.push(PublishEvent::Formatted(Ok(())))
            };
            &&& publish_run(Seq::empty()) is Spawn
            &&& publish_run(found) == (if has_filesystem {
                PublishState::Mount { device }
            } else {
                PublishState::Format { device }
            })
            &&& publish_run(formatted) == (PublishState::Mount { device })
            &&& publish_run(formatted.push(PublishEvent::Mounted(Ok(())))) == (PublishState::Done {
                device,
            })
        }),
{
    reveal_with_fuel(publish_run, 7);
    let a = seq![PublishEvent::Spawned(Ok(()))];
    let b = a.push(PublishEvent::Discovered(Ok(device)));
    let c = b.push(PublishEvent::Probed { has_filesystem });
    let d = c.push(PublishEvent::Formatted(Ok(())));
    let m = PublishEvent::Mounted(Ok(()));
    assert(a.drop_last() =~= Seq::<PublishEvent>::empty());
    assert(b.drop_last() =~= a);
    assert(c.drop_last() =~= b);
    assert(d.drop_last() =~= c);
    assert(c =~= seq![
        PublishEvent::Spawned(Ok(())),
        PublishEvent::Discovered(Ok(device)),
        PublishEvent::Probed { has_filesystem },
    ]);
    assert(c.push(m).drop_last() =~= c);
    assert(d.push(m).drop_last() =~= d);
}

/// The device of a run, while it has one.
pub open spec fn device_of(s: PublishState) -> Option<Seq<char>> {
    match s {
        PublishState::Probe { device } => Some(device@),
        PublishState::Format { device } => Some(device@),
        PublishState::Mount { device } => Some(device@),
        PublishState::Done { device } => Some(device@),
        _ => None,
    }
}

/// A run that has a device keeps it: it is the one that was discovered after the child
/// was spawned.
pub proof fn a_run_keeps_its_device(events: Seq<PublishEvent>, e: PublishEvent)
    requires
        device_of(publish_run(events.push(e))) is Some,
    ensures
        device_of(publish_run(events)) == device_of(publish_run(events.push(e))) || publish_run(
            events,
        ) is Discover && (e matches PublishEvent::Discovered(Ok(d)) && device_of(
            publish_run(events.push(e)),
        ) == Some(d@)),
{
    assert(events.push(e).drop_last() == events);
}

/// A failure of a step is what the run fails for: at once if the child could not be
/// spawned, and after the child has been stopped otherwise.
pub proof fn a_failure_is_reported(events: Seq<PublishEvent>, why: String)
    ensures
        publish_run(events) is Spawn ==> publish_run(
            events.push(PublishEvent::Spawned(Err(why))),
        ) == (PublishState::Failed { why }),
        publish_run(events) is Discover ==> publish_run(
            events.push(PublishEvent::Discovered(Err(why))),
        ) == (PublishState::Undo { why }),
        publish_run(events) is Format ==> publish_run(
            events.push(PublishEvent::Formatted(Err(why))),
        ) == (PublishState::Undo { why }),
        publish_run(events) is Mount ==> publish_run(
            events.push(PublishEvent::Mounted(Err(why))),
        ) == (PublishState::Undo { why }),
        publish_run(events) == (PublishState::Undo { why }) ==> publish_run(
            events.push(PublishEvent::Undone),
        ) == (PublishState::Failed { why }),
{
    assert(events.push(PublishEvent::Spawned(Err(why))).drop_last() == events);
    assert(events.push(PublishEvent::Discovered(Err(why))).drop_last() == events);
    assert(events.push(PublishEvent::Formatted(Err(why))).drop_last() == events);
    assert(events.push(PublishEvent::Mounted(Err(why))).drop_last() == events);
    assert(events.push(PublishEvent::Undone).drop_last() == events);
}

/// A run that has ended stays as it is, and an event that does not belong to its state
/// changes nothing.
pub proof fn a_run_that_has_ended_stays_ended(events: Seq<PublishEvent>, e: PublishEvent)
    ensures
        publish_run(events) is Done || publish_run(events) is Failed ==> publish_run(events.push(e))
            == publish_run(events),
        publish_run(events) is Probe && !(e is Probed) ==> publish_run(events.push(e)) == publish_run(
            events,
        ),
        publish_run(events) is Mount && !(e is Mounted) ==> publish_run(events.push(e))
            == publish_run(events),
        publish_run(events) is Format && !(e is Formatted) ==> publish_run(events.push(e))
            == publish_run(events),
{
    assert(events.push(e).drop_last() == events);
}

/// A child is told the account, the endpoint, the container and the blob that the
/// volume context names; the driver's own stand in for what it does not name.
pub proof fn a_child_is_told_its_blob(
    c: DriverConfig,
    node_id: Seq<char>,
    ctx: Map<Seq<char>, Seq<char>>,
    secrets: Map<Seq<char>, Seq<char>>,
    pod_namespace: Option<Seq<char>>,
    env: Map<Seq<char>, Seq<char>>,
)
    requires
        child_environment(c, node_id, ctx, secrets, pod_namespace) == Ok::<_, EnvError>(env),
    ensures
        table::value(ctx, "blob"@) is Some,
        table::value(env, "AZURE_STORAGE_BLOB"@) == table::value(ctx, "blob"@),
        table::value(ctx, "account"@) is Some ==> table::value(env, "AZURE_STORAGE_ACCOUNT"@)
            == table::value(ctx, "account"@),
        table::value(ctx, "account"@) is None ==> table::value(env, "AZURE_STORAGE_ACCOUNT"@)
            == Some(c.account@),
        table::value(ctx, "endpoint"@) is Some ==> table::value(env, "AZURE_STORAGE_ENDPOINT"@)
            == table::value(ctx, "endpoint"@),
        table::value(ctx, "endpoint"@) is None ==> table::value(env, "AZURE_STORAGE_ENDPOINT"@)
            == Some(c.endpoint@),
        table::value(ctx, "container"@) is Some ==> table::value(env, "AZURE_STORAGE_CONTAINER"@)
            == table::value(ctx, "container"@),
        table::value(ctx, "container"@) is None ==> table::value(env, "AZURE_STORAGE_CONTAINER"@)
            == Some(c.default_container@),
{
    lemma_child_names();
}

/// The names in a child's environment are different from each other.
proof fn lemma_child_names()
    ensures
        "AZURE_STORAGE_ACCOUNT"@.len() == 21,
        "AZURE_STORAGE_ENDPOINT"@.len() == 22,
        "AZURE_STORAGE_CONTAINER"@.len() == 23,
        "AZURE_STORAGE_BLOB"@.len() == 18,
        "AZURE_STORAGE_KEY"@.len() == 17,
        "AZURE_USE_WORKLOAD_IDENTITY"@.len() == 27,
        "AZURE_CLIENT_ID"@.len() == 15,
        "AZURE_TENANT_ID"@.len() == 15,
        "AZURE_FEDERATED_TOKEN_FILE"@.len() == 26,
        "AZURE_USE_MSI"@.len() == 13,
        "AZURE_MSI_CLIENT_ID"@.len() == 19,
        "AZURE_CLIENT_SECRET"@.len() == 19,
        "UBLK_COORDINATION"@.len() == 17,
        "UBLK_LEASE_HOLDER"@.len() == 17,
        "UBLK_LEASE_NAMESPACE"@.len() == 20,
        "UBLK_RECOVERY_TIMEOUT_SECS"@.len() == 26,
        "UBLK_LEASE_DURATION_SECS"@.len() == 24,
        "AZURE_CLIENT_ID"@ != "AZURE_TENANT_ID"@,
        "AZURE_MSI_CLIENT_ID"@ != "AZURE_CLIENT_SECRET"@,
        "UBLK_COORDINATION"@ != "UBLK_LEASE_HOLDER"@,
        "AZURE_STORAGE_KEY"@ != "UBLK_COORDINATION"@,
        "AZURE_STORAGE_KEY"@ != "UBLK_LEASE_HOLDER"@,
        "AZURE_FEDERATED_TOKEN_FILE"@ != "UBLK_RECOVERY_TIMEOUT_SECS"@,
{
    reveal_strlit("AZURE_STORAGE_ACCOUNT");
    reveal_strlit("AZURE_STORAGE_ENDPOINT");
    reveal_strlit("AZURE_STORAGE_CONTAINER");
    reveal_strlit("AZURE_STORAGE_BLOB");
    reveal_strlit("AZURE_STORAGE_KEY");
    reveal_strlit("AZURE_USE_WORKLOAD_IDENTITY");
    reveal_strlit("AZURE_CLIENT_ID");
    reveal_strlit("AZURE_TENANT_ID");
    reveal_strlit("AZURE_FEDERATED_TOKEN_FILE");
    reveal_strlit("AZURE_USE_MSI");
    reveal_strlit("AZURE_MSI_CLIENT_ID");
    reveal_strlit("AZURE_CLIENT_SECRET");
    reveal_strlit("UBLK_COORDINATION");
    reveal_strlit("UBLK_LEASE_HOLDER");
    reveal_strlit("UBLK_LEASE_NAMESPACE");
    reveal_strlit("UBLK_RECOVERY_TIMEOUT_SECS");
    reveal_strlit("UBLK_LEASE_DURATION_SECS");
    assert("AZURE_CLIENT_ID"@[6] != "AZURE_TENANT_ID"@[6]);
    assert("AZURE_MSI_CLIENT_ID"@[6] != "AZURE_CLIENT_SECRET"@[6]);
    assert("UBLK_COORDINATION"@[5] != "UBLK_LEASE_HOLDER"@[5]);
    assert("AZURE_STORAGE_KEY"@[0] != "UBLK_COORDINATION"@[0]);
    assert("AZURE_STORAGE_KEY"@[0] != "UBLK_LEASE_HOLDER"@[0]);
    assert("AZURE_FEDERATED_TOKEN_FILE"@[0] != "UBLK_RECOVERY_TIMEOUT_SECS"@[0]);
}

/// A child gets the credentials that the driver chose for the account, and no
/// others: the key of a shared key, the identity of a workload identity or of a
/// managed identity, or the three parts of a service principal.
pub proof fn a_child_gets_the_chosen_credentials(
    c: DriverConfig,
    node_id: Seq<char>,
    ctx: Map<Seq<char>, Seq<char>>,
    secrets: Map<Seq<char>, Seq<char>>,
    pod_namespace: Option<Seq<char>>,
    env: Map<Seq<char>, Seq<char>>,
    a: AuthView,
)
    requires
        child_environment(c, node_id, ctx, secrets, pod_namespace) == Ok::<_, EnvError>(env),
        csi::driver_auth(c, ctx_or(ctx, "account"@, c.account@), secrets) == Some(a),
    ensures
        table::value(env, "AZURE_STORAGE_KEY"@) == (match a {
            AuthView::SharedKey { account_key, .. } => Some(account_key),
            _ => None,
        }),
        table::value(env, "AZURE_USE_WORKLOAD_IDENTITY"@) == (if a is WorkloadIdentity {
            Some("1"@)
        } else {
            None
        }),
        table::value(env, "AZURE_USE_MSI"@) == (if a is Msi {
            Some("1"@)
        } else {
            None
        }),
        table::value(env, "AZURE_CLIENT_SECRET"@) == (match a {
            AuthView::ServicePrincipal { client_secret, .. } => Some(client_secret),
            _ => None,
        }),
        table::value(env, "AZURE_CLIENT_ID"@) == (match a {
            AuthView::ServicePrincipal { client_id, .. } => Some(client_id),
            AuthView::WorkloadIdentity { client_id, .. } => client_id,
            _ => None,
        }),
        table::value(env, "AZURE_TENANT_ID"@) == (match a {
            AuthView::ServicePrincipal { tenant_id, .. } => Some(tenant_id),
            AuthView::WorkloadIdentity { tenant_id, .. } => tenant_id,
            _ => None,
        }),
        table::value(env, "AZURE_FEDERATED_TOKEN_FILE"@) == (match a {
            AuthView::WorkloadIdentity { token_file, .. } => token_file,
            _ => None,
        }),
        table::value(env, "AZURE_MSI_CLIENT_ID"@) == (match a {
            AuthView::Msi(Some(IdentityView::ClientId(s))) => Some(s),
            _ => None,
        }),
{
    lemma_child_names();
}

/// A child of a coordinated volume is told to coordinate, in the node's name and
/// under the volume's settings; the child of another volume is told nothing of it.
pub proof fn a_coordinated_child_is_told_so(
    c: DriverConfig,
    node_id: Seq<char>,
    ctx: Map<Seq<char>, Seq<char>>,
    secrets: Map<Seq<char>, Seq<char>>,
    pod_namespace: Option<Seq<char>>,
    env: Map<Seq<char>, Seq<char>>,
)
    requires
        child_environment(c, node_id, ctx, secrets, pod_namespace) == Ok::<_, EnvError>(env),
    ensures
        table::value(ctx, "coordination"@) == Some("true"@) || table::value(ctx, "coordination"@)
            == Some("1"@) || table::value(ctx, "coordination"@) == Some("yes"@) ==> table::value(
            env,
            "UBLK_COORDINATION"@,
        ) == Some("1"@),
        table::value(ctx, "coordination"@) is None || table::value(ctx, "coordination"@) == Some(
            "false"@,
        ) ==> table::value(env, "UBLK_COORDINATION"@) is None,
        table::value(env, "UBLK_COORDINATION"@) is None ==> table::value(env, "UBLK_LEASE_HOLDER"@)
            is None && table::value(env, "UBLK_LEASE_NAMESPACE"@) is None && table::value(
            env,
            "UBLK_RECOVERY_TIMEOUT_SECS"@,
        ) is None && table::value(env, "UBLK_LEASE_DURATION_SECS"@) is None,
        table::value(env, "UBLK_COORDINATION"@) is Some ==> {
            &&& table::value(env, "UBLK_LEASE_HOLDER"@) == Some(node_id)
            &&& (table::value(ctx, "leaseNamespace"@) matches Some(n) ==> n.len() > 0
                ==> table::value(env, "UBLK_LEASE_NAMESPACE"@) == Some(n))
            &&& (table::value(ctx, "leaseNamespace"@) is None ==> (pod_namespace matches Some(n)
                ==> n.len() > 0 ==> table::value(env, "UBLK_LEASE_NAMESPACE"@) == Some(n)))
            &&& (table::value(ctx, "leaseNamespace"@) is None && pod_namespace is None
                ==> table::value(env, "UBLK_LEASE_NAMESPACE"@) is None)
            &&& (table::value(ctx, "recoveryTimeoutSecs"@) matches Some(n) ==> n.len() > 0
                ==> table::value(env, "UBLK_RECOVERY_TIMEOUT_SECS"@) == Some(n))
            &&& (table::value(ctx, "leaseDurationSecs"@) matches Some(n) ==> n.len() > 0
                ==> table::value(env, "UBLK_LEASE_DURATION_SECS"@) == Some(n))
        },
{
    lemma_child_names();
    reveal_strlit("true");
    reveal_strlit("1");
    reveal_strlit("yes");
    reveal_strlit("false");
    assert(text::lower_text("true"@) =~= "true"@);
    assert(text::lower_text("1"@) =~= "1"@);
    assert(text::lower_text("yes"@) =~= "yes"@);
    assert(text::lower_text("false"@).len() == 5);
}

/// The filesystem: a type that the capability names wins over the context's, that
/// over `ext4`. The capability's flags are used as they are.
pub proof fn a_filesystem_is_chosen_by_the_capability_first(
    c: DriverConfig,
    node_id: Seq<char>,
    req: NodePublishVolumeRequest,
    pod_namespace: Option<Seq<char>>,
    p: PublishPlan,
)
    requires
        plans(c, node_id, req, pod_namespace, p),
    ensures
        req.access_type matches AccessType::Mount { fs_type, .. } ==> fs_type@.len() > 0
            ==> p.fs_type@ == fs_type@,
        (req.access_type matches AccessType::Mount { fs_type, .. } ==> fs_type@.len() == 0) ==> {
            &&& (table::value(req.volume_context@, "fsType"@) matches Some(t) ==> p.fs_type@ == t)
            &&& (table::value(req.volume_context@, "fsType"@) is None ==> p.fs_type@ == "ext4"@)
        },
        req.access_type matches AccessType::Mount { mount_flags, .. } ==> text::views(
            p.mount_flags@,
        ) == text::views(mount_flags@),
        req.access_type is Block || req.access_type is Unspecified ==> p.mount_flags@.len() == 0,
        p.nbd_listen is Some <==> c.use_nbd,
        p.nbd_listen matches Some(l) ==> l@ == c.nbd_host@ + ":"@ + text::decimal(
            c.nbd_port_start as nat,
        ),
{
    assert(text::views(p.mount_flags@).len() == p.mount_flags@.len());
}

/// The size that a context names is read as it is written; without one, or with
/// something that is no number, there is none.
pub proof fn a_size_is_read_as_it_is_written(ctx: Map<Seq<char>, Seq<char>>, n: u64)
    ensures
        table::value(ctx, "size"@) == Some(text::decimal(n as nat)) ==> size_in(ctx) == n,
        table::value(ctx, "size"@) is None ==> size_in(ctx) == 0,
        table::value(ctx, "size"@) matches Some(s) ==> text::number(s, u64::MAX as nat) is None
            ==> size_in(ctx) == 0,
{
    text::number_reads_decimal(n as nat, u64::MAX as nat);
}

/// A plan mounts with the flags that the capability names, in their order, and serves
/// the device over the network exactly where the driver is set to, on the first port.
pub proof fn a_plan_mounts_with_the_flags_asked_for(
    c: DriverConfig,
    node_id: Seq<char>,
    req: NodePublishVolumeRequest,
    pod_namespace: Option<Seq<char>>,
    p: PublishPlan,
)
    requires
        plans(c, node_id, req, pod_namespace, p),
    ensures
        req.access_type matches AccessType::Mount { mount_flags, .. } ==> p.mount_flags@.len()
            == mount_flags@.len() && forall|i: int|
            0 <= i < mount_flags@.len() ==> (#[trigger] p.mount_flags@[i])@ == mount_flags@[i]@,
        req.access_type !is Mount ==> p.mount_flags@.len() == 0,
        p.nbd_listen is Some <==> c.use_nbd,
        p.nbd_listen matches Some(a) ==> a@ == c.nbd_host@ + ":"@ + text::decimal(
            c.nbd_port_start as nat,
        ),
{
    let own = text::views(p.mount_flags@);
    assert(own.len() == p.mount_flags@.len());
    if let AccessType::Mount { mount_flags, .. } = req.access_type {
        let given = text::views(mount_flags@);
        assert forall|i: int| 0 <= i < mount_flags@.len() implies (
        #[trigger] p.mount_flags@[i])@ == mount_flags@[i]@ by {
            assert(own[i] == given[i]);
        }
    }
}

/// The table of published volumes knows each volume by what was recorded of it last.
pub proof fn a_volume_is_known_by_its_last_record(v: Seq<Published>, p: Published, id: Seq<char>)
    ensures
        volumes_of(Seq::empty()) == Map::<Seq<char>, PublishedView>::empty(),
        volumes_of(v.push(p)).contains_key(p.volume_id@),
        volumes_of(v.push(p))[p.volume_id@].device == p.device@,
        volumes_of(v.push(p))[p.volume_id@].target == p.target@,
        id != p.volume_id@ ==> volumes_of(v.push(p)).contains_key(id) == volumes_of(
            v,
        ).contains_key(id),
        id != p.volume_id@ && volumes_of(v).contains_key(id) ==> volumes_of(v.push(p))[id]
            == volumes_of(v)[id],
{
    assert(v.push(p).drop_last() =~= v);
}

} // verus!
