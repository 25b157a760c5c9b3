//! Kubernetes **CSI** (Container Storage Interface) driver rules.
//!
//! One PersistentVolumeClaim maps to exactly one page blob. The CSI *volume id*
//! encodes the storage account, container and blob name as
//! `"{account}/{container}/{blob}"`, so that `DeleteVolume`, which only receives
//! the volume id and secrets, can recover the account chosen at create time.

pub mod controller;
pub mod identity;
pub mod mount;
pub mod node;
pub mod state;

use vstd::prelude::*;

use crate::auth;
use crate::auth::{AuthConfig, AuthError, AuthView, ClientPlan, IdentityView, UserAssignedIdentity};
use crate::backend;
use crate::backend::{BackendError, BlobBackend, Request};
use crate::bloburl::TemplateBlobRef;
use crate::table;
use crate::table::Table;
use crate::text;

verus! {

/// CSI driver name advertised to Kubernetes. Must match the `CSIDriver` object's
/// `metadata.name` and the StorageClass `provisioner`.
pub const DRIVER_NAME: &'static str = "azblob.ublk.csi.tg123.github.io";

/// Driver version reported by `GetPluginInfo`.
pub const DRIVER_VERSION: &'static str = "0.1.0";

// ── Status ──────────────────────────────────────────────────────────────────

/// The gRPC codes that the driver answers with.
#[derive(Clone, Copy, Debug, PartialEq, Eq, Structural)]
pub enum Code {
    InvalidArgument,
    FailedPrecondition,
    Unimplemented,
    Internal,
}

/// A refused or failed request.
#[derive(Debug)]
pub struct Status {
    pub code: Code,
    pub message: String,
}

/// A status with a code and a message.
pub fn status(code: Code, message: &str) -> (r: Status)
    ensures
        r.code == code,
        r.message@ == message@,
{
    Status { code, message: message.to_owned() }
}

/// A status whose message names a step and what went wrong in it.
pub fn failed_step(code: Code, step: &str, why: &str) -> (r: Status)
    ensures
        r.code == code,
        r.message@ == step@ + ": "@ + why@,
{
    Status { code, message: text::concat3(step, ": ", why) }
}

// ── Roles ───────────────────────────────────────────────────────────────────

/// Which CSI services a process serves.
#[derive(Debug, Clone, Copy, PartialEq, Eq, Structural)]
pub enum Role {
    /// Controller service only (provisioning Deployment).
    Controller,
    /// Node service only (per-node DaemonSet).
    Node,
    /// Both controller and node.
    All,
}

/// The role that a text names, whatever its case.
pub open spec fn role_named(s: Seq<char>) -> Option<Role> {
    let l = text::lower_text(s);
    if l == "controller"@ {
        Some(Role::Controller)
    } else if l == "node"@ {
        Some(Role::Node)
    } else if l == "all"@ {
        Some(Role::All)
    } else {
        None
    }
}

impl Role {
    /// The role that `s` names (`controller`, `node` or `all`, in any case).
    pub fn parse(s: &str) -> (r: Option<Role>)
        ensures
            r == role_named(s@),
    {
        let l = text::to_lower(s);
        if text::same(l.as_str(), "controller") {
            Some(Role::Controller)
        } else if text::same(l.as_str(), "node") {
            Some(Role::Node)
        } else if text::same(l.as_str(), "all") {
            Some(Role::All)
        } else {
            None
        }
    }

    /// Whether the controller service is served.
    pub fn serves_controller(self) -> (r: bool)
        ensures
            r == (self is Controller || self is All),
    {
        match self {
            Role::Node => false,
            _ => true,
        }
    }

    /// Whether the node service is served.
    pub fn serves_node(self) -> (r: bool)
        ensures
            r == (self is Node || self is All),
    {
        match self {
            Role::Controller => false,
            _ => true,
        }
    }
}

// ── Endpoint of the server ──────────────────────────────────────────────────

/// Where the CSI server listens.
#[derive(Debug)]
pub enum Listen {
    /// A unix socket at a path.
    Unix(String),
    /// A TCP address.
    Tcp(String),
}

/// Split a CSI endpoint: `unix://` before a socket's path, otherwise a TCP
/// address, with or without `tcp://`.
pub fn listen_address(endpoint: &str) -> (r: Listen)
    ensures
        if text::begins(endpoint@, "unix://"@) {
            r matches Listen::Unix(p) && p@ == endpoint@.skip("unix://"@.len() as int)
        } else if text::begins(endpoint@, "tcp://"@) {
            r matches Listen::Tcp(p) && p@ == endpoint@.skip("tcp://"@.len() as int)
        } else {
            r matches Listen::Tcp(p) && p@ == endpoint@
        },
{
    if let Some(p) = text::after_prefix(endpoint, "unix://") {
        return Listen::Unix(p);
    }
    if let Some(p) = text::after_prefix(endpoint, "tcp://") {
        return Listen::Tcp(p);
    }
    Listen::Tcp(endpoint.to_owned())
}

// ── Driver configuration ────────────────────────────────────────────────────

/// Driver-level storage configuration shared by every CSI request.
#[derive(Debug)]
pub struct DriverConfig {
    /// Azure Storage account name.
    pub account: String,
    /// Service endpoint URL, or a template in which `%s` stands for the account.
    pub endpoint: String,
    /// Default container used when a StorageClass does not set one.
    pub default_container: String,
    /// Account key for SharedKey auth (Azurite / local dev), if configured.
    pub account_key: Option<String>,
    /// Use Managed Identity when no account key is provided.
    pub use_msi: bool,
    /// Optional user-assigned Managed Identity client id.
    pub msi_client_id: Option<String>,
    /// Use Microsoft Entra Workload Identity (federated Kubernetes token).
    pub use_workload_identity: bool,
    /// Optional Workload Identity client id (defaults to `AZURE_CLIENT_ID`).
    pub workload_identity_client_id: Option<String>,
    /// Optional Workload Identity tenant id (defaults to `AZURE_TENANT_ID`).
    pub workload_identity_tenant_id: Option<String>,
    /// Optional federated token file path.
    pub workload_identity_token_file: Option<String>,
    /// Service principal Entra ID tenant id (client-secret auth).
    pub sp_tenant_id: Option<String>,
    /// Service principal application (client) id (client-secret auth).
    pub sp_client_id: Option<String>,
    /// Service principal client secret (client-secret auth).
    pub sp_client_secret: Option<String>,
    /// Use NBD instead of ublk for node devices (compatibility mode).
    pub use_nbd: bool,
    /// NBD listen address prefix (e.g. `127.0.0.1`).
    pub nbd_host: String,
    /// Starting port for NBD servers (each volume gets host:port+N).
    pub nbd_port_start: u16,
}

// ── Volume ids ──────────────────────────────────────────────────────────────

/// The id of the volume on a blob; `ro` marks a read-only template volume.
pub open spec fn volume_id(ro: bool, account: Seq<char>, container: Seq<char>, blob: Seq<char>) -> Seq<
    char,
> {
    (if ro {
        "ro:"@
    } else {
        Seq::empty()
    }) + account + "/"@ + container + "/"@ + blob
}

/// What a volume id stands for: whether it is read-only, its account, container
/// and blob. Nothing where one of them is missing.
pub open spec fn volume_of(id: Seq<char>) -> Option<(bool, Seq<char>, Seq<char>, Seq<char>)> {
    let ro = text::begins(id, "ro:"@);
    let rest = if ro {
        id.skip(3)
    } else {
        id
    };
    let i = text::find_from(rest, '/', 0);
    if i >= rest.len() {
        None
    } else {
        let j = text::find_from(rest, '/', i + 1);
        if j >= rest.len() || i == 0 || j == i + 1 || j + 1 == rest.len() {
            None
        } else {
            Some((ro, rest.take(i), rest.subrange(i + 1, j), rest.skip(j + 1)))
        }
    }
}

/// Encode an `(account, container, blob)` triple as a CSI volume id.
///
/// Account and container names cannot contain `/`, so splitting on the first two
/// `/` is unambiguous even though blob names may themselves contain slashes.
pub fn make_volume_id(account: &str, container: &str, blob: &str) -> (r: String)
    ensures
        r@ == volume_id(false, account@, container@, blob@),
{
    let mut r = text::concat3(account, "/", container);
    r.append("/");
    r.append(blob);
    assert(r@ == volume_id(false, account@, container@, blob@));
    r
}

/// Encode a read-only **template** volume id.
///
/// Read-only volumes point many PVCs at one shared golden-image blob. The `ro:`
/// marker lets `DeleteVolume` recognise them and skip deletion.
pub fn make_volume_id_ro(account: &str, container: &str, blob: &str) -> (r: String)
    ensures
        r@ == volume_id(true, account@, container@, blob@),
{
    let mut r = text::concat3("ro:", account, "/");
    r.append(container);
    r.append("/");
    r.append(blob);
    r
}

/// A malformed volume id.
#[derive(Clone, Copy, Debug, PartialEq, Eq, Structural)]
pub struct MalformedVolumeId {}

/// Decode a CSI volume id into `(read_only, account, container, blob)`.
pub fn parse_volume_id(volume_id: &str) -> (r: Result<
    (bool, String, String, String),
    MalformedVolumeId,
>)
    ensures
        match r {
            Ok((ro, a, c, b)) => volume_of(volume_id@) == Some((ro, a@, c@, b@)),
            Err(_) => volume_of(volume_id@) is None,
        },
{
    let read_only = text::begins_with(volume_id, "ro:");
    proof {
        reveal_strlit("ro:");
    }
    let all = text::chars_of(volume_id);
    let start: usize = if read_only {
        3
    } else {
        0
    };
    let rest_text = text::slice_of(&all, start, all.len());
    let rest = text::chars_of(rest_text.as_str());
    proof {
        let w = if read_only {
            volume_id@.skip(3)
        } else {
            volume_id@
        };
        assert(rest@ == w);
    }
    let n: usize = rest.len();
    let i: usize = text::find_char(&rest, '/', 0);
    proof {
        text::lemma_find_from(rest@, '/', 0);
    }
    if i >= n {
        return Err(MalformedVolumeId {  });
    }
    let j: usize = text::find_char(&rest, '/', i + 1);
    proof {
        text::lemma_find_from(rest@, '/', i + 1);
    }
    if j >= n || i == 0 || j == i + 1 || j + 1 == n {
        return Err(MalformedVolumeId {  });
    }
    let account = text::slice_of(&rest, 0, i);
    let container = text::slice_of(&rest, i + 1, j);
    let blob = text::slice_of(&rest, j + 1, n);
    proof {
        assert(account@ == rest@.take(i as int));
        assert(blob@ == rest@.skip(j + 1));
    }
    Ok((read_only, account, container, blob))
}

/// Names that can be told apart in a volume id.
pub open spec fn encodable(account: Seq<char>, container: Seq<char>, blob: Seq<char>) -> bool {
    &&& account.len() > 0
    &&& container.len() > 0
    &&& blob.len() > 0
    &&& !text::has_char(account, '/')
    &&& !text::has_char(container, '/')
}

/// A volume id gives back what it was made from; an account of a read-write
/// volume must not itself begin with the read-only marker.
pub proof fn volume_id_reads_back(
    ro: bool,
    account: Seq<char>,
    container: Seq<char>,
    blob: Seq<char>,
)
    requires
        encodable(account, container, blob),
        !ro ==> !text::begins(account, "ro:"@),
    ensures
        volume_of(volume_id(ro, account, container, blob)) == Some((ro, account, container, blob)),
{
    reveal_strlit("ro:");
    reveal_strlit("/");
    let id = volume_id(ro, account, container, blob);
    let tail = account + "/"@ + container + "/"@ + blob;
    if ro {
        assert(id == "ro:"@ + tail);
        assert(id.take(3) == "ro:"@);
        assert(id.subrange(0, 3) == "ro:"@);
        assert(id.skip(3) == tail);
    } else {
        assert(id == tail);
        if text::begins(id, "ro:"@) {
            assert(id.subrange(0, 3) == "ro:"@);
            text::lemma_free_index(account, '/');
            if account.len() >= 3 {
                assert(account.subrange(0, 3) == id.subrange(0, 3));
                assert(text::begins(account, "ro:"@));
            } else {
                assert(id[account.len() as int] == '/');
                assert(id.subrange(0, 3)[account.len() as int] == '/');
                assert(false);
            }
        }
    }
    assert(text::begins(id, "ro:"@) == ro);
    let i = account.len() as int;
    let j = i + 1 + container.len();
    text::lemma_free_index(account, '/');
    text::lemma_free_index(container, '/');
    assert(tail[i] == '/');
    assert(tail[j] == '/');
    assert forall|k: int| 0 <= k < i implies tail[k] != '/' by {
        assert(tail[k] == account[k]);
    }
    assert forall|k: int| i + 1 <= k < j implies tail[k] != '/' by {
        assert(tail[k] == container[k - i - 1]);
    }
    text::lemma_find_at(tail, '/', 0, i);
    text::lemma_find_at(tail, '/', i + 1, j);
    assert(tail.take(i) == account);
    assert(tail.subrange(i + 1, j) == container);
    assert(tail.skip(j + 1) == blob);
}

/// No read-write volume is taken for a read-only one, and no read-only one for a
/// volume that may be deleted.
pub proof fn volume_ids_do_not_mix(
    account: Seq<char>,
    container: Seq<char>,
    blob: Seq<char>,
    account2: Seq<char>,
    container2: Seq<char>,
    blob2: Seq<char>,
)
    requires
        encodable(account, container, blob),
        encodable(account2, container2, blob2),
        !text::begins(account, "ro:"@),
    ensures
        volume_id(false, account, container, blob) != volume_id(true, account2, container2, blob2),
{
    volume_id_reads_back(false, account, container, blob);
    volume_id_reads_back(true, account2, container2, blob2);
}

// ── Sizes ───────────────────────────────────────────────────────────────────

/// `n` rounded up to a multiple of 512, and at least 512.
pub open spec fn rounded_512(n: int) -> int {
    if n <= 0 {
        512
    } else {
        (n + 511) / 512 * 512
    }
}

/// Round `n` up to the next multiple of 512 (the page-blob alignment), with a
/// floor of 512 bytes.
pub fn round_up_512(n: u64) -> (r: u64)
    requires
        rounded_512(n as int) <= u64::MAX,
    ensures
        r == rounded_512(n as int),
        r % 512 == 0,
        r >= 512,
        r >= n,
{
    if n == 0 {
        512
    } else {
        let blocks: u64 = (n - 1) / 512 + 1;
        assert(blocks == (n + 511) / 512);
        blocks * 512
    }
}

// ── Auth and backends ───────────────────────────────────────────────────────

/// A request's secret, or else the driver's own setting.
pub open spec fn secret_or(
    secrets: Map<Seq<char>, Seq<char>>,
    name: Seq<char>,
    own: Option<String>,
) -> Option<Seq<char>> {
    match table::value(secrets, name) {
        Some(v) => Some(v),
        None => text::opt_view(own),
    }
}

fn secret_or_own(secrets: &Table, name: &str, own: &Option<String>) -> (r: Option<String>)
    ensures
        text::opt_view(r) == secret_or(secrets@, name@, *own),
{
    match secrets.get(name) {
        Some(v) => Some(v),
        None => text::clone_opt(own),
    }
}

/// The auth configuration for `account`: an account key, else Workload Identity,
/// else Managed Identity, else a complete service principal.
pub open spec fn driver_auth(
    c: DriverConfig,
    account: Seq<char>,
    secrets: Map<Seq<char>, Seq<char>>,
) -> Option<AuthView> {
    match secret_or(secrets, "accountKey"@, c.account_key) {
        Some(account_key) => Some(AuthView::SharedKey { account_name: account, account_key }),
        None => if c.use_workload_identity {
            Some(
                AuthView::WorkloadIdentity {
                    client_id: text::opt_view(c.workload_identity_client_id),
                    tenant_id: text::opt_view(c.workload_identity_tenant_id),
                    token_file: text::opt_view(c.workload_identity_token_file),
                },
            )
        } else if c.use_msi || c.msi_client_id is Some {
            Some(
                AuthView::Msi(
                    match text::opt_view(c.msi_client_id) {
                        Some(id) => Some(IdentityView::ClientId(id)),
                        None => None,
                    },
                ),
            )
        } else {
            match (
                secret_or(secrets, "AZURE_TENANT_ID"@, c.sp_tenant_id),
                secret_or(secrets, "AZURE_CLIENT_ID"@, c.sp_client_id),
                secret_or(secrets, "AZURE_CLIENT_SECRET"@, c.sp_client_secret),
            ) {
                (Some(tenant_id), Some(client_id), Some(client_secret)) => Some(
                    AuthView::ServicePrincipal { tenant_id, client_id, client_secret },
                ),
                _ => None,
            }
        },
    }
}

/// A result over an auth configuration's view.
pub open spec fn auth_result(r: Result<AuthConfig, AuthError>) -> Result<AuthView, AuthError> {
    match r {
        Ok(a) => Ok(a@),
        Err(e) => Err(e),
    }
}

/// Select the driver's auth config for `account`, honouring per-request secrets
/// (e.g. a SharedKey `accountKey`).
pub fn select_driver_auth(config: &DriverConfig, account: &str, secrets: &Table) -> (r: Result<
    AuthConfig,
    AuthError,
>)
    ensures
        auth_result(r) == (match driver_auth(*config, account@, secrets@) {
            Some(a) => Ok(a),
            None => Err(AuthError::NotConfigured),
        }),
{
    if let Some(key) = secret_or_own(secrets, "accountKey", &config.account_key) {
        return Ok(AuthConfig::SharedKey { account_name: account.to_owned(), account_key: key });
    }
    if config.use_workload_identity {
        return Ok(
            AuthConfig::WorkloadIdentity {
                client_id: text::clone_opt(&config.workload_identity_client_id),
                tenant_id: text::clone_opt(&config.workload_identity_tenant_id),
                token_file: text::clone_opt(&config.workload_identity_token_file),
            },
        );
    }
    if config.use_msi || config.msi_client_id.is_some() {
        let id = match &config.msi_client_id {
            Some(s) => Some(UserAssignedIdentity::ClientId(s.clone())),
            None => None,
        };
        return Ok(AuthConfig::Msi(id));
    }
    let tenant = secret_or_own(secrets, "AZURE_TENANT_ID", &config.sp_tenant_id);
    let client = secret_or_own(secrets, "AZURE_CLIENT_ID", &config.sp_client_id);
    let secret = secret_or_own(secrets, "AZURE_CLIENT_SECRET", &config.sp_client_secret);
    match (tenant, client, secret) {
        (Some(tenant_id), Some(client_id), Some(client_secret)) => Ok(
            AuthConfig::ServicePrincipal { tenant_id, client_id, client_secret },
        ),
        _ => Err(AuthError::NotConfigured),
    }
}

/// The public Azure endpoint of an account.
pub open spec fn public_endpoint(account: Seq<char>) -> Seq<char> {
    "https://"@ + account + ".blob.core.windows.net/"@
}

/// The endpoint of `account` under the endpoint setting `endpoint`: the setting
/// with `%s` replaced by the account, or else the public endpoint.
pub open spec fn endpoint_for(endpoint: Seq<char>, account: Seq<char>) -> Seq<char> {
    if text::has_text(endpoint, "%s"@) {
        text::replace(endpoint, "%s"@, account)
    } else {
        public_endpoint(account)
    }
}

/// The subdomain-style endpoint URL for `account` under the driver config.
pub fn account_endpoint(config: &DriverConfig, account: &str) -> (r: String)
    ensures
        r@ == endpoint_for(config.endpoint@, account@),
{
    if text::contains_text(config.endpoint.as_str(), "%s") {
        proof {
            reveal_strlit("%s");
        }
        text::replace_all(config.endpoint.as_str(), "%s", account)
    } else {
        text::concat3("https://", account, ".blob.core.windows.net/")
    }
}

/// Everything needed to open a page blob.
#[derive(Debug)]
pub struct BackendPlan {
    pub client: ClientPlan,
    pub auth: AuthConfig,
    pub container: String,
    pub blob: String,
    /// The snapshot to read, if any; a snapshot is read-only.
    pub snapshot: Option<String>,
}

/// `r` opens `blob` of `container` at `service_url` with `auth` (an auth
/// configuration, or the lack of one).
pub open spec fn backend_planned(
    service_url: Seq<char>,
    container: Seq<char>,
    blob: Seq<char>,
    snapshot: Option<Seq<char>>,
    auth: Option<AuthView>,
    r: Result<BackendPlan, AuthError>,
) -> bool {
    match auth {
        None => r == Err::<BackendPlan, _>(AuthError::NotConfigured),
        Some(a) => match r {
            Ok(p) => {
                &&& auth::client_planned(service_url, container, a, Ok(p.client))
                &&& p.auth@ == a
                &&& p.container@ == container
                &&& p.blob@ == blob
                &&& text::opt_view(p.snapshot) == snapshot
            },
            Err(e) => auth::client_planned(service_url, container, a, Err(e)),
        },
    }
}

/// Decide how to open `container`/`blob` of `account` with the driver
/// configuration, allowing per-request `secrets` to override the account key.
pub fn build_backend(
    config: &DriverConfig,
    account: &str,
    container: &str,
    blob: &str,
    secrets: &Table,
) -> (r: Result<BackendPlan, AuthError>)
    ensures
        backend_planned(
            endpoint_for(config.endpoint@, account@),
            container@,
            blob@,
            None,
            driver_auth(*config, account@, secrets@),
            r,
        ),
{
    let auth = match select_driver_auth(config, account, secrets) {
        Ok(a) => a,
        Err(e) => {
            return Err(e);
        },
    };
    let endpoint = account_endpoint(config, account);
    let client = match auth::build_container_client(endpoint.as_str(), container, &auth) {
        Ok(c) => c,
        Err(e) => {
            return Err(e);
        },
    };
    Ok(
        BackendPlan {
            client,
            auth,
            container: container.to_owned(),
            blob: blob.to_owned(),
            snapshot: None,
        },
    )
}

/// The service URL of a template, ending in one slash.
pub open spec fn template_service(t: TemplateBlobRef) -> Seq<char> {
    text::trim_end_char(t.service_url@, '/') + "/"@
}

/// Where a template is read: at its own service if its URL carries a SAS, else at
/// the driver's endpoint for its account.
pub open spec fn template_endpoint(c: DriverConfig, t: TemplateBlobRef) -> Seq<char> {
    if t.sas is Some {
        template_service(t)
    } else {
        endpoint_for(c.endpoint@, t.account@)
    }
}

/// Where a template is read.
pub fn template_service_url(config: &DriverConfig, tmpl: &TemplateBlobRef) -> (r: String)
    ensures
        r@ == template_endpoint(*config, *tmpl),
{
    if tmpl.sas.is_some() {
        text::concat(text::without_trailing(tmpl.service_url.as_str(), '/').as_str(), "/")
    } else {
        account_endpoint(config, tmpl.account.as_str())
    }
}

/// Decide how to read a template blob: with the URL's own SAS token when it has
/// one, otherwise with the driver's credentials. The snapshot, if any, applies.
pub fn build_template_backend(config: &DriverConfig, tmpl: &TemplateBlobRef, secrets: &Table) -> (r:
    Result<BackendPlan, AuthError>)
    ensures
        match tmpl.sas {
            Some(sas) => backend_planned(
                template_service(*tmpl),
                tmpl.container@,
                tmpl.blob@,
                text::opt_view(tmpl.snapshot),
                Some(AuthView::Sas { sas_token: sas@ }),
                r,
            ),
            None => backend_planned(
                endpoint_for(config.endpoint@, tmpl.account@),
                tmpl.container@,
                tmpl.blob@,
                text::opt_view(tmpl.snapshot),
                driver_auth(*config, tmpl.account@, secrets@),
                r,
            ),
        },
{
    let (service_url, auth) = match &tmpl.sas {
        Some(sas) => (
            text::concat(text::without_trailing(tmpl.service_url.as_str(), '/').as_str(), "/"),
            AuthConfig::Sas { sas_token: sas.clone() },
        ),
        None => {
            let auth = match select_driver_auth(config, tmpl.account.as_str(), secrets) {
                Ok(a) => a,
                Err(e) => {
                    return Err(e);
                },
            };
            (account_endpoint(config, tmpl.account.as_str()), auth)
        },
    };
    let client = match auth::build_container_client(
        service_url.as_str(),
        tmpl.container.as_str(),
        &auth,
    ) {
        Ok(c) => c,
        Err(e) => {
            return Err(e);
        },
    };
    Ok(
        BackendPlan {
            client,
            auth,
            container: tmpl.container.clone(),
            blob: tmpl.blob.clone(),
            snapshot: text::clone_opt(&tmpl.snapshot),
        },
    )
}

// ── Copying a template ──────────────────────────────────────────────────────

/// How a template blob is copied.
#[derive(Clone, Copy, Debug, PartialEq, Eq, Structural)]
pub enum CopyMode {
    /// `Put Page From URL`; the URL's SAS authenticates the source.
    ServerWithSas,
    /// `Put Page From URL` under a copy-source bearer token of the destination's
    /// own Entra identity.
    ServerWithToken,
    /// Download and upload through this process.
    Streamed,
}

/// Prefer a server-side copy; stream where the storage service cannot
/// authenticate the source read (an account key, no source SAS).
pub fn copy_mode(source_has_sas: bool, dest_auth: &AuthConfig) -> (r: CopyMode)
    ensures
        r == (if source_has_sas {
            CopyMode::ServerWithSas
        } else if auth::entra(dest_auth@) {
            CopyMode::ServerWithToken
        } else {
            CopyMode::Streamed
        }),
{
    if source_has_sas {
        CopyMode::ServerWithSas
    } else if auth::uses_token(dest_auth) {
        CopyMode::ServerWithToken
    } else {
        CopyMode::Streamed
    }
}

/// The start of the chunk that holds byte `i`.
pub open spec fn chunk_start(i: int, chunk: int) -> int {
    i / chunk * chunk
}

/// The length of the chunk that starts at `at`.
pub open spec fn chunk_len(at: int, chunk: int, total: int) -> int {
    if chunk < total - at {
        chunk
    } else {
        total - at
    }
}

/// Byte `i` lies in a chunk that is copied rather than cleared.
pub open spec fn copied(ranges: Option<Seq<(u64, u64)>>, i: int, chunk: int, total: int) -> bool {
    match ranges {
        Some(r) => backend::intersects(
            r,
            chunk_start(i, chunk),
            chunk_len(chunk_start(i, chunk), chunk, total),
        ),
        None => true,
    }
}

/// What a copy leaves in the destination: the source's bytes in the chunks that
/// meet its data ranges, zeros in the others, and its own bytes beyond `total`.
pub open spec fn copy_of(
    dest: Seq<u8>,
    source: Seq<u8>,
    ranges: Option<Seq<(u64, u64)>>,
    chunk: int,
    total: int,
    upto: int,
) -> Seq<u8> {
    Seq::new(
        dest.len(),
        |i: int|
            if i >= upto {
                dest[i]
            } else if copied(ranges, i, chunk, total) {
                source[i]
            } else {
                0
            },
    )
}

/// How many of the first `upto` bytes a copy takes from the source.
pub open spec fn copied_count(
    ranges: Option<Seq<(u64, u64)>>,
    chunk: int,
    total: int,
    upto: int,
) -> int
    decreases upto,
{
    if upto <= 0 {
        0
    } else {
        copied_count(ranges, chunk, total, upto - 1) + if copied(ranges, upto - 1, chunk, total) {
            1int
        } else {
            0int
        }
    }
}

/// The bytes of one chunk count alike.
proof fn lemma_copied_chunk(
    ranges: Option<Seq<(u64, u64)>>,
    chunk: int,
    total: int,
    at: int,
    len: int,
    yes: bool,
)
    requires
        0 <= at,
        0 <= len,
        forall|i: int| at <= i < at + len ==> #[trigger] copied(ranges, i, chunk, total) == yes,
    ensures
        copied_count(ranges, chunk, total, at + len) == copied_count(ranges, chunk, total, at) + if yes {
            len
        } else {
            0
        },
    decreases len,
{
    if len > 0 {
        lemma_copied_chunk(ranges, chunk, total, at, len - 1, yes);
        assert(copied(ranges, at + len - 1, chunk, total) == yes);
    }
}

/// The ranges of an optional sparseness map.
pub open spec fn ranges_view(r: Option<&Vec<(u64, u64)>>) -> Option<Seq<(u64, u64)>> {
    match r {
        Some(v) => Some(v@),
        None => None,
    }
}

/// The chunk at `at` lies in a zero gap.
pub open spec fn gap_at(ranges: Option<Seq<(u64, u64)>>, at: int, chunk: int, total: int) -> bool {
    ranges matches Some(r) && !backend::intersects(r, at, chunk_len(at, chunk, total))
}

/// What a copy asks of the source from byte `at` on: each chunk that is in no gap.
pub open spec fn copy_reads(
    ranges: Option<Seq<(u64, u64)>>,
    chunk: int,
    total: int,
    at: int,
) -> Seq<Request>
    decreases total - at,
{
    if at < 0 || at >= total || chunk <= 0 {
        Seq::empty()
    } else {
        let len = chunk_len(at, chunk, total);
        (if gap_at(ranges, at, chunk, total) {
            Seq::empty()
        } else {
            seq![Request::Read { offset: at as u64, len: len as u64 }]
        }) + copy_reads(ranges, chunk, total, at + len)
    }
}

/// What a copy asks of the destination from byte `at` on: to clear each gap, and to
/// write the source's bytes elsewhere.
pub open spec fn copy_changes(
    ranges: Option<Seq<(u64, u64)>>,
    source: Seq<u8>,
    chunk: int,
    total: int,
    at: int,
) -> Seq<Request>
    decreases total - at,
{
    if at < 0 || at >= total || chunk <= 0 {
        Seq::empty()
    } else {
        let len = chunk_len(at, chunk, total);
        seq![
            if gap_at(ranges, at, chunk, total) {
                Request::Clear { offset: at as u64, len: len as u64 }
            } else {
                Request::Write { offset: at as u64, data: source.subrange(at, at + len) }
            },
        ] + copy_changes(ranges, source, chunk, total, at + len)
    }
}

/// Streamed, chunked copy of `total_size` bytes from `source` into `dest`.
///
/// `source_data_ranges` is the source's sparseness map: chunks lying entirely in
/// a zero gap are **cleared** on `dest` rather than copied, so the destination
/// reads back as zero there even when it is not freshly created. Returns how many
/// bytes were copied and how many cleared.
pub fn copy_blob_streamed<S: BlobBackend, D: BlobBackend>(
    source: &mut S,
    dest: &mut D,
    total_size: u64,
    source_data_ranges: Option<&Vec<(u64, u64)>>,
    chunk: u64,
) -> (r: Result<(u64, u64), BackendError>)
    requires
        old(source).valid(),
        old(dest).valid(),
        chunk > 0,
    ensures
        final(source).valid(),
        final(source).bytes() == old(source).bytes(),
        final(dest).valid(),
        r matches Ok((copied_bytes, cleared_bytes)) ==> {
            &&& copied_bytes == copied_count(
                ranges_view(source_data_ranges),
                chunk as int,
                total_size as int,
                total_size as int,
            )
            &&& copied_bytes + cleared_bytes == total_size
            &&& total_size <= old(dest).bytes().len()
            &&& final(dest).bytes() == copy_of(
                old(dest).bytes(),
                old(source).bytes(),
                ranges_view(source_data_ranges),
                chunk as int,
                total_size as int,
                total_size as int,
            )
            &&& final(dest).durable() == final(dest).bytes()
            &&& final(source).requests() == old(source).requests() + copy_reads(
                ranges_view(source_data_ranges),
                chunk as int,
                total_size as int,
                0,
            )
            &&& final(dest).requests() == (old(dest).requests() + copy_changes(
                ranges_view(source_data_ranges),
                old(source).bytes(),
                chunk as int,
                total_size as int,
                0,
            )).push(Request::Flush)
        },
        r is Err && total_size <= old(dest).bytes().len() ==> backend::torn(
            final(dest).bytes(),
            old(dest).bytes(),
            copy_of(
                old(dest).bytes(),
                old(source).bytes(),
                ranges_view(source_data_ranges),
                chunk as int,
                total_size as int,
                total_size as int,
            ),
        ),
        r is Err && chunk % 512 == 0 && backend::fair_range(
            0,
            total_size as int,
            old(source).bytes().len() as int,
        ) && backend::fair_range(0, total_size as int, old(dest).bytes().len() as int) ==> (
        final(source).faults() > old(source).faults() || final(dest).faults() > old(dest).faults()),
{
    let ghost src = source.bytes();
    let ghost dst = dest.bytes();
    let ghost ranges = ranges_view(source_data_ranges);
    let mut offset: u64 = 0;
    let mut copied_bytes: u64 = 0;
    let mut cleared_bytes: u64 = 0;
    assert(dest.bytes() =~= copy_of(dst, src, ranges, chunk as int, total_size as int, 0));
    assert(0int % (chunk as int) == 0) by {
        vstd::arithmetic::div_mod::lemma_mod_multiples_vanish(0, 0, chunk as int);
        vstd::arithmetic::div_mod::lemma_small_mod(0, chunk as nat);
    }
    while offset < total_size
        invariant
            chunk > 0,
            source.valid(),
            dest.valid(),
            source.bytes() == src,
            src == old(source).bytes(),
            dst == old(dest).bytes(),
            offset <= total_size,
            offset < total_size ==> offset % chunk == 0,
            source.faults() >= old(source).faults(),
            dest.faults() >= old(dest).faults(),
            chunk % 512 == 0 && total_size % 512 == 0 ==> offset % 512 == 0,
            offset <= dst.len(),
            copied_bytes == copied_count(ranges, chunk as int, total_size as int, offset as int),
            copied_bytes + cleared_bytes == offset,
            ranges == ranges_view(source_data_ranges),
            dest.bytes() == copy_of(dst, src, ranges, chunk as int, total_size as int, offset as int),
            source.requests() + copy_reads(ranges, chunk as int, total_size as int, offset as int) == old(
                source,
            ).requests() + copy_reads(ranges, chunk as int, total_size as int, 0),
            dest.requests() + copy_changes(
                ranges,
                src,
                chunk as int,
                total_size as int,
                offset as int,
            ) == old(dest).requests() + copy_changes(ranges, src, chunk as int, total_size as int, 0),
        decreases total_size - offset,
    {
        let len: u64 = if chunk < total_size - offset {
            chunk
        } else {
            total_size - offset
        };
        let ghost at = offset as int;
        let ghost had = source.requests();
        let ghost gave = dest.requests();
        let ghost whole = copy_of(dst, src, ranges, chunk as int, total_size as int, total_size as int);
        let ghost next = copy_of(dst, src, ranges, chunk as int, total_size as int, at + len);
        proof {
            assert forall|i: int| at <= i < at + len implies #[trigger] chunk_start(i, chunk as int)
                == at by {
                lemma_chunk_start(at, i, chunk as int);
            }
            if offset + len < total_size {
                lemma_next_chunk(at, chunk as int);
            }
        }
        let gap = match source_data_ranges {
            Some(ranges) => !backend::range_intersects(ranges, offset, len),
            None => false,
        };
        if gap {
            let done = dest.clear(offset, len);
            proof {
                if done is Err && total_size <= dst.len() {
                    assert forall|i: int| 0 <= i < dst.len() implies #[trigger] dest.bytes()[i] == dst[i]
                        || dest.bytes()[i] == whole[i] by {
                        if at <= i < at + len {
                            assert(chunk_start(i, chunk as int) == at);
                            assert(copied(ranges, i, chunk as int, total_size as int) == !gap);
                        }
                    }
                }
            }
            match done {
                Ok(()) => {},
                Err(e) => {
                    return Err(e);
                },
            }
            cleared_bytes = cleared_bytes + len;
        } else {
            let data = match source.read(offset, len) {
                Ok(d) => d,
                Err(e) => {
                    return Err(e);
                },
            };
            if data.len() as u64 != len {
                return Err(
                    BackendError::ShortRead { offset, expected: len, got: data.len() as u64 },
                );
            }
            let done = dest.write(offset, &data);
            proof {
                if done is Err && total_size <= dst.len() {
                    assert forall|i: int| 0 <= i < dst.len() implies #[trigger] dest.bytes()[i] == dst[i]
                        || dest.bytes()[i] == whole[i] by {
                        if at <= i < at + len {
                            assert(chunk_start(i, chunk as int) == at);
                            assert(copied(ranges, i, chunk as int, total_size as int) == !gap);
                        }
                    }
                }
            }
            match done {
                Ok(()) => {},
                Err(e) => {
                    return Err(e);
                },
            }
            copied_bytes = copied_bytes + len;
        }
        proof {
            assert(dest.bytes().len() == dst.len());
            assert forall|i: int| 0 <= i < dst.len() implies #[trigger] dest.bytes()[i] == next[i] by {
                if at <= i < at + len {
                    assert(chunk_start(i, chunk as int) == at);
                    assert(copied(ranges, i, chunk as int, total_size as int) == !gap);
                }
            }
            assert(dest.bytes() =~= next);
            assert forall|i: int| at <= i < at + len implies #[trigger] copied(
                ranges,
                i,
                chunk as int,
                total_size as int,
            ) == !gap by {
                assert(chunk_start(i, chunk as int) == at);
            }
            lemma_copied_chunk(ranges, chunk as int, total_size as int, at, len as int, !gap);
            assert(gap == gap_at(ranges, at, chunk as int, total_size as int));
            assert(source.requests() + copy_reads(ranges, chunk as int, total_size as int, at + len)
                =~= had + copy_reads(ranges, chunk as int, total_size as int, at));
            assert(dest.requests() + copy_changes(
                ranges,
                src,
                chunk as int,
                total_size as int,
                at + len,
            ) =~= gave + copy_changes(ranges, src, chunk as int, total_size as int, at));
        }
        offset = offset + len;
    }
    proof {
        let (c, t) = (chunk as int, total_size as int);
        assert(source.requests() + copy_reads(ranges, c, t, t) =~= source.requests());
        assert(dest.requests() + copy_changes(ranges, src, c, t, t) =~= dest.requests());
    }
    match dest.flush() {
        Ok(()) => {},
        Err(e) => {
            return Err(e);
        },
    }
    Ok((copied_bytes, cleared_bytes))
}

proof fn lemma_chunk_start(at: int, i: int, chunk: int)
    requires
        chunk > 0,
        0 <= at <= i < at + chunk,
        at % chunk == 0,
    ensures
        chunk_start(i, chunk) == at,
{
    vstd::arithmetic::div_mod::lemma_fundamental_div_mod(at, chunk);
    let q = at / chunk;
    assert(q * chunk == chunk * q) by (nonlinear_arith);
    vstd::arithmetic::div_mod::lemma_fundamental_div_mod_converse(i, chunk, q, i - at);
}

proof fn lemma_next_chunk(at: int, chunk: int)
    requires
        chunk > 0,
        at % chunk == 0,
    ensures
        (at + chunk) % chunk == 0,
{
    vstd::arithmetic::div_mod::lemma_mod_add_multiples_vanish(at, chunk);
}

/// Byte `i` of a source lies in one of its data ranges.
pub open spec fn in_ranges(ranges: Seq<(u64, u64)>, i: int) -> bool {
    exists|k: int|
        0 <= k < ranges.len() && (#[trigger] ranges[k]).0 <= i && i < ranges[k].0 + ranges[k].1
}

/// A copy by sparseness map is a full copy: when the source is zero outside its
/// data ranges, every copied byte of the destination equals the source's.
pub proof fn sparse_copy_is_a_full_copy(
    dest: Seq<u8>,
    source: Seq<u8>,
    ranges: Seq<(u64, u64)>,
    chunk: int,
    total: int,
)
    requires
        chunk > 0,
        0 <= total <= dest.len(),
        total <= source.len(),
        forall|i: int| 0 <= i < total && !in_ranges(ranges, i) ==> #[trigger] source[i] == 0,
    ensures
        copy_of(dest, source, Some(ranges), chunk, total, total).take(total) == source.take(total),
{
    let c = copy_of(dest, source, Some(ranges), chunk, total, total);
    assert forall|i: int| 0 <= i < total implies #[trigger] c[i] == source[i] by {
        if !copied(Some(ranges), i, chunk, total) {
            if in_ranges(ranges, i) {
                let k = choose|k: int|
                    0 <= k < ranges.len() && (#[trigger] ranges[k]).0 <= i && i < ranges[k].0
                        + ranges[k].1;
                let at = chunk_start(i, chunk);
                let len = chunk_len(at, chunk, total);
                vstd::arithmetic::div_mod::lemma_fundamental_div_mod(i, chunk);
                assert(i / chunk * chunk == chunk * (i / chunk)) by (nonlinear_arith);
                vstd::arithmetic::div_mod::lemma_mod_bound(i, chunk);
                assert(at <= i < at + chunk);
                assert(i < at + len);
                assert(ranges[k].0 < at + len && at < ranges[k].0 + ranges[k].1);
                assert(backend::intersects(ranges, at, len));
                assert(false);
            }
        }
    }
    assert(c.take(total) =~= source.take(total));
}

// ── What the rules come to ──────────────────────────────────────────────────

/// A role is named by its word in any case, and by nothing else.
pub proof fn a_role_is_named_by_its_word(s: Seq<char>)
    ensures
        role_named("controller"@) == Some(Role::Controller),
        role_named("node"@) == Some(Role::Node),
        role_named("all"@) == Some(Role::All),
        role_named(s) == role_named(text::lower_text(s)),
        role_named(s) is Some ==> text::lower_text(s) == "controller"@ || text::lower_text(s)
            == "node"@ || text::lower_text(s) == "all"@,
{
    reveal_strlit("controller");
    reveal_strlit("node");
    reveal_strlit("all");
    assert(text::lower_text("controller"@) =~= "controller"@);
    assert(text::lower_text("node"@) =~= "node"@);
    assert(text::lower_text("all"@) =~= "all"@);
    assert(text::lower_text(text::lower_text(s)) =~= text::lower_text(s));
}

/// A volume id is the account, the container and the blob with slashes between,
/// and `ro:` in front of a read-only one.
pub proof fn a_volume_id_spells_its_blob_out(
    account: Seq<char>,
    container: Seq<char>,
    blob: Seq<char>,
)
    ensures
        volume_id(false, account, container, blob) == account + seq!['/'] + container + seq!['/']
            + blob,
        volume_id(true, account, container, blob) == seq!['r', 'o', ':'] + volume_id(
            false,
            account,
            container,
            blob,
        ),
{
    reveal_strlit("ro:");
    reveal_strlit("/");
    assert("/"@ =~= seq!['/']);
    assert("ro:"@ =~= seq!['r', 'o', ':']);
    assert(volume_id(false, account, container, blob) =~= account + seq!['/'] + container + seq!['/']
        + blob);
    assert(volume_id(true, account, container, blob) =~= seq!['r', 'o', ':'] + (account + seq!['/']
        + container + seq!['/'] + blob));
}

/// What a volume id is read as is what it was written from: an id that is read at
/// all is the id of what was read, and no part of it is empty.
pub proof fn a_volume_id_is_read_as_written(id: Seq<char>)
    ensures
        volume_of(id) matches Some((ro, account, container, blob)) ==> volume_id(
            ro,
            account,
            container,
            blob,
        ) == id && encodable(account, container, blob),
{
    reveal_strlit("ro:");
    reveal_strlit("/");
    assert("/"@ =~= seq!['/']);
    if let Some((ro, account, container, blob)) = volume_of(id) {
        let rest = if ro {
            id.skip(3)
        } else {
            id
        };
        if ro {
            text::a_beginning_is_what_stands_in_front("ro:"@, rest);
            assert(id =~= "ro:"@ + rest);
        }
        let i = text::find_from(rest, '/', 0);
        text::lemma_find_from(rest, '/', 0);
        let j = text::find_from(rest, '/', i + 1);
        text::lemma_find_from(rest, '/', i + 1);
        text::lemma_index_free(account, '/');
        assert forall|k: int| 0 <= k < container.len() implies #[trigger] container[k] != '/' by {
            assert(container[k] == rest[i + 1 + k]);
        }
        text::lemma_index_free(container, '/');
        assert(rest =~= account + "/"@ + container + "/"@ + blob);
        assert(volume_id(ro, account, container, blob) =~= id);
    }
}

/// Rounding gives the smallest number of whole sectors that holds `n` bytes, and
/// never none.
pub proof fn rounding_gives_the_next_whole_sector(n: int)
    ensures
        rounded_512(n) % 512 == 0,
        rounded_512(n) >= 512,
        rounded_512(n) >= n,
        n > 0 ==> rounded_512(n) < n + 512,
        n > 0 && n % 512 == 0 ==> rounded_512(n) == n,
        n <= 0 ==> rounded_512(n) == 512,
{
}

/// A key comes first, be it the request's or the driver's; then a workload
/// identity, then a managed identity, then a service principal; without any of them
/// there is no way in.
pub proof fn credentials_are_tried_in_order(
    c: DriverConfig,
    account: Seq<char>,
    secrets: Map<Seq<char>, Seq<char>>,
)
    ensures
        table::value(secrets, "accountKey"@) matches Some(k) ==> driver_auth(c, account, secrets)
            == Some(AuthView::SharedKey { account_name: account, account_key: k }),
        table::value(secrets, "accountKey"@) is None ==> (c.account_key matches Some(k)
            ==> driver_auth(c, account, secrets) == Some(
            AuthView::SharedKey { account_name: account, account_key: k@ },
        )),
        table::value(secrets, "accountKey"@) is None && c.account_key is None ==> {
            &&& (c.use_workload_identity <==> (driver_auth(c, account, secrets) matches Some(a)
                && a is WorkloadIdentity))
            &&& (!c.use_workload_identity ==> ((c.use_msi || c.msi_client_id is Some) <==> (
            driver_auth(c, account, secrets) matches Some(a) && a is Msi)))
        },
        driver_auth(c, account, secrets) matches Some(
            AuthView::WorkloadIdentity { client_id, tenant_id, token_file },
        ) ==> client_id == text::opt_view(c.workload_identity_client_id) && tenant_id
            == text::opt_view(c.workload_identity_tenant_id) && token_file == text::opt_view(
            c.workload_identity_token_file,
        ),
        driver_auth(c, account, secrets) matches Some(AuthView::Msi(id)) ==> match c.msi_client_id {
            Some(s) => id == Some(IdentityView::ClientId(s@)),
            None => id is None,
        },
        driver_auth(c, account, secrets) matches Some(
            AuthView::ServicePrincipal { tenant_id, client_id, client_secret },
        ) ==> {
            &&& Some(tenant_id) == secret_or(secrets, "AZURE_TENANT_ID"@, c.sp_tenant_id)
            &&& Some(client_id) == secret_or(secrets, "AZURE_CLIENT_ID"@, c.sp_client_id)
            &&& Some(client_secret) == secret_or(
                secrets,
                "AZURE_CLIENT_SECRET"@,
                c.sp_client_secret,
            )
        },
        table::value(secrets, "accountKey"@) is None && c.account_key is None
            && !c.use_workload_identity && !c.use_msi && c.msi_client_id is None ==> (driver_auth(
            c,
            account,
            secrets,
        ) is Some <==> secret_or(secrets, "AZURE_TENANT_ID"@, c.sp_tenant_id) is Some && secret_or(
            secrets,
            "AZURE_CLIENT_ID"@,
            c.sp_client_id,
        ) is Some && secret_or(secrets, "AZURE_CLIENT_SECRET"@, c.sp_client_secret) is Some),
        !(driver_auth(c, account, secrets) matches Some(AuthView::Sas { .. })),
{
}

/// A secret of the request wins over the driver's own setting.
pub proof fn a_secret_wins_over_the_setting(
    secrets: Map<Seq<char>, Seq<char>>,
    name: Seq<char>,
    own: Option<String>,
)
    ensures
        table::value(secrets, name) is Some ==> secret_or(secrets, name, own) == table::value(
            secrets,
            name,
        ),
        table::value(secrets, name) is None && own is None ==> secret_or(secrets, name, own) is None,
        table::value(secrets, name) is None ==> (own matches Some(s) ==> secret_or(
            secrets,
            name,
            own,
        ) == Some(s@)),
{
}

/// An endpoint setting with a `%s` in it is the account's endpoint with the account
/// in that place; any other setting leads to the account's public endpoint.
pub proof fn an_endpoint_is_made_for_the_account(
    a: Seq<char>,
    b: Seq<char>,
    account: Seq<char>,
)
    requires
        !text::has_char(a, '%'),
        !text::has_char(b, '%'),
    ensures
        endpoint_for(a + seq!['%', 's'] + b, account) == a + account + b,
        endpoint_for(a, account) == "https://"@ + account + ".blob.core.windows.net/"@,
{
    reveal_strlit("%s");
    let p = seq!['%', 's'];
    assert("%s"@ =~= p);
    let s = a + p + b;
    let n = a.len() as int;
    text::lemma_free_index(a, '%');
    text::lemma_free_index(b, '%');
    assert forall|j: int| 0 <= j < n implies !#[trigger] text::at(s, p, j) by {
        if text::at(s, p, j) {
            assert(s.subrange(j, j + 2)[0] == s[j]);
            assert(s[j] == a[j]);
        }
    }
    text::a_search_finds_the_first_occurrence(s, p, 0);
    assert(s.subrange(n, n + 2) =~= p);
    assert(text::at(s, p, n));
    assert(text::has_text(s, p));
    text::replacing_works_from_the_front(s, p, account);
    assert forall|j: int| !#[trigger] text::at(b, p, j) by {
        if text::at(b, p, j) {
            assert(b.subrange(j, j + 2)[0] == b[j]);
        }
    }
    text::replacing_works_from_the_front(b, p, account);
    text::a_search_finds_the_first_occurrence(a, p, 0);
    if let Some(k) = text::find_text(a, p, 0) {
        assert(text::at(a, p, k));
        assert(a.subrange(k, k + 2)[0] == a[k]);
    }
}

/// A template's service ends in exactly one slash, however many its URL had.
pub proof fn a_template_service_ends_in_one_slash(t: TemplateBlobRef)
    ensures
        template_service(t).last() == '/',
        template_service(t).len() > 1 ==> template_service(t)[template_service(t).len() - 2] != '/',
        t.service_url@.len() > 0 && t.service_url@.last() != '/' ==> template_service(t)
            == t.service_url@ + seq!['/'],
        template_service(t).len() - 1 <= t.service_url@.len(),
        template_service(t).drop_last() == t.service_url@.take(template_service(t).len() - 1),
{
    reveal_strlit("/");
    assert("/"@ =~= seq!['/']);
    text::a_trailing_character_is_taken_off(t.service_url@, '/');
    assert(template_service(t).drop_last() =~= text::trim_end_char(t.service_url@, '/'));
}

/// A backend is refused as unconfigured only for want of credentials; one that is
/// opened opens the blob that was asked for, with those credentials.
pub proof fn a_backend_opens_what_was_asked_for(
    service_url: Seq<char>,
    container: Seq<char>,
    blob: Seq<char>,
    snapshot: Option<Seq<char>>,
    auth: Option<AuthView>,
    r: Result<BackendPlan, AuthError>,
)
    requires
        backend_planned(service_url, container, blob, snapshot, auth, r),
    ensures
        r matches Err(AuthError::NotConfigured) <==> auth is None,
        r matches Ok(p) ==> p.blob@ == blob && p.container@ == container && text::opt_view(
            p.snapshot,
        ) == snapshot && auth == Some(p.auth@) && auth::client_planned(
            service_url,
            container,
            p.auth@,
            Ok(p.client),
        ),
{
    if let Some(a) = auth {
        auth::a_client_is_refused_for_a_reason_only(
            service_url,
            container,
            a,
            match r {
                Ok(p) => Ok(p.client),
                Err(e) => Err(e),
            },
        );
    }
}

/// A copy without a sparseness map copies every byte of its range, counts them all,
/// and leaves the bytes beyond it alone.
pub proof fn a_copy_without_a_map_copies_everything(
    dest: Seq<u8>,
    source: Seq<u8>,
    chunk: int,
    total: int,
)
    requires
        chunk > 0,
        0 <= total <= dest.len(),
        total <= source.len(),
    ensures
        copy_of(dest, source, None, chunk, total, total) == source.take(total) + dest.skip(total),
        copied_count(None, chunk, total, total) == total,
{
    assert(copy_of(dest, source, None, chunk, total, total) =~= source.take(total) + dest.skip(
        total,
    ));
    lemma_copied_chunk(None, chunk, total, 0, total, true);
}

/// Whatever the sparseness map, a copy keeps the destination's length and the bytes
/// beyond its range, and each byte inside is the source's or zero; a byte in a data
/// range is the source's.
pub proof fn a_copy_changes_its_range_only(
    dest: Seq<u8>,
    source: Seq<u8>,
    ranges: Seq<(u64, u64)>,
    chunk: int,
    total: int,
    i: int,
)
    requires
        chunk > 0,
        0 <= total <= dest.len(),
        total <= source.len(),
        0 <= i < dest.len(),
    ensures
        copy_of(dest, source, Some(ranges), chunk, total, total).len() == dest.len(),
        i >= total ==> copy_of(dest, source, Some(ranges), chunk, total, total)[i] == dest[i],
        i < total ==> copy_of(dest, source, Some(ranges), chunk, total, total)[i] == source[i]
            || copy_of(dest, source, Some(ranges), chunk, total, total)[i] == 0,
        i < total && in_ranges(ranges, i) ==> copy_of(
            dest,
            source,
            Some(ranges),
            chunk,
            total,
            total,
        )[i] == source[i],
        ranges.len() == 0 && i < total ==> copy_of(
            dest,
            source,
            Some(ranges),
            chunk,
            total,
            total,
        )[i] == 0,
{
    if i < total && in_ranges(ranges, i) {
        let k = choose|k: int|
            0 <= k < ranges.len() && (#[trigger] ranges[k]).0 <= i && i < ranges[k].0 + ranges[k].1;
        let at = chunk_start(i, chunk);
        let len = chunk_len(at, chunk, total);
        vstd::arithmetic::div_mod::lemma_fundamental_div_mod(i, chunk);
        assert(i / chunk * chunk == chunk * (i / chunk)) by (nonlinear_arith);
        vstd::arithmetic::div_mod::lemma_mod_bound(i, chunk);
        assert(at <= i < at + chunk);
        assert(ranges[k].0 < at + len && at < ranges[k].0 + ranges[k].1);
        assert(backend::intersects(ranges, at, len));
    }
}

/// The changes that a copy asks for lie end to end: the first begins where the copy
/// begins, each of the others where the one in front of it ends, and the last ends
/// where the copy ends. None is longer than a chunk.
pub proof fn the_changes_of_a_copy_lie_end_to_end(
    ranges: Option<Seq<(u64, u64)>>,
    source: Seq<u8>,
    chunk: int,
    total: int,
    at: int,
)
    requires
        chunk > 0,
        0 <= at < total <= source.len(),
        total <= u64::MAX,
    ensures
        copy_changes(ranges, source, chunk, total, at).len() > 0,
        change_start(copy_changes(ranges, source, chunk, total, at)[0]) == at,
        change_end(copy_changes(ranges, source, chunk, total, at).last()) == total,
        forall|k: int|
            0 <= k < copy_changes(ranges, source, chunk, total, at).len() ==> 0 < change_end(
                #[trigger] copy_changes(ranges, source, chunk, total, at)[k],
            ) - change_start(copy_changes(ranges, source, chunk, total, at)[k]) <= chunk,
        forall|k: int, l: int|
            0 <= k && l == k + 1 && l < copy_changes(ranges, source, chunk, total, at).len()
                ==> change_start(#[trigger] copy_changes(ranges, source, chunk, total, at)[l])
                == change_end(#[trigger] copy_changes(ranges, source, chunk, total, at)[k]),
    decreases total - at,
{
    let len = chunk_len(at, chunk, total);
    let all = copy_changes(ranges, source, chunk, total, at);
    let rest = copy_changes(ranges, source, chunk, total, at + len);
    assert(source.subrange(at, at + len).len() == len);
    assert(all.len() == rest.len() + 1);
    assert forall|k: int| 1 <= k < all.len() implies #[trigger] all[k] == rest[k - 1] by {}
    if at + len < total {
        the_changes_of_a_copy_lie_end_to_end(ranges, source, chunk, total, at + len);
        assert(all.last() == rest.last());
    } else {
        assert(rest =~= Seq::<Request>::empty());
        assert(all.last() == all[0]);
    }
}

/// Where a change of a blob begins.
pub open spec fn change_start(r: Request) -> int {
    match r {
        Request::Write { offset, .. } => offset as int,
        Request::Clear { offset, .. } => offset as int,
        _ => -1,
    }
}

/// Where a change of a blob ends.
pub open spec fn change_end(r: Request) -> int {
    match r {
        Request::Write { offset, data } => offset + data.len(),
        Request::Clear { offset, len } => offset + len,
        _ => -1,
    }
}

/// The reads that a list of changes needs: one for each write, of the bytes that it
/// writes.
pub open spec fn reads_for(changes: Seq<Request>) -> Seq<Request>
    decreases changes.len(),
{
    if changes.len() == 0 {
        Seq::empty()
    } else {
        (match changes[0] {
            Request::Write { offset, data } => seq![
                Request::Read { offset, len: data.len() as u64 },
            ],
            _ => Seq::empty(),
        }) + reads_for(changes.skip(1))
    }
}

/// A copy reads exactly what it writes: of every chunk that is written at the
/// destination the same bytes are read at the source, and of a cleared one nothing.
pub proof fn a_copy_reads_what_it_writes(
    ranges: Option<Seq<(u64, u64)>>,
    source: Seq<u8>,
    chunk: int,
    total: int,
    at: int,
)
    requires
        chunk > 0,
        0 <= at,
        total <= source.len() <= u64::MAX,
    ensures
        copy_reads(ranges, chunk, total, at) == reads_for(
            copy_changes(ranges, source, chunk, total, at),
        ),
    decreases total - at,
{
    if at < total {
        let len = chunk_len(at, chunk, total);
        a_copy_reads_what_it_writes(ranges, source, chunk, total, at + len);
        let all = copy_changes(ranges, source, chunk, total, at);
        let rest = copy_changes(ranges, source, chunk, total, at + len);
        assert(all.skip(1) =~= rest);
        assert(source.subrange(at, at + len).len() == len);
    }
}

} // verus!
