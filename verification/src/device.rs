//! A single device: which blob it serves, as whom, and how it is put together.
//!
//! The `run`, `test` and `copy` subcommands select one blob, by URL or by the
//! environment that the node service gives its child processes.

use vstd::prelude::*;

use crate::auth;
use crate::auth::{AuthConfig, AuthError, AuthView};
use crate::bloburl;
use crate::bloburl::{BlobUrlError, TemplateBlobRef};
use crate::cli;
use crate::coordination::k8s;
use crate::csi;
use crate::csi::mount;
use crate::csi::node;
use crate::csi::{BackendPlan, DriverConfig};
use crate::table;
use crate::table::Table;
use crate::text;
use crate::ublk_target::UblkConfig;

verus! {

/// The options that select a blob and its credentials.
#[derive(Debug)]
pub struct Cli {
    /// Full Azure blob URL selecting the account, container and blob.
    pub blob_url: Option<String>,
    /// Target a specific blob snapshot.
    pub snapshot: Option<String>,
    /// Storage account key (base64). Enables SharedKey auth mode.
    pub account_key: Option<String>,
    /// Shared Access Signature (SAS) token authenticating the blob.
    pub sas_token: Option<String>,
    /// Enable system-assigned Managed Identity.
    pub msi: bool,
    /// User-assigned Managed Identity: client ID.
    pub msi_client_id: Option<String>,
    /// User-assigned Managed Identity: object ID.
    pub msi_object_id: Option<String>,
    /// User-assigned Managed Identity: resource ID.
    pub msi_resource_id: Option<String>,
    /// Enable Microsoft Entra Workload Identity (federated Kubernetes token).
    pub workload_identity: bool,
    /// Workload Identity / service principal client ID.
    pub azure_client_id: Option<String>,
    /// Workload Identity / service principal tenant ID.
    pub azure_tenant_id: Option<String>,
    /// Path to the projected federated token file.
    pub azure_federated_token_file: Option<String>,
    /// Service principal client secret.
    pub azure_client_secret: Option<String>,
}

/// The blob that a device serves.
#[derive(Debug)]
pub struct Location {
    /// Blob service endpoint URL with a trailing `/`.
    pub endpoint: String,
    /// Storage account name.
    pub account: String,
    /// Container name.
    pub container: String,
    /// Blob name (may contain `/`).
    pub blob: String,
    /// The snapshot to serve, if any.
    pub snapshot: Option<String>,
    /// The SAS token, if any.
    pub sas: Option<String>,
}

/// The texts of a location.
pub struct LocationView {
    pub endpoint: Seq<char>,
    pub account: Seq<char>,
    pub container: Seq<char>,
    pub blob: Seq<char>,
    pub snapshot: Option<Seq<char>>,
    pub sas: Option<Seq<char>>,
}

impl View for Location {
    type V = LocationView;

    open spec fn view(&self) -> LocationView {
        LocationView {
            endpoint: self.endpoint@,
            account: self.account@,
            container: self.container@,
            blob: self.blob@,
            snapshot: text::opt_view(self.snapshot),
            sas: text::opt_view(self.sas),
        }
    }
}

/// Why no blob is selected.
#[derive(Clone, Copy, Debug, PartialEq, Eq, Structural)]
pub enum LocationError {
    BlobUrl(BlobUrlError),
    MissingBlob,
    MissingAccount,
    MissingContainer,
}

impl LocationError {
    /// What is wrong, in words; `blob_url` is the `--blob-url`, if there is one.
    pub open spec fn words(self, blob_url: Seq<char>) -> Seq<char> {
        match self {
            LocationError::BlobUrl(e) => "parse --blob-url: "@ + e.words(blob_url),
            LocationError::MissingBlob => "AZURE_STORAGE_BLOB is required when --blob-url is not set"@,
            LocationError::MissingAccount => "AZURE_STORAGE_ACCOUNT is required when --blob-url is not set"@,
            LocationError::MissingContainer => "AZURE_STORAGE_CONTAINER is required when --blob-url is not set"@,
        }
    }

    /// What is wrong, in words; `blob_url` is the `--blob-url`, if there is one.
    pub fn message(self, blob_url: &str) -> (r: String)
        ensures
            r@ == self.words(blob_url@),
    {
        match self {
            LocationError::BlobUrl(e) => text::concat(
                "parse --blob-url: ",
                e.message(blob_url).as_str(),
            ),
            LocationError::MissingBlob => {
                "AZURE_STORAGE_BLOB is required when --blob-url is not set".to_owned()
            },
            LocationError::MissingAccount => {
                "AZURE_STORAGE_ACCOUNT is required when --blob-url is not set".to_owned()
            },
            LocationError::MissingContainer => {
                "AZURE_STORAGE_CONTAINER is required when --blob-url is not set".to_owned()
            },
        }
    }
}

/// A result over a location's view.
pub open spec fn location_view(r: Result<Location, LocationError>) -> Result<
    LocationView,
    LocationError,
> {
    match r {
        Ok(l) => Ok(l@),
        Err(e) => Err(e),
    }
}

/// The first of two optional values.
pub open spec fn first<T>(a: Option<T>, b: Option<T>) -> Option<T> {
    match a {
        Some(_) => a,
        None => b,
    }
}

/// The first of two optional texts.
fn first_of(a: &Option<String>, b: Option<String>) -> (r: Option<String>)
    ensures
        text::opt_view(r) == first(text::opt_view(*a), text::opt_view(b)),
{
    match a {
        Some(s) => Some(s.clone()),
        None => b,
    }
}

/// A service URL that ends in exactly one slash.
pub open spec fn slashed(url: Seq<char>) -> Seq<char> {
    text::trim_end_char(url, '/') + "/"@
}

/// `url` with exactly one slash at its end.
fn with_slash(url: &str) -> (r: String)
    ensures
        r@ == slashed(url@),
{
    text::concat(text::without_trailing(url, '/').as_str(), "/")
}

/// The location that a parsed URL names, under the options' overrides.
pub open spec fn located(
    b: bloburl::RefView,
    snapshot: Option<Seq<char>>,
    sas: Option<Seq<char>>,
    env: Map<Seq<char>, Seq<char>>,
) -> LocationView {
    LocationView {
        endpoint: slashed(b.service_url),
        account: b.account,
        container: b.container,
        blob: b.blob,
        snapshot: first(
            first(snapshot, b.snapshot),
            table::filled(table::value(env, "AZURE_STORAGE_SNAPSHOT"@)),
        ),
        sas: first(sas, b.sas),
    }
}

/// The location that the environment names: blob, account and container are
/// required, and the endpoint defaults to the account's public one.
pub open spec fn env_location(
    env: Map<Seq<char>, Seq<char>>,
    snapshot: Option<Seq<char>>,
    sas: Option<Seq<char>>,
) -> Result<LocationView, LocationError> {
    match table::filled(table::value(env, "AZURE_STORAGE_BLOB"@)) {
        None => Err(LocationError::MissingBlob),
        Some(blob) => match table::filled(table::value(env, "AZURE_STORAGE_ACCOUNT"@)) {
            None => Err(LocationError::MissingAccount),
            Some(account) => match table::filled(table::value(env, "AZURE_STORAGE_CONTAINER"@)) {
                None => Err(LocationError::MissingContainer),
                Some(container) => {
                    let template = match table::filled(table::value(env, "AZURE_STORAGE_ENDPOINT"@)) {
                        Some(e) => e,
                        None => csi::public_endpoint(account),
                    };
                    Ok(
                        LocationView {
                            endpoint: slashed(text::replace(template, "%s"@, account)),
                            account,
                            container,
                            blob,
                            snapshot: first(
                                snapshot,
                                table::filled(table::value(env, "AZURE_STORAGE_SNAPSHOT"@)),
                            ),
                            sas,
                        },
                    )
                },
            },
        },
    }
}

/// The credentials that the options select for `account`: a SAS token, then an
/// account key, then Workload Identity, then Managed Identity, then a service
/// principal.
pub open spec fn device_auth(c: Cli, account: Seq<char>, sas: Option<Seq<char>>) -> Option<AuthView> {
    let id = cli::identity_of(c.msi_client_id, c.msi_object_id, c.msi_resource_id);
    match (sas, c.account_key) {
        (Some(sas_token), _) => Some(AuthView::Sas { sas_token }),
        (None, Some(k)) => Some(AuthView::SharedKey { account_name: account, account_key: k@ }),
        (None, None) => if c.workload_identity {
            Some(
                AuthView::WorkloadIdentity {
                    client_id: text::opt_view(c.azure_client_id),
                    tenant_id: text::opt_view(c.azure_tenant_id),
                    token_file: text::opt_view(c.azure_federated_token_file),
                },
            )
        } else if id is Some || c.msi {
            Some(AuthView::Msi(id))
        } else {
            match (c.azure_tenant_id, c.azure_client_id, c.azure_client_secret) {
                (Some(t), Some(i), Some(s)) => Some(
                    AuthView::ServicePrincipal { tenant_id: t@, client_id: i@, client_secret: s@ },
                ),
                _ => None,
            }
        },
    }
}

impl Cli {
    /// What the options select, given the parts of the blob URL.
    pub open spec fn selects(
        &self,
        parsed: Result<bloburl::RefView, BlobUrlError>,
        env: Map<Seq<char>, Seq<char>>,
    ) -> Result<LocationView, LocationError> {
        match parsed {
            Ok(b) => Ok(
                located(b, text::opt_view(self.snapshot), text::opt_view(self.sas_token), env),
            ),
            Err(e) => Err(LocationError::BlobUrl(e)),
        }
    }

    /// The location for a blob URL that was taken apart, under the `--snapshot` and
    /// `--sas-token` overrides.
    pub fn location_of(
        &self,
        parsed: Result<TemplateBlobRef, BlobUrlError>,
        env: &Table,
    ) -> (r: Result<Location, LocationError>)
        ensures
            location_view(r) == self.selects(bloburl::ref_view(parsed), env@),
    {
        match parsed {
            Ok(b) => {
                let endpoint = with_slash(b.service_url.as_str());
                let own = first_of(&self.snapshot, b.snapshot);
                let snapshot = first_of(&own, env.get_filled("AZURE_STORAGE_SNAPSHOT"));
                let sas = first_of(&self.sas_token, b.sas);
                Ok(
                    Location {
                        endpoint,
                        account: b.account,
                        container: b.container,
                        blob: b.blob,
                        snapshot,
                        sas,
                    },
                )
            },
            Err(e) => Err(LocationError::BlobUrl(e)),
        }
    }

    /// Resolve the target blob: from `--blob-url`, or else from the environment.
    pub fn location(&self, env: &Table) -> (r: Result<Location, LocationError>)
        ensures
            location_view(r) == (match self.blob_url {
                Some(url) => self.selects(
                    match bloburl::url_parts(url@) {
                        Some(u) => bloburl::blob_ref(u),
                        None => Err(BlobUrlError::NotAUrl),
                    },
                    env@,
                ),
                None => env_location(
                    env@,
                    text::opt_view(self.snapshot),
                    text::opt_view(self.sas_token),
                ),
            }),
    {
        match &self.blob_url {
            Some(url) => self.location_of(bloburl::parse_blob_url(url.as_str()), env),
            None => self.location_from_env(env),
        }
    }

    /// The location that the environment names.
    pub fn location_from_env(&self, env: &Table) -> (r: Result<Location, LocationError>)
        ensures
            location_view(r) == env_location(
                env@,
                text::opt_view(self.snapshot),
                text::opt_view(self.sas_token),
            ),
    {
        let blob = match env.get_filled("AZURE_STORAGE_BLOB") {
            Some(b) => b,
            None => {
                return Err(LocationError::MissingBlob);
            },
        };
        let account = match env.get_filled("AZURE_STORAGE_ACCOUNT") {
            Some(a) => a,
            None => {
                return Err(LocationError::MissingAccount);
            },
        };
        let container = match env.get_filled("AZURE_STORAGE_CONTAINER") {
            Some(c) => c,
            None => {
                return Err(LocationError::MissingContainer);
            },
        };
        let template = match env.get_filled("AZURE_STORAGE_ENDPOINT") {
            Some(e) => e,
            None => text::concat3("https://", account.as_str(), ".blob.core.windows.net/"),
        };
        proof {
            reveal_strlit("%s");
        }
        let full = text::replace_all(template.as_str(), "%s", account.as_str());
        let endpoint = with_slash(full.as_str());
        let snapshot = first_of(&self.snapshot, env.get_filled("AZURE_STORAGE_SNAPSHOT"));
        Ok(
            Location {
                endpoint,
                account,
                container,
                blob,
                snapshot,
                sas: text::clone_opt(&self.sas_token),
            },
        )
    }

    /// Select the credentials for `account`: a SAS token, then an account key,
    /// then Workload Identity, then Managed Identity, then a service principal.
    pub fn build_auth(&self, account: &str, sas: &Option<String>) -> (r: Result<
        AuthConfig,
        AuthError,
    >)
        ensures
            csi::auth_result(r) == (match device_auth(*self, account@, text::opt_view(*sas)) {
                Some(a) => Ok(a),
                None => Err(AuthError::NotConfigured),
            }),
    {
        if let Some(token) = sas {
            return Ok(AuthConfig::Sas { sas_token: token.clone() });
        }
        if let Some(key) = &self.account_key {
            return Ok(
                AuthConfig::SharedKey { account_name: account.to_owned(), account_key: key.clone() },
            );
        }
        if self.workload_identity {
            return Ok(
                AuthConfig::WorkloadIdentity {
                    client_id: text::clone_opt(&self.azure_client_id),
                    tenant_id: text::clone_opt(&self.azure_tenant_id),
                    token_file: text::clone_opt(&self.azure_federated_token_file),
                },
            );
        }
        let id = cli::user_assigned(
            &self.msi_client_id,
            &self.msi_object_id,
            &self.msi_resource_id,
        );
        if id.is_some() || self.msi {
            return Ok(AuthConfig::Msi(id));
        }
        match (&self.azure_tenant_id, &self.azure_client_id, &self.azure_client_secret) {
            (Some(t), Some(i), Some(s)) => Ok(
                AuthConfig::ServicePrincipal {
                    tenant_id: t.clone(),
                    client_id: i.clone(),
                    client_secret: s.clone(),
                },
            ),
            _ => Err(AuthError::NotConfigured),
        }
    }
}

/// What is missing or wrong with the credentials given on the command line, in words.
pub open spec fn auth_words(e: AuthError, service_url: Seq<char>, container: Seq<char>) -> Seq<char> {
    match e {
        AuthError::NotConfigured => "No auth method specified. Use --account-key for Azurite/dev, --workload-identity for AKS (federated token), --msi / --msi-client-id for Managed Identity, or AZURE_CLIENT_ID + AZURE_TENANT_ID + AZURE_CLIENT_SECRET for a service principal."@,
        _ => e.words(service_url, container),
    }
}

/// What is missing or wrong with the credentials given on the command line, in words.
pub fn auth_message(e: AuthError, service_url: &str, container: &str) -> (r: String)
    ensures
        r@ == auth_words(e, service_url@, container@),
{
    match e {
        AuthError::NotConfigured => "No auth method specified. Use --account-key for Azurite/dev, --workload-identity for AKS (federated token), --msi / --msi-client-id for Managed Identity, or AZURE_CLIENT_ID + AZURE_TENANT_ID + AZURE_CLIENT_SECRET for a service principal.".to_owned(),
        _ => e.message(service_url, container),
    }
}

/// Decide how to open a location with its credentials.
pub fn build_azure_backend(loc: &Location, auth: AuthConfig) -> (r: Result<BackendPlan, AuthError>)
    ensures
        csi::backend_planned(
            loc.endpoint@,
            loc.container@,
            loc.blob@,
            text::opt_view(loc.snapshot),
            Some(auth@),
            r,
        ),
{
    match auth::build_container_client(loc.endpoint.as_str(), loc.container.as_str(), &auth) {
        Ok(client) => Ok(
            BackendPlan {
                client,
                auth,
                container: loc.container.clone(),
                blob: loc.blob.clone(),
                snapshot: text::clone_opt(&loc.snapshot),
            },
        ),
        Err(e) => Err(e),
    }
}

// ── Running ─────────────────────────────────────────────────────────────────

/// A snapshot was selected and the blob was to be created.
#[derive(Clone, Copy, Debug, PartialEq, Eq, Structural)]
pub struct CreatesSnapshot;

impl CreatesSnapshot {
    /// What is wrong, in words.
    pub fn message(self) -> (r: String)
        ensures
            r@ == "--create cannot be used against a snapshot (read-only)"@,
    {
        "--create cannot be used against a snapshot (read-only)".to_owned()
    }
}

/// Whether a device is read-only: exactly when it serves a snapshot, which can
/// never change. A snapshot cannot be created.
pub fn read_only(loc: &Location, create: bool) -> (r: Result<bool, CreatesSnapshot>)
    ensures
        r == (if loc.snapshot is Some && create {
            Err(CreatesSnapshot)
        } else {
            Ok(loc.snapshot is Some)
        }),
{
    if loc.snapshot.is_some() && create {
        return Err(CreatesSnapshot);
    }
    Ok(loc.snapshot.is_some())
}

/// Whether writes go through the write-back buffer: it only batches writes, so a
/// read-only device has none, and a page size of 0 turns it off.
pub fn buffers_writes(read_only: bool, page_size: u64) -> (r: bool)
    ensures
        r == (!read_only && page_size > 0),
{
    !read_only && page_size > 0
}

/// `sanitize_cache_component` of `<container>-<blob>`.
pub open spec fn cache_name(container: Seq<char>, blob: Seq<char>) -> Seq<char> {
    mount::component(container + "-"@ + blob)
}

/// Sanitize a string to the cache file-name alphabet (alphanumerics plus `-` and
/// `_`), so that it stays inside the cache directory.
pub fn sanitize_cache_component(s: &str) -> (r: String)
    ensures
        r@ == mount::component(s@),
{
    mount::sanitize_component(s)
}

/// Build a filesystem-safe cache file base name from the container and blob.
pub fn cache_file_name(container: &str, blob: &str) -> (r: String)
    ensures
        r@ == cache_name(container@, blob@),
{
    sanitize_cache_component(text::concat3(container, "-", blob).as_str())
}

/// A setting as a cache name, or the name of the blob.
pub open spec fn cache_name_or(setting: Option<Seq<char>>, loc: LocationView) -> Seq<char> {
    match setting {
        Some(s) => mount::component(s),
        None => cache_name(loc.container, loc.blob),
    }
}

/// The name that a cache's blob identity or instance goes by.
pub fn cache_setting(setting: &Option<String>, loc: &Location) -> (r: String)
    ensures
        r@ == cache_name_or(text::opt_view(*setting), loc@),
{
    match setting {
        Some(s) => sanitize_cache_component(s.as_str()),
        None => cache_file_name(loc.container.as_str(), loc.blob.as_str()),
    }
}

/// How many bytes a cache warm-up reads: the cap, else the cache's budget, else
/// the whole device; never more than the device.
pub fn warmup_limit(warmup_bytes: u64, max_bytes: u64, dev_size: u64) -> (r: u64)
    ensures
        ({
            let wanted = if warmup_bytes > 0 {
                warmup_bytes
            } else if max_bytes > 0 {
                max_bytes
            } else {
                dev_size
            };
            r == (if wanted < dev_size {
                wanted
            } else {
                dev_size
            })
        }),
        r <= dev_size,
        0 < warmup_bytes <= dev_size ==> r == warmup_bytes,
        warmup_bytes == 0 && 0 < max_bytes <= dev_size ==> r == max_bytes,
        warmup_bytes == 0 && max_bytes == 0 ==> r == dev_size,
{
    let wanted: u64 = if warmup_bytes > 0 {
        warmup_bytes
    } else if max_bytes > 0 {
        max_bytes
    } else {
        dev_size
    };
    if wanted < dev_size {
        wanted
    } else {
        dev_size
    }
}

/// The ublk configuration of a device of `dev_size` bytes.
pub fn ublk_config(dev_size: u64, nr_queues: u16, queue_depth: u16, id: i32) -> (r: UblkConfig)
    ensures
        r == (UblkConfig { block_size: 512, dev_size, nr_queues, queue_depth, id }),
{
    UblkConfig { block_size: 512, dev_size, nr_queues, queue_depth, id }
}

// ── Copying a template ──────────────────────────────────────────────────────

/// Decide how to open a template: at its own service URL, with its own SAS when
/// it carries one and otherwise with the device's credentials.
pub fn plan_template_source(c: &Cli, tmpl: &TemplateBlobRef) -> (r: Result<BackendPlan, AuthError>)
    ensures
        csi::backend_planned(
            slashed(tmpl.service_url@),
            tmpl.container@,
            tmpl.blob@,
            text::opt_view(tmpl.snapshot),
            device_auth(*c, tmpl.account@, text::opt_view(tmpl.sas)),
            r,
        ),
{
    let service = with_slash(tmpl.service_url.as_str());
    let auth = match c.build_auth(tmpl.account.as_str(), &tmpl.sas) {
        Ok(a) => a,
        Err(e) => {
            return Err(e);
        },
    };
    match auth::build_container_client(service.as_str(), tmpl.container.as_str(), &auth) {
        Ok(client) => Ok(
            BackendPlan {
                client,
                auth,
                container: tmpl.container.clone(),
                blob: tmpl.blob.clone(),
                snapshot: text::clone_opt(&tmpl.snapshot),
            },
        ),
        Err(e) => Err(e),
    }
}

/// The size of a copy of a template: it holds the template and is at least
/// `min_size`, in whole blocks. Nothing when that does not fit in 64 bits.
pub fn copy_size(source_size: u64, min_size: u64) -> (r: Option<u64>)
    ensures
        ({
            let larger = if source_size < min_size {
                min_size
            } else {
                source_size
            };
            match r {
                Some(n) => n == csi::rounded_512(larger as int) && n >= source_size && n
                    >= min_size,
                None => csi::rounded_512(larger as int) > u64::MAX,
            }
        }),
        r matches Some(n) ==> n % 512 == 0 && n >= 512 && (n < source_size + 512 || n < min_size
            + 512 || n == 512),
        source_size <= 0x7fff_ffff_ffff_ffff && min_size <= 0x7fff_ffff_ffff_ffff ==> r is Some,
{
    let larger: u64 = if source_size < min_size {
        min_size
    } else {
        source_size
    };
    if larger > 18446744073709551104 {
        return None;
    }
    Some(csi::round_up_512(larger))
}

// ── Names for coordination ──────────────────────────────────────────────────

/// The names under which a device takes its cluster lease.
#[derive(Debug)]
pub struct LeaseNames {
    /// The holder identity recorded in the lease.
    pub holder: String,
    /// The namespace of the lease object.
    pub namespace: String,
    /// The name of the lease object.
    pub name: String,
}

/// A setting, else a variable of the environment, else a default; empty values
/// count as absent.
pub open spec fn chosen(
    setting: Option<Seq<char>>,
    env: Map<Seq<char>, Seq<char>>,
    variable: Seq<char>,
    default: Seq<char>,
) -> Seq<char> {
    match first(table::filled(setting), table::filled(table::value(env, variable))) {
        Some(v) => v,
        None => default,
    }
}

/// A setting, else a variable of the environment, else a default.
fn choose_name(setting: Option<String>, env: &Table, variable: &str, default: &str) -> (r: String)
    ensures
        r@ == chosen(text::opt_view(setting), env@, variable@, default@),
{
    let own = table::keep_filled(setting);
    match first_of(&own, env.get_filled(variable)) {
        Some(v) => v,
        None => default.to_owned(),
    }
}

/// The names under which a device takes its cluster lease.
pub fn lease_names(
    loc: &Location,
    holder: Option<String>,
    namespace: Option<String>,
    name: Option<String>,
    env: &Table,
) -> (r: LeaseNames)
    ensures
        r.holder@ == chosen(text::opt_view(holder), env@, "HOSTNAME"@, "unknown-node"@),
        r.namespace@ == chosen(text::opt_view(namespace), env@, "POD_NAMESPACE"@, "default"@),
        r.name@ == (match table::filled(text::opt_view(name)) {
            Some(n) => n,
            None => k8s::lease_name(loc.container@ + "-"@ + loc.blob@),
        }),
{
    let name = match table::keep_filled(name) {
        Some(n) => n,
        None => {
            k8s::sanitize_lease_name(
                text::concat3(loc.container.as_str(), "-", loc.blob.as_str()).as_str(),
            )
        },
    };
    LeaseNames {
        holder: choose_name(holder, env, "HOSTNAME", "unknown-node"),
        namespace: choose_name(namespace, env, "POD_NAMESPACE", "default"),
        name,
    }
}

/// The node's name: the given one, else the host name.
pub fn node_name(node_id: String, env: &Table) -> (r: String)
    ensures
        r@ == chosen(Some(node_id@), env@, "HOSTNAME"@, "unknown-node"@),
{
    choose_name(Some(node_id), env, "HOSTNAME", "unknown-node")
}

// ── The driver ──────────────────────────────────────────────────────────────

/// The endpoint of the driver: the setting, else the public endpoint of the
/// default account, else a generic one.
pub open spec fn driver_endpoint(endpoint: Option<Seq<char>>, account: Seq<char>) -> Seq<char> {
    match endpoint {
        Some(e) => e,
        None => if account.len() == 0 {
            "https://blob.core.windows.net/"@
        } else {
            csi::public_endpoint(account)
        },
    }
}

/// The driver configuration that the options make.
pub fn driver_config(
    c: &Cli,
    account: String,
    container: String,
    endpoint: Option<String>,
    use_nbd: bool,
    nbd_host: String,
    nbd_port_start: u16,
) -> (r: DriverConfig)
    ensures
        r.account == account,
        r.endpoint@ == driver_endpoint(text::opt_view(endpoint), account@),
        r.default_container == container,
        text::opt_view(r.account_key) == text::opt_view(c.account_key),
        r.use_msi == (c.msi || c.msi_client_id is Some || c.msi_object_id is Some
            || c.msi_resource_id is Some),
        text::opt_view(r.msi_client_id) == text::opt_view(c.msi_client_id),
        r.use_workload_identity == c.workload_identity,
        text::opt_view(r.workload_identity_client_id) == text::opt_view(c.azure_client_id),
        text::opt_view(r.workload_identity_tenant_id) == text::opt_view(c.azure_tenant_id),
        text::opt_view(r.workload_identity_token_file) == text::opt_view(
            c.azure_federated_token_file,
        ),
        text::opt_view(r.sp_tenant_id) == text::opt_view(c.azure_tenant_id),
        text::opt_view(r.sp_client_id) == text::opt_view(c.azure_client_id),
        text::opt_view(r.sp_client_secret) == text::opt_view(c.azure_client_secret),
        r.use_nbd == use_nbd,
        r.nbd_host == nbd_host,
        r.nbd_port_start == nbd_port_start,
{
    let endpoint = match endpoint {
        Some(e) => e,
        None => if account.as_str().is_empty() {
            "https://blob.core.windows.net/".to_owned()
        } else {
            text::concat3("https://", account.as_str(), ".blob.core.windows.net/")
        },
    };
    DriverConfig {
        account,
        endpoint,
        default_container: container,
        account_key: text::clone_opt(&c.account_key),
        use_msi: c.msi || c.msi_client_id.is_some() || c.msi_object_id.is_some()
            || c.msi_resource_id.is_some(),
        msi_client_id: text::clone_opt(&c.msi_client_id),
        use_workload_identity: c.workload_identity,
        workload_identity_client_id: text::clone_opt(&c.azure_client_id),
        workload_identity_tenant_id: text::clone_opt(&c.azure_tenant_id),
        workload_identity_token_file: text::clone_opt(&c.azure_federated_token_file),
        sp_tenant_id: text::clone_opt(&c.azure_tenant_id),
        sp_client_id: text::clone_opt(&c.azure_client_id),
        sp_client_secret: text::clone_opt(&c.azure_client_secret),
        use_nbd,
        nbd_host,
        nbd_port_start,
    }
}

// ── Laws ────────────────────────────────────────────────────────────────────

proof fn lemma_env_names()
    ensures
        "AZURE_STORAGE_BLOB"@.len() == 18,
        "AZURE_STORAGE_ACCOUNT"@.len() == 21,
        "AZURE_STORAGE_CONTAINER"@.len() == 23,
        "AZURE_STORAGE_ENDPOINT"@.len() == 22,
        "AZURE_STORAGE_SNAPSHOT"@.len() == 22,
        "AZURE_STORAGE_ENDPOINT"@[14] == 'E',
        "AZURE_STORAGE_SNAPSHOT"@[14] == 'S',
        "AZURE_STORAGE_BLOB"@[14] == 'B',
        "AZURE_STORAGE_ACCOUNT"@[14] == 'A',
        "AZURE_STORAGE_ACCOUNT"@[6] == 'S',
        "AZURE_STORAGE_BLOB"@[6] == 'S',
        "AZURE_STORAGE_CONTAINER"@[6] == 'S',
        "AZURE_STORAGE_CONTAINER"@[14] == 'C',
        "AZURE_STORAGE_ENDPOINT"@[6] == 'S',
        "AZURE_STORAGE_SNAPSHOT"@[6] == 'S',
        "AZURE_STORAGE_KEY"@.len() == 17,
        "AZURE_USE_WORKLOAD_IDENTITY"@.len() == 27,
        "AZURE_CLIENT_ID"@.len() == 15,
        "AZURE_TENANT_ID"@.len() == 15,
        "AZURE_FEDERATED_TOKEN_FILE"@.len() == 26,
        "AZURE_USE_MSI"@.len() == 13,
        "AZURE_MSI_CLIENT_ID"@.len() == 19,
        "AZURE_CLIENT_SECRET"@.len() == 19,
        "UBLK_COORDINATION"@.len() == 17,
        "UBLK_LEASE_HOLDER"@.len() == 17,
        "UBLK_LEASE_NAMESPACE"@.len() == 20,
        "UBLK_RECOVERY_TIMEOUT_SECS"@.len() == 26,
        "UBLK_LEASE_DURATION_SECS"@.len() == 24,
{
    reveal_strlit("AZURE_STORAGE_BLOB");
    reveal_strlit("AZURE_STORAGE_ACCOUNT");
    reveal_strlit("AZURE_STORAGE_CONTAINER");
    reveal_strlit("AZURE_STORAGE_ENDPOINT");
    reveal_strlit("AZURE_STORAGE_SNAPSHOT");
    reveal_strlit("AZURE_STORAGE_KEY");
    reveal_strlit("AZURE_USE_WORKLOAD_IDENTITY");
    reveal_strlit("AZURE_CLIENT_ID");
    reveal_strlit("AZURE_TENANT_ID");
    reveal_strlit("AZURE_FEDERATED_TOKEN_FILE");
    reveal_strlit("AZURE_USE_MSI");
    reveal_strlit("AZURE_MSI_CLIENT_ID");
    reveal_strlit("AZURE_CLIENT_SECRET");
    reveal_strlit("UBLK_COORDINATION");
    reveal_strlit("UBLK_LEASE_HOLDER");
    reveal_strlit("UBLK_LEASE_NAMESPACE");
    reveal_strlit("UBLK_RECOVERY_TIMEOUT_SECS");
    reveal_strlit("UBLK_LEASE_DURATION_SECS");
}

/// The child process that the node service starts for a volume serves that
/// volume's blob, and no snapshot: its environment leads to the account, container
/// and blob of the volume context (or the driver's own account and container).
pub proof fn a_child_serves_its_volume(
    c: DriverConfig,
    node_id: Seq<char>,
    ctx: Map<Seq<char>, Seq<char>>,
    secrets: Map<Seq<char>, Seq<char>>,
    pod_namespace: Option<Seq<char>>,
)
    requires
        node::child_environment(c, node_id, ctx, secrets, pod_namespace) is Ok,
        table::value(ctx, "blob"@) matches Some(b) && b.len() > 0,
        node::ctx_or(ctx, "account"@, c.account@).len() > 0,
        node::ctx_or(ctx, "container"@, c.default_container@).len() > 0,
    ensures
        ({
            let env = node::child_environment(c, node_id, ctx, secrets, pod_namespace)->Ok_0;
            env_location(env, None, None) matches Ok(l) && {
                &&& Some(l.blob) == table::value(ctx, "blob"@)
                &&& l.account == node::ctx_or(ctx, "account"@, c.account@)
                &&& l.container == node::ctx_or(ctx, "container"@, c.default_container@)
                &&& l.snapshot is None
            }
        }),
{
    lemma_env_names();
}

/// An endpoint gets exactly one slash at its end.
pub proof fn an_endpoint_ends_in_one_slash(url: Seq<char>)
    ensures
        slashed(url).last() == '/',
        slashed(url).len() > 1 ==> slashed(url)[slashed(url).len() - 2] != '/',
        url.len() > 0 && url.last() != '/' ==> slashed(url) == url + seq!['/'],
        slashed(url + seq!['/']) == slashed(url),
        slashed(slashed(url)) == slashed(url),
{
    reveal_strlit("/");
    assert("/"@ =~= seq!['/']);
    text::a_trailing_character_is_taken_off(url, '/');
    let t = text::trim_end_char(url, '/');
    assert((url + seq!['/']).drop_last() =~= url);
    assert((t + seq!['/']).drop_last() =~= t);
    text::a_trailing_character_is_taken_off(t, '/');
    if t.len() > 0 {
        assert(text::trim_end_char(t, '/') == t);
    }
}

/// A blob URL selects the account, the container and the blob that it names. An
/// option overrides the URL's snapshot or SAS; the environment's snapshot comes
/// last.
pub proof fn an_option_overrides_the_url(
    b: bloburl::RefView,
    snapshot: Option<Seq<char>>,
    sas: Option<Seq<char>>,
    env: Map<Seq<char>, Seq<char>>,
)
    ensures
        located(b, snapshot, sas, env).account == b.account,
        located(b, snapshot, sas, env).container == b.container,
        located(b, snapshot, sas, env).blob == b.blob,
        b.service_url.len() > 0 && b.service_url.last() != '/' ==> located(
            b,
            snapshot,
            sas,
            env,
        ).endpoint == b.service_url + seq!['/'],
        snapshot is Some ==> located(b, snapshot, sas, env).snapshot == snapshot,
        snapshot is None && b.snapshot is Some ==> located(b, snapshot, sas, env).snapshot
            == b.snapshot,
        snapshot is None && b.snapshot is None ==> located(b, snapshot, sas, env).snapshot
            == table::filled(table::value(env, "AZURE_STORAGE_SNAPSHOT"@)),
        sas is Some ==> located(b, snapshot, sas, env).sas == sas,
        sas is None ==> located(b, snapshot, sas, env).sas == b.sas,
{
    an_endpoint_ends_in_one_slash(b.service_url);
}

/// The environment selects a blob where it names a blob, an account and a
/// container; what is missing first is reported. Without an endpoint the account's
/// public one is used.
pub proof fn the_environment_names_a_blob(
    env: Map<Seq<char>, Seq<char>>,
    snapshot: Option<Seq<char>>,
    sas: Option<Seq<char>>,
)
    ensures
        env_location(env, snapshot, sas) is Ok <==> table::filled(
            table::value(env, "AZURE_STORAGE_BLOB"@),
        ) is Some && table::filled(table::value(env, "AZURE_STORAGE_ACCOUNT"@)) is Some
            && table::filled(table::value(env, "AZURE_STORAGE_CONTAINER"@)) is Some,
        env_location(env, snapshot, sas) matches Err(LocationError::MissingBlob) <==> table::filled(
            table::value(env, "AZURE_STORAGE_BLOB"@),
        ) is None,
        env_location(env, snapshot, sas) matches Err(LocationError::MissingContainer)
            ==> table::filled(table::value(env, "AZURE_STORAGE_ACCOUNT"@)) is Some,
        env_location(env, snapshot, sas) matches Ok(l) ==> {
            &&& Some(l.blob) == table::value(env, "AZURE_STORAGE_BLOB"@)
            &&& Some(l.account) == table::value(env, "AZURE_STORAGE_ACCOUNT"@)
            &&& Some(l.container) == table::value(env, "AZURE_STORAGE_CONTAINER"@)
            &&& l.sas == sas
            &&& (snapshot is Some ==> l.snapshot == snapshot)
            &&& (snapshot is None ==> l.snapshot == table::filled(
                table::value(env, "AZURE_STORAGE_SNAPSHOT"@),
            ))
            &&& l.endpoint.last() == '/'
            &&& (table::value(env, "AZURE_STORAGE_ENDPOINT"@) is None && !text::has_char(
                l.account,
                '%',
            ) ==> l.endpoint == "https://"@ + l.account + ".blob.core.windows.net/"@)
            &&& (table::value(env, "AZURE_STORAGE_ENDPOINT"@) matches Some(e) ==> e.len() > 0
                && !text::has_char(e, '%') && e.last() != '/' ==> l.endpoint == e + seq!['/'])
        },
{
    reveal_strlit("/");
    reveal_strlit("%s");
    reveal_strlit("https://");
    reveal_strlit(".blob.core.windows.net/");
    assert("/"@ =~= seq!['/']);
    if let Ok(l) = env_location(env, snapshot, sas) {
        let public = csi::public_endpoint(l.account);
        if !text::has_char(l.account, '%') {
            text::lemma_index_free("https://"@, '%');
            text::lemma_index_free(".blob.core.windows.net/"@, '%');
            text::lemma_free_concat("https://"@, l.account, '%');
            text::lemma_free_concat("https://"@ + l.account, ".blob.core.windows.net/"@, '%');
            lemma_no_account_place(public, l.account);
            assert(public.last() == '/');
            assert(public.drop_last().last() == 't');
            assert(text::trim_end_char(public, '/') == text::trim_end_char(public.drop_last(), '/'));
            assert(text::trim_end_char(public.drop_last(), '/') == public.drop_last());
            assert(slashed(public) =~= public);
        }
        if let Some(e) = table::value(env, "AZURE_STORAGE_ENDPOINT"@) {
            if e.len() > 0 && !text::has_char(e, '%') {
                lemma_no_account_place(e, l.account);
            }
        }
    }
}

proof fn lemma_no_account_place(s: Seq<char>, account: Seq<char>)
    requires
        !text::has_char(s, '%'),
    ensures
        text::replace(s, "%s"@, account) == s,
{
    reveal_strlit("%s");
    text::lemma_free_index(s, '%');
    assert forall|j: int| !#[trigger] text::at(s, "%s"@, j) by {
        if text::at(s, "%s"@, j) {
            assert(s.subrange(j, j + 2)[0] == s[j]);
        }
    }
    text::replacing_works_from_the_front(s, "%s"@, account);
}

/// A device's credentials: a SAS before a key, a key before a workload identity,
/// that before a managed identity, and that before a complete service principal.
pub proof fn a_device_chooses_its_credentials_in_order(
    c: Cli,
    account: Seq<char>,
    sas: Option<Seq<char>>,
)
    ensures
        sas matches Some(t) ==> device_auth(c, account, sas) == Some(AuthView::Sas { sas_token: t }),
        sas is None ==> (c.account_key matches Some(k) ==> device_auth(c, account, sas) == Some(
            AuthView::SharedKey { account_name: account, account_key: k@ },
        )),
        sas is None && c.account_key is None && c.workload_identity ==> device_auth(c, account, sas)
            == Some(
            AuthView::WorkloadIdentity {
                client_id: text::opt_view(c.azure_client_id),
                tenant_id: text::opt_view(c.azure_tenant_id),
                token_file: text::opt_view(c.azure_federated_token_file),
            },
        ),
        sas is None && c.account_key is None && !c.workload_identity && (c.msi || c.msi_client_id
            is Some || c.msi_object_id is Some || c.msi_resource_id is Some) ==> device_auth(
            c,
            account,
            sas,
        ) == Some(
            AuthView::Msi(cli::identity_of(c.msi_client_id, c.msi_object_id, c.msi_resource_id)),
        ),
        sas is None && c.account_key is None && !c.workload_identity && !c.msi && c.msi_client_id
            is None && c.msi_object_id is None && c.msi_resource_id is None ==> (device_auth(
            c,
            account,
            sas,
        ) is Some <==> c.azure_tenant_id is Some && c.azure_client_id is Some
            && c.azure_client_secret is Some),
        device_auth(c, account, sas) matches Some(
            AuthView::ServicePrincipal { tenant_id, client_id, client_secret },
        ) ==> Some(tenant_id) == text::opt_view(c.azure_tenant_id) && Some(client_id)
            == text::opt_view(c.azure_client_id) && Some(client_secret) == text::opt_view(
            c.azure_client_secret,
        ),
{
}

/// A name is the setting, or else the variable, or else the default; an empty
/// setting or variable counts as none.
pub proof fn a_setting_comes_before_the_environment(
    setting: Option<Seq<char>>,
    env: Map<Seq<char>, Seq<char>>,
    variable: Seq<char>,
    default: Seq<char>,
)
    ensures
        setting matches Some(s) ==> s.len() > 0 ==> chosen(setting, env, variable, default) == s,
        (setting matches Some(s) ==> s.len() == 0) ==> (table::value(env, variable) matches Some(v)
            ==> v.len() > 0 ==> chosen(setting, env, variable, default) == v),
        (setting matches Some(s) ==> s.len() == 0) && (table::value(env, variable) matches Some(v)
            ==> v.len() == 0) ==> chosen(setting, env, variable, default) == default,
{
}

/// The driver's endpoint: the setting as it is, or else the account's public one;
/// without an account, the domain itself.
pub proof fn a_driver_without_an_endpoint_uses_the_public_one(
    endpoint: Option<Seq<char>>,
    account: Seq<char>,
)
    ensures
        endpoint matches Some(e) ==> driver_endpoint(endpoint, account) == e,
        endpoint is None && account.len() > 0 ==> driver_endpoint(endpoint, account) == "https://"@
            + account + ".blob.core.windows.net/"@,
        endpoint is None && account.len() == 0 ==> driver_endpoint(endpoint, account)
            == "https://blob.core.windows.net/"@,
{
}

/// The cache of a blob is named by its container and its blob, with everything
/// that is no ASCII letter or digit, no `-` and no `_` replaced; a setting is used
/// in the place of the two.
pub proof fn a_cache_name_stays_inside_its_directory(
    setting: Option<Seq<char>>,
    loc: LocationView,
    i: int,
)
    ensures
        cache_name_or(None, loc) == mount::component(loc.container + seq!['-'] + loc.blob),
        setting matches Some(s) ==> cache_name_or(setting, loc) == mount::component(s),
        0 <= i < cache_name_or(setting, loc).len() ==> cache_name_or(setting, loc)[i] != '/'
            && cache_name_or(setting, loc)[i] != '.',
{
    reveal_strlit("-");
    assert("-"@ =~= seq!['-']);
    mount::a_component_is_made_of_plain_characters(
        match setting {
            Some(s) => s,
            None => loc.container + seq!['-'] + loc.blob,
        },
        i,
    );
}

} // verus!
