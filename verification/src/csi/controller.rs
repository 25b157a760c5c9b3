//! CSI **Controller** service: provisioning (`CreateVolume`), de-provisioning
//! (`DeleteVolume`) and growing (`ControllerExpandVolume`) of the Azure page blob
//! that backs a PersistentVolume.
//!
//! The service decides; its caller performs the storage requests in between and
//! hands the outcome to the next decision.

use vstd::prelude::*;

use crate::auth;
use crate::bloburl;
use crate::bloburl::TemplateBlobRef;
use crate::csi;
use crate::csi::node;
use crate::csi::{BackendPlan, Code, CopyMode, DriverConfig, Status};
use crate::table;
use crate::table::Table;
use crate::text;

verus! {

/// Default blob path template.
pub const DEFAULT_BLOB_PATH_TEMPLATE: &'static str = "ublk-azblob-disk/${pv.name}";

/// Controller service.
pub struct ControllerService {
    pub config: DriverConfig,
}

/// A request for a volume.
#[derive(Debug)]
pub struct CreateVolumeRequest {
    /// The volume's name (the PersistentVolume's).
    pub name: String,
    /// The minimum size; 0 where the request names none.
    pub required_bytes: i64,
    /// StorageClass parameters and the metadata that the provisioner injects.
    pub parameters: Table,
    /// Request secrets.
    pub secrets: Table,
}

/// A provisioned volume.
#[derive(Debug)]
pub struct Volume {
    pub capacity_bytes: i64,
    pub volume_id: String,
    /// Everything the node needs to attach the device later.
    pub volume_context: Table,
}

/// The blob that a volume lives on.
#[derive(Debug)]
pub struct Target {
    pub account: String,
    pub container: String,
    pub blob: String,
    /// The requested size, rounded up.
    pub size: u64,
}

/// What to do for a `CreateVolume` request.
#[derive(Debug)]
pub enum CreateStep {
    /// Create a fresh blob of the target's size; then the volume is there.
    Fresh { backend: BackendPlan, target: Target, volume: Volume },
    /// Find out the size of a template blob.
    Template { source: BackendPlan, tmpl: TemplateBlobRef, url: String, target: Target },
}

/// What to do once the size of a template is known.
#[derive(Debug)]
pub enum TemplateStep {
    /// The template is mounted as it is.
    Mount { volume: Volume },
    /// Create a blob of `size` bytes and copy the template into it; then the
    /// volume is there.
    Copy { dest: BackendPlan, mode: CopyMode, size: u64, volume: Volume },
}

// ── Names ───────────────────────────────────────────────────────────────────

/// A template with its three variables replaced.
pub open spec fn expanded(
    template: Seq<char>,
    pvc_name: Seq<char>,
    pvc_namespace: Seq<char>,
    pv_name: Seq<char>,
) -> Seq<char> {
    text::replace(
        text::replace(
            text::replace(template, "${pvc.name}"@, pvc_name),
            "${pvc.namespace}"@,
            pvc_namespace,
        ),
        "${pv.name}"@,
        pv_name,
    )
}

/// Expand the variables of a template.
pub fn expand_template(template: &str, pvc_name: &str, pvc_namespace: &str, pv_name: &str) -> (r:
    String)
    ensures
        r@ == expanded(template@, pvc_name@, pvc_namespace@, pv_name@),
{
    proof {
        reveal_strlit("${pvc.name}");
        reveal_strlit("${pvc.namespace}");
        reveal_strlit("${pv.name}");
    }
    let a = text::replace_all(template, "${pvc.name}", pvc_name);
    let b = text::replace_all(a.as_str(), "${pvc.namespace}", pvc_namespace);
    text::replace_all(b.as_str(), "${pv.name}", pv_name)
}

/// A path without empty segments and without surrounding white space.
pub open spec fn sanitized_path(path: Seq<char>) -> Seq<char> {
    text::join(text::parts(text::trim(path), '/'), "/"@)
}

/// Sanitize a path by removing leading and trailing slashes and collapsing
/// repeated ones.
pub fn sanitize_path(path: &str) -> (r: String)
    ensures
        r@ == sanitized_path(path@),
{
    let v = text::parts_of(text::trimmed(path).as_str(), '/');
    assert(text::views(v@).skip(0) == text::views(v@));
    text::join_all(&v, 0, "/")
}

/// A parameter, or a default without one.
pub open spec fn param_or(m: Map<Seq<char>, Seq<char>>, name: Seq<char>, default: Seq<char>) -> Seq<
    char,
> {
    match table::value(m, name) {
        Some(v) => v,
        None => default,
    }
}

/// A template from the parameters, expanded for the volume `name`; else a secret;
/// else the driver's default.
pub open spec fn chosen(
    params: Map<Seq<char>, Seq<char>>,
    secrets: Map<Seq<char>, Seq<char>>,
    name: Seq<char>,
    param: Seq<char>,
    secret: Seq<char>,
    default: Seq<char>,
) -> Seq<char> {
    match table::value(params, param) {
        Some(t) => expanded(
            t,
            param_or(params, "csi.storage.k8s.io/pvc/name"@, Seq::empty()),
            param_or(params, "csi.storage.k8s.io/pvc/namespace"@, Seq::empty()),
            name,
        ),
        None => param_or(secrets, secret, default),
    }
}

/// The storage account of a new volume.
pub open spec fn account_of(c: DriverConfig, req: CreateVolumeRequest) -> Seq<char> {
    chosen(
        req.parameters@,
        req.secrets@,
        req.name@,
        "storageAccount"@,
        "AZURE_STORAGE_ACCOUNT"@,
        c.account@,
    )
}

/// The container of a new volume.
pub open spec fn container_of(c: DriverConfig, req: CreateVolumeRequest) -> Seq<char> {
    chosen(
        req.parameters@,
        req.secrets@,
        req.name@,
        "container"@,
        "AZURE_STORAGE_CONTAINER"@,
        c.default_container@,
    )
}

/// The blob of a new volume.
pub open spec fn blob_of(req: CreateVolumeRequest) -> Seq<char> {
    sanitized_path(
        expanded(
            param_or(req.parameters@, "blobPathTemplate"@, "ublk-azblob-disk/${pv.name}"@),
            param_or(req.parameters@, "csi.storage.k8s.io/pvc/name"@, Seq::empty()),
            param_or(req.parameters@, "csi.storage.k8s.io/pvc/namespace"@, Seq::empty()),
            req.name@,
        ),
    )
}

/// The size of a new volume: the required bytes, rounded up.
pub open spec fn size_of(required_bytes: i64) -> int {
    csi::rounded_512(required_bytes as int)
}

/// The template URL of a request, if it names one.
pub open spec fn template_url(req: CreateVolumeRequest) -> Option<Seq<char>> {
    match table::value(req.parameters@, "templateBlobUrl"@) {
        Some(u) => if u.len() > 0 {
            Some(u)
        } else {
            None
        },
        None => None,
    }
}

/// A target is where a request's volume goes.
pub open spec fn targeted(c: DriverConfig, req: CreateVolumeRequest, t: Target) -> bool {
    &&& t.account@ == account_of(c, req)
    &&& t.container@ == container_of(c, req)
    &&& t.blob@ == blob_of(req)
    &&& t.size == size_of(req.required_bytes)
}

// ── Volumes ─────────────────────────────────────────────────────────────────

/// The volume context of a read-write volume.
pub open spec fn volume_context(
    endpoint: Seq<char>,
    account: Seq<char>,
    container: Seq<char>,
    blob: Seq<char>,
    size: nat,
    from_template: bool,
    params: Map<Seq<char>, Seq<char>>,
) -> Map<Seq<char>, Seq<char>> {
    let m = Map::empty().insert("container"@, container).insert("blob"@, blob).insert(
        "account"@,
        account,
    ).insert("endpoint"@, csi::endpoint_for(endpoint, account)).insert(
        "size"@,
        text::decimal(size),
    );
    let m = if from_template {
        m.insert("fromTemplate"@, "true"@)
    } else {
        m
    };
    let m = table::with(m, "fsType"@, table::value(params, "fsType"@));
    let m = table::with(m, "coordination"@, table::value(params, "coordination"@));
    let m = table::with(m, "leaseNamespace"@, table::value(params, "leaseNamespace"@));
    let m = table::with(m, "recoveryTimeoutSecs"@, table::value(params, "recoveryTimeoutSecs"@));
    table::with(m, "leaseDurationSecs"@, table::value(params, "leaseDurationSecs"@))
}

/// The volume context of a read-only template volume.
pub open spec fn template_context(
    t: TemplateBlobRef,
    size: nat,
    params: Map<Seq<char>, Seq<char>>,
) -> Map<Seq<char>, Seq<char>> {
    let m = Map::empty().insert("account"@, t.account@).insert("container"@, t.container@).insert(
        "blob"@,
        t.blob@,
    ).insert("endpoint"@, csi::template_service(t)).insert("size"@, text::decimal(size));
    let m = table::with(m, "snapshot"@, text::opt_view(t.snapshot));
    let m = table::with(m, "sasToken"@, text::opt_view(t.sas));
    table::with(m, "fsType"@, table::value(params, "fsType"@))
}

/// `v` is the read-write volume on a target of `size` bytes.
pub open spec fn volume_on(
    c: DriverConfig,
    req: CreateVolumeRequest,
    t: Target,
    size: u64,
    from_template: bool,
    v: Volume,
) -> bool {
    &&& v.capacity_bytes == size as i64
    &&& v.volume_id@ == csi::volume_id(false, t.account@, t.container@, t.blob@)
    &&& v.volume_context@ == volume_context(
        c.endpoint@,
        t.account@,
        t.container@,
        t.blob@,
        size as nat,
        from_template,
        req.parameters@,
    )
}

/// `v` is the read-only volume on a template of `size` bytes.
pub open spec fn volume_on_template(
    req: CreateVolumeRequest,
    t: TemplateBlobRef,
    size: u64,
    v: Volume,
) -> bool {
    &&& v.capacity_bytes == size as i64
    &&& v.volume_id@ == csi::volume_id(true, t.account@, t.container@, t.blob@)
    &&& v.volume_context@ == template_context(t, size as nat, req.parameters@)
}

/// `r` refuses with a code and a message.
pub open spec fn refuses<T>(r: Result<T, Status>, code: Code, message: Seq<char>) -> bool {
    r matches Err(s) && s.code == code && s.message@ == message
}

/// What the backend of a target comes to, as a status.
pub open spec fn backend_refused(
    e: auth::AuthError,
    service_url: Seq<char>,
    container: Seq<char>,
) -> Seq<char> {
    "build backend"@ + ": "@ + e.words(service_url, container)
}

/// What the backend of a template comes to, as a status.
pub open spec fn template_refused(e: auth::AuthError, c: DriverConfig, t: TemplateBlobRef) -> Seq<
    char,
> {
    "build template backend"@ + ": "@ + e.words(csi::template_endpoint(c, t), t.container@)
}

/// `r` opens the blob of a volume, or refuses for the reason that its backend
/// cannot be built.
pub open spec fn opened(
    c: DriverConfig,
    account: Seq<char>,
    container: Seq<char>,
    blob: Seq<char>,
    secrets: Map<Seq<char>, Seq<char>>,
    r: Result<BackendPlan, Status>,
) -> bool {
    match r {
        Ok(p) => volume_planned(c, account, container, blob, secrets, Ok(p)),
        Err(s) => exists|e: auth::AuthError|
            {
                &&& #[trigger] volume_planned(c, account, container, blob, secrets, Err(e))
                &&& s.code == Code::Internal
                &&& s.message@ == backend_refused(
                    e,
                    csi::endpoint_for(c.endpoint@, account),
                    container,
                )
            },
    }
}

/// `r` opens the blob of a request's volume.
pub open spec fn target_opened(
    c: DriverConfig,
    req: CreateVolumeRequest,
    r: Result<BackendPlan, Status>,
) -> bool {
    opened(c, account_of(c, req), container_of(c, req), blob_of(req), req.secrets@, r)
}

/// The backend plan for a template.
pub open spec fn template_planned(
    c: DriverConfig,
    req: CreateVolumeRequest,
    t: TemplateBlobRef,
    r: Result<BackendPlan, auth::AuthError>,
) -> bool {
    match t.sas {
        Some(sas) => csi::backend_planned(
            csi::template_service(t),
            t.container@,
            t.blob@,
            text::opt_view(t.snapshot),
            Some(auth::AuthView::Sas { sas_token: sas@ }),
            r,
        ),
        None => csi::backend_planned(
            csi::endpoint_for(c.endpoint@, t.account@),
            t.container@,
            t.blob@,
            text::opt_view(t.snapshot),
            csi::driver_auth(c, t.account@, req.secrets@),
            r,
        ),
    }
}

impl ControllerService {
    /// Build a controller service from the driver configuration.
    pub fn new(config: DriverConfig) -> (r: Self)
        ensures
            r.config == config,
    {
        ControllerService { config }
    }

    fn chosen_for(
        req: &CreateVolumeRequest,
        param: &str,
        secret: &str,
        default: &String,
    ) -> (r: String)
        ensures
            r@ == chosen(req.parameters@, req.secrets@, req.name@, param@, secret@, default@),
    {
        assert(""@ == Seq::<char>::empty()) by {
            reveal_strlit("");
        }
        match req.parameters.get(param) {
            Some(t) => {
                let pvc_name = req.parameters.get_or("csi.storage.k8s.io/pvc/name", "");
                let pvc_namespace = req.parameters.get_or("csi.storage.k8s.io/pvc/namespace", "");
                expand_template(
                    t.as_str(),
                    pvc_name.as_str(),
                    pvc_namespace.as_str(),
                    req.name.as_str(),
                )
            },
            None => req.secrets.get_or(secret, default.as_str()),
        }
    }

    /// The storage account: the `storageAccount` parameter (with its variables
    /// expanded), else the `AZURE_STORAGE_ACCOUNT` secret, else the driver's.
    pub fn storage_account_for(&self, req: &CreateVolumeRequest) -> (r: String)
        ensures
            r@ == account_of(self.config, *req),
    {
        Self::chosen_for(req, "storageAccount", "AZURE_STORAGE_ACCOUNT", &self.config.account)
    }

    /// The container: the `container` parameter (with its variables expanded),
    /// else the `AZURE_STORAGE_CONTAINER` secret, else the driver's default.
    pub fn container_for(&self, req: &CreateVolumeRequest) -> (r: String)
        ensures
            r@ == container_of(self.config, *req),
    {
        Self::chosen_for(
            req,
            "container",
            "AZURE_STORAGE_CONTAINER",
            &self.config.default_container,
        )
    }

    /// The blob: the `blobPathTemplate` parameter or the default template, with
    /// its variables expanded, as a clean path.
    pub fn blob_for(&self, req: &CreateVolumeRequest) -> (r: String)
        ensures
            r@ == blob_of(*req),
    {
        assert(""@ == Seq::<char>::empty()) by {
            reveal_strlit("");
        }
        let template = req.parameters.get_or("blobPathTemplate", DEFAULT_BLOB_PATH_TEMPLATE);
        let pvc_name = req.parameters.get_or("csi.storage.k8s.io/pvc/name", "");
        let pvc_namespace = req.parameters.get_or("csi.storage.k8s.io/pvc/namespace", "");
        sanitize_path(
            expand_template(
                template.as_str(),
                pvc_name.as_str(),
                pvc_namespace.as_str(),
                req.name.as_str(),
            ).as_str(),
        )
    }

    /// Decide how to open the blob of a volume.
    fn open_volume(&self, account: &str, container: &str, blob: &str, secrets: &Table) -> (r: Result<
        BackendPlan,
        Status,
    >)
        ensures
            opened(self.config, account@, container@, blob@, secrets@, r),
    {
        let planned = csi::build_backend(&self.config, account, container, blob, secrets);
        match planned {
            Ok(p) => Ok(p),
            Err(e) => {
                assert(volume_planned(self.config, account@, container@, blob@, secrets@, Err(e)));
                let service = csi::account_endpoint(&self.config, account);
                let message = e.message(service.as_str(), container);
                Err(csi::failed_step(Code::Internal, "build backend", message.as_str()))
            },
        }
    }

    /// The read-write volume on a target.
    fn volume(&self, req: &CreateVolumeRequest, t: &Target, size: u64, from_template: bool) -> (r:
        Volume)
        ensures
            volume_on(self.config, *req, *t, size, from_template, r),
    {
        let mut m = Table::new();
        m.insert("container", t.container.clone());
        m.insert("blob", t.blob.clone());
        m.insert("account", t.account.clone());
        m.insert("endpoint", csi::account_endpoint(&self.config, t.account.as_str()));
        m.insert("size", text::decimal_of(size));
        if from_template {
            m.insert("fromTemplate", "true".to_owned());
        }
        m.insert_opt("fsType", &req.parameters.get("fsType"));
        m.insert_opt("coordination", &req.parameters.get("coordination"));
        m.insert_opt("leaseNamespace", &req.parameters.get("leaseNamespace"));
        m.insert_opt("recoveryTimeoutSecs", &req.parameters.get("recoveryTimeoutSecs"));
        m.insert_opt("leaseDurationSecs", &req.parameters.get("leaseDurationSecs"));
        Volume {
            capacity_bytes: size as i64,
            volume_id: csi::make_volume_id(
                t.account.as_str(),
                t.container.as_str(),
                t.blob.as_str(),
            ),
            volume_context: m,
        }
    }

    /// Decide how to provision a volume.
    ///
    /// A request without a template gets a fresh blob. One with a
    /// `templateBlobUrl` first needs the template's size (see
    /// [`ControllerService::template_found`]).
    pub fn create_volume(&self, req: &CreateVolumeRequest) -> (r: Result<CreateStep, Status>)
        ensures
            if req.name@.len() == 0 {
                refuses(r, Code::InvalidArgument, "volume name is required"@)
            } else {
                match template_url(*req) {
                    None => match r {
                        Ok(CreateStep::Fresh { backend, target, volume }) => {
                            &&& targeted(self.config, *req, target)
                            &&& target_opened(self.config, *req, Ok(backend))
                            &&& volume_on(self.config, *req, target, target.size, false, volume)
                        },
                        Ok(CreateStep::Template { .. }) => false,
                        Err(s) => target_opened(self.config, *req, Err(s)),
                    },
                    Some(url) => match (match bloburl::url_parts(url) {
                        Some(u) => bloburl::blob_ref(u),
                        None => Err(bloburl::BlobUrlError::NotAUrl),
                    }) {
                        Err(e) => refuses(
                            r,
                            Code::InvalidArgument,
                            "templateBlobUrl"@ + ": "@ + e.words(url),
                        ),
                        Ok(v) => match r {
                            Ok(CreateStep::Template { source, tmpl, url: u, target }) => {
                                &&& tmpl@ == v
                                &&& u@ == url
                                &&& targeted(self.config, *req, target)
                                &&& template_planned(self.config, *req, tmpl, Ok(source))
                            },
                            Ok(CreateStep::Fresh { .. }) => false,
                            Err(s) => exists|e: auth::AuthError, tmpl: TemplateBlobRef|
                                tmpl@ == v && #[trigger] template_planned(
                                    self.config,
                                    *req,
                                    tmpl,
                                    Err(e),
                                ) && refuses(
                                    r,
                                    Code::Internal,
                                    template_refused(e, self.config, tmpl),
                                ),
                        },
                    },
                }
            },
    {
        if req.name.as_str().is_empty() {
            return Err(csi::status(Code::InvalidArgument, "volume name is required"));
        }
        let requested: u64 = if req.required_bytes > 0 {
            req.required_bytes as u64
        } else {
            0
        };
        let size: u64 = csi::round_up_512(requested);
        let account = self.storage_account_for(req);
        let container = self.container_for(req);
        let blob = self.blob_for(req);
        let target = Target { account, container, blob, size };
        let named = match req.parameters.get("templateBlobUrl") {
            Some(u) => if u.as_str().is_empty() {
                None
            } else {
                Some(u)
            },
            None => None,
        };
        match named {
            Some(url) => {
                let tmpl = match bloburl::parse_blob_url(url.as_str()) {
                    Ok(t) => t,
                    Err(e) => {
                        return Err(
                            csi::failed_step(
                                Code::InvalidArgument,
                                "templateBlobUrl",
                                e.message(url.as_str()).as_str(),
                            ),
                        );
                    },
                };
                let planned = csi::build_template_backend(&self.config, &tmpl, &req.secrets);
                assert(template_planned(self.config, *req, tmpl, planned));
                match planned {
                    Ok(source) => Ok(CreateStep::Template { source, tmpl, url, target }),
                    Err(e) => {
                        assert(template_planned(self.config, *req, tmpl, Err(e)));
                        let service = csi::template_service_url(&self.config, &tmpl);
                        let message = e.message(service.as_str(), tmpl.container.as_str());
                        Err(
                            csi::failed_step(
                                Code::Internal,
                                "build template backend",
                                message.as_str(),
                            ),
                        )
                    },
                }
            },
            None => {
                match self.open_volume(
                    target.account.as_str(),
                    target.container.as_str(),
                    target.blob.as_str(),
                    &req.secrets,
                ) {
                    Ok(backend) => {
                        let volume = self.volume(req, &target, size, false);
                        Ok(CreateStep::Fresh { backend, target, volume })
                    },
                    Err(s) => Err(s),
                }
            },
        }
    }

    /// Decide what to do with a template of `source_size` bytes.
    ///
    /// A template URL that targets a snapshot is mounted directly, read-only,
    /// with no copy and no lease: many claims may mount it. Any other template is
    /// copied into the per-claim blob, sized to hold the image and at least the
    /// requested size, and the node is told to keep the copied filesystem.
    pub fn template_found(
        &self,
        req: &CreateVolumeRequest,
        tmpl: &TemplateBlobRef,
        target: &Target,
        source_size: u64,
    ) -> (r: Result<TemplateStep, Status>)
        requires
            targeted(self.config, *req, *target),
            csi::rounded_512(source_size as int) <= u64::MAX,
        ensures
            if tmpl.snapshot is Some {
                r matches Ok(TemplateStep::Mount { volume }) && volume_on_template(
                    *req,
                    *tmpl,
                    source_size,
                    volume,
                )
            } else {
                match r {
                    Ok(TemplateStep::Copy { dest, mode, size, volume }) => {
                        &&& size == csi::rounded_512(
                            if source_size > target.size {
                                source_size as int
                            } else {
                                target.size as int
                            },
                        )
                        &&& target_opened(self.config, *req, Ok(dest))
                        &&& mode == (if tmpl.sas is Some {
                            CopyMode::ServerWithSas
                        } else if auth::entra(dest.auth@) {
                            CopyMode::ServerWithToken
                        } else {
                            CopyMode::Streamed
                        })
                        &&& volume_on(self.config, *req, *target, size, true, volume)
                    },
                    Ok(TemplateStep::Mount { .. }) => false,
                    Err(s) => target_opened(self.config, *req, Err(s)),
                }
            },
    {
        if tmpl.snapshot.is_some() {
            let mut m = Table::new();
            m.insert("account", tmpl.account.clone());
            m.insert("container", tmpl.container.clone());
            m.insert("blob", tmpl.blob.clone());
            m.insert(
                "endpoint",
                text::concat(text::without_trailing(tmpl.service_url.as_str(), '/').as_str(), "/"),
            );
            m.insert("size", text::decimal_of(source_size));
            m.insert_opt("snapshot", &tmpl.snapshot);
            m.insert_opt("sasToken", &tmpl.sas);
            m.insert_opt("fsType", &req.parameters.get("fsType"));
            let volume = Volume {
                capacity_bytes: source_size as i64,
                volume_id: csi::make_volume_id_ro(
                    tmpl.account.as_str(),
                    tmpl.container.as_str(),
                    tmpl.blob.as_str(),
                ),
                volume_context: m,
            };
            return Ok(TemplateStep::Mount { volume });
        }
        let larger: u64 = if source_size > target.size {
            source_size
        } else {
            target.size
        };
        let size: u64 = csi::round_up_512(larger);
        match self.open_volume(
            target.account.as_str(),
            target.container.as_str(),
            target.blob.as_str(),
            &req.secrets,
        ) {
            Ok(dest) => {
                let mode = csi::copy_mode(tmpl.sas.is_some(), &dest.auth);
                let volume = self.volume(req, target, size, true);
                Ok(TemplateStep::Copy { dest, mode, size, volume })
            },
            Err(s) => Err(s),
        }
    }

    /// Decide what to delete for a volume id: the volume's blob, or nothing.
    ///
    /// Read-only template volumes point many claims at one shared golden-image
    /// blob, so deleting one of them deletes nothing. The storage account is
    /// recovered from the volume id.
    pub fn delete_volume(&self, volume_id: &str, secrets: &Table) -> (r: Result<
        Option<BackendPlan>,
        Status,
    >)
        ensures
            if volume_id@.len() == 0 {
                refuses(r, Code::InvalidArgument, "volume id is required"@)
            } else {
                match csi::volume_of(volume_id@) {
                    None => refuses(r, Code::InvalidArgument, malformed_id(volume_id@)),
                    Some((ro, account, container, blob)) => if ro {
                        r == Ok::<Option<BackendPlan>, Status>(None)
                    } else {
                        match r {
                            Ok(Some(p)) => opened(
                                self.config,
                                account,
                                container,
                                blob,
                                secrets@,
                                Ok(p),
                            ),
                            Ok(None) => false,
                            Err(s) => opened(
                                self.config,
                                account,
                                container,
                                blob,
                                secrets@,
                                Err(s),
                            ),
                        }
                    },
                }
            },
    {
        if volume_id.is_empty() {
            return Err(csi::status(Code::InvalidArgument, "volume id is required"));
        }
        match csi::parse_volume_id(volume_id) {
            Err(_) => Err(refuse_id(volume_id)),
            Ok((read_only, account, container, blob)) => {
                if read_only {
                    return Ok(None);
                }
                match self.open_volume(
                    account.as_str(),
                    container.as_str(),
                    blob.as_str(),
                    secrets,
                ) {
                    Ok(p) => Ok(Some(p)),
                    Err(s) => Err(s),
                }
            },
        }
    }

    /// Decide how to grow a volume: which blob, and to which size.
    ///
    /// Growing a read-only template volume would resize a blob that many claims
    /// share, so it is refused.
    pub fn controller_expand_volume(&self, volume_id: &str, required_bytes: i64, secrets: &Table) -> (r:
        Result<(BackendPlan, u64), Status>)
        ensures
            if volume_id@.len() == 0 {
                refuses(r, Code::InvalidArgument, "volume id is required"@)
            } else {
                match csi::volume_of(volume_id@) {
                    None => refuses(r, Code::InvalidArgument, malformed_id(volume_id@)),
                    Some((ro, account, container, blob)) => if ro {
                        refuses(
                            r,
                            Code::FailedPrecondition,
                            "cannot expand a read-only template/snapshot volume"@,
                        )
                    } else if required_bytes <= 0 {
                        refuses(
                            r,
                            Code::InvalidArgument,
                            "capacity_range.required_bytes must be greater than 0"@,
                        )
                    } else {
                        match r {
                            Ok((p, size)) => opened(
                                self.config,
                                account,
                                container,
                                blob,
                                secrets@,
                                Ok(p),
                            ) && size == csi::rounded_512(required_bytes as int),
                            Err(s) => opened(
                                self.config,
                                account,
                                container,
                                blob,
                                secrets@,
                                Err(s),
                            ),
                        }
                    },
                }
            },
    {
        if volume_id.is_empty() {
            return Err(csi::status(Code::InvalidArgument, "volume id is required"));
        }
        match csi::parse_volume_id(volume_id) {
            Err(_) => Err(refuse_id(volume_id)),
            Ok((read_only, account, container, blob)) => {
                if read_only {
                    return Err(
                        csi::status(
                            Code::FailedPrecondition,
                            "cannot expand a read-only template/snapshot volume",
                        ),
                    );
                }
                if required_bytes <= 0 {
                    return Err(
                        csi::status(
                            Code::InvalidArgument,
                            "capacity_range.required_bytes must be greater than 0",
                        ),
                    );
                }
                let size: u64 = csi::round_up_512(required_bytes as u64);
                match self.open_volume(
                    account.as_str(),
                    container.as_str(),
                    blob.as_str(),
                    secrets,
                ) {
                    Ok(p) => Ok((p, size)),
                    Err(s) => Err(s),
                }
            },
        }
    }

    /// The answer to a grown volume: its size, and that the node must follow.
    pub fn volume_expanded(&self, size: u64) -> (r: (i64, bool))
        ensures
            r.0 == size as i64,
            r.1,
    {
        (size as i64, true)
    }

    /// The RPCs that the controller offers beyond the mandatory ones.
    pub fn controller_get_capabilities(&self) -> (r: Vec<ControllerCapability>)
        ensures
            r@ == seq![ControllerCapability::CreateDeleteVolume, ControllerCapability::ExpandVolume],
    {
        let mut r: Vec<ControllerCapability> = Vec::new();
        r.push(ControllerCapability::CreateDeleteVolume);
        r.push(ControllerCapability::ExpandVolume);
        r
    }

    /// The answer to an RPC that the driver does not offer.
    pub fn unimplemented_rpc(&self, rpc: &str) -> (r: Status)
        ensures
            r.code == Code::Unimplemented,
            r.message@ == rpc@,
    {
        csi::status(Code::Unimplemented, rpc)
    }
}

/// An advertised controller RPC.
#[derive(Clone, Copy, Debug, PartialEq, Eq, Structural)]
pub enum ControllerCapability {
    CreateDeleteVolume,
    ExpandVolume,
}

/// The backend plan for the blob of a volume id.
pub open spec fn volume_planned(
    c: DriverConfig,
    account: Seq<char>,
    container: Seq<char>,
    blob: Seq<char>,
    secrets: Map<Seq<char>, Seq<char>>,
    r: Result<BackendPlan, auth::AuthError>,
) -> bool {
    csi::backend_planned(
        csi::endpoint_for(c.endpoint@, account),
        container,
        blob,
        None,
        csi::driver_auth(c, account, secrets),
        r,
    )
}

/// The message about a malformed volume id.
pub open spec fn malformed_id(id: Seq<char>) -> Seq<char> {
    "malformed volume id '"@ + id + "' (expected '[ro:]account/container/blob')"@
}

fn refuse_id(volume_id: &str) -> (r: Status)
    ensures
        r.code == Code::InvalidArgument,
        r.message@ == malformed_id(volume_id@),
{
    let message = text::concat3(
        "malformed volume id '",
        volume_id,
        "' (expected '[ro:]account/container/blob')",
    );
    Status { code: Code::InvalidArgument, message }
}

/// The id of a created volume leads `DeleteVolume` back to the blob that was
/// created, in the account that was chosen for it.
pub proof fn a_created_volume_can_be_found_again(
    c: DriverConfig,
    req: CreateVolumeRequest,
    t: Target,
    size: u64,
    from_template: bool,
    v: Volume,
)
    requires
        volume_on(c, req, t, size, from_template, v),
        csi::encodable(t.account@, t.container@, t.blob@),
        !text::begins(t.account@, "ro:"@),
    ensures
        csi::volume_of(v.volume_id@) == Some((false, t.account@, t.container@, t.blob@)),
{
    csi::volume_id_reads_back(false, t.account@, t.container@, t.blob@);
}

/// The id of a read-only template volume is recognised as such, so that neither
/// deletion nor growth touches the shared blob.
pub proof fn a_template_volume_is_recognised(
    req: CreateVolumeRequest,
    t: TemplateBlobRef,
    size: u64,
    v: Volume,
)
    requires
        volume_on_template(req, t, size, v),
        csi::encodable(t.account@, t.container@, t.blob@),
    ensures
        csi::volume_of(v.volume_id@) == Some((true, t.account@, t.container@, t.blob@)),
{
    csi::volume_id_reads_back(true, t.account@, t.container@, t.blob@);
}

// ── What a created volume comes to ──────────────────────────────────────────

/// The names in a volume context are different from each other.
proof fn lemma_context_names()
    ensures
        "container"@.len() == 9,
        "blob"@.len() == 4,
        "account"@.len() == 7,
        "endpoint"@.len() == 8,
        "size"@.len() == 4,
        "fromTemplate"@.len() == 12,
        "fsType"@.len() == 6,
        "coordination"@.len() == 12,
        "leaseNamespace"@.len() == 14,
        "recoveryTimeoutSecs"@.len() == 19,
        "leaseDurationSecs"@.len() == 17,
        "snapshot"@.len() == 8,
        "sasToken"@.len() == 8,
        "blob"@ != "size"@,
        "fromTemplate"@ != "coordination"@,
        "endpoint"@ != "snapshot"@,
        "endpoint"@ != "sasToken"@,
        "snapshot"@ != "sasToken"@,
{
    reveal_strlit("container");
    reveal_strlit("blob");
    reveal_strlit("account");
    reveal_strlit("endpoint");
    reveal_strlit("size");
    reveal_strlit("fromTemplate");
    reveal_strlit("fsType");
    reveal_strlit("coordination");
    reveal_strlit("leaseNamespace");
    reveal_strlit("recoveryTimeoutSecs");
    reveal_strlit("leaseDurationSecs");
    reveal_strlit("snapshot");
    reveal_strlit("sasToken");
    assert("blob"@[0] != "size"@[0]);
    assert("fromTemplate"@[0] != "coordination"@[0]);
    assert("endpoint"@[0] != "snapshot"@[0]);
    assert("endpoint"@[0] != "sasToken"@[0]);
    assert("snapshot"@[1] != "sasToken"@[1]);
}

/// The context of a volume names its blob and its size as they are, says whether
/// it was copied from a template, and hands the settings of the request on.
pub proof fn a_volume_context_says_what_the_volume_is(
    c: DriverConfig,
    req: CreateVolumeRequest,
    t: Target,
    size: u64,
    from_template: bool,
    v: Volume,
)
    requires
        volume_on(c, req, t, size, from_template, v),
    ensures
        table::value(v.volume_context@, "account"@) == Some(t.account@),
        table::value(v.volume_context@, "container"@) == Some(t.container@),
        table::value(v.volume_context@, "blob"@) == Some(t.blob@),
        table::value(v.volume_context@, "size"@) == Some(text::decimal(size as nat)),
        table::value(v.volume_context@, "endpoint"@) == Some(
            csi::endpoint_for(c.endpoint@, t.account@),
        ),
        table::value(v.volume_context@, "fromTemplate"@) == (if from_template {
            Some("true"@)
        } else {
            None
        }),
        table::value(v.volume_context@, "fsType"@) == table::value(req.parameters@, "fsType"@),
        table::value(v.volume_context@, "coordination"@) == table::value(
            req.parameters@,
            "coordination"@,
        ),
        table::value(v.volume_context@, "leaseNamespace"@) == table::value(
            req.parameters@,
            "leaseNamespace"@,
        ),
        table::value(v.volume_context@, "recoveryTimeoutSecs"@) == table::value(
            req.parameters@,
            "recoveryTimeoutSecs"@,
        ),
        table::value(v.volume_context@, "leaseDurationSecs"@) == table::value(
            req.parameters@,
            "leaseDurationSecs"@,
        ),
        table::value(v.volume_context@, "snapshot"@) is None,
        table::value(v.volume_context@, "sasToken"@) is None,
{
    lemma_context_names();
}

/// The context of a template's volume names the template's blob and its size as
/// they are, with its snapshot and its shared access signature.
pub proof fn a_template_context_says_what_the_template_is(
    req: CreateVolumeRequest,
    t: TemplateBlobRef,
    size: u64,
    v: Volume,
)
    requires
        volume_on_template(req, t, size, v),
    ensures
        table::value(v.volume_context@, "account"@) == Some(t.account@),
        table::value(v.volume_context@, "container"@) == Some(t.container@),
        table::value(v.volume_context@, "blob"@) == Some(t.blob@),
        table::value(v.volume_context@, "size"@) == Some(text::decimal(size as nat)),
        table::value(v.volume_context@, "endpoint"@) == Some(csi::template_service(t)),
        table::value(v.volume_context@, "snapshot"@) == text::opt_view(t.snapshot),
        table::value(v.volume_context@, "sasToken"@) == text::opt_view(t.sas),
        table::value(v.volume_context@, "fsType"@) == table::value(req.parameters@, "fsType"@),
        table::value(v.volume_context@, "fromTemplate"@) is None,
        table::value(v.volume_context@, "coordination"@) is None,
{
    lemma_context_names();
}

/// The size that a node reads in the context of a volume is the volume's capacity,
/// and the size that the volume was made with.
pub proof fn a_node_reads_the_size_of_a_volume(
    c: DriverConfig,
    req: CreateVolumeRequest,
    t: Target,
    size: u64,
    from_template: bool,
    v: Volume,
)
    requires
        volume_on(c, req, t, size, from_template, v),
    ensures
        node::size_in(v.volume_context@) == size,
        size <= i64::MAX ==> v.capacity_bytes == size,
        size <= i64::MAX ==> node::size_in(v.volume_context@) == v.capacity_bytes,
{
    a_volume_context_says_what_the_volume_is(c, req, t, size, from_template, v);
    text::number_reads_decimal(size as nat, u64::MAX as nat);
}

/// The size that a node reads in the context of a template's volume is the
/// volume's capacity, and the size of the template.
pub proof fn a_node_reads_the_size_of_a_template(
    req: CreateVolumeRequest,
    t: TemplateBlobRef,
    size: u64,
    v: Volume,
)
    requires
        volume_on_template(req, t, size, v),
    ensures
        node::size_in(v.volume_context@) == size,
        size <= i64::MAX ==> v.capacity_bytes == size,
        size <= i64::MAX ==> node::size_in(v.volume_context@) == v.capacity_bytes,
{
    a_template_context_says_what_the_template_is(req, t, size, v);
    text::number_reads_decimal(size as nat, u64::MAX as nat);
}

/// A node that publishes a volume with the context that it was created with brings
/// up a device of the volume's size, on the volume's blob, in the volume's account
/// and container, at the volume's endpoint.
pub proof fn a_created_volume_is_published_as_it_was_created(
    c: DriverConfig,
    req: CreateVolumeRequest,
    t: Target,
    size: u64,
    from_template: bool,
    v: Volume,
    nc: DriverConfig,
    node_id: Seq<char>,
    publish: node::NodePublishVolumeRequest,
    pod_namespace: Option<Seq<char>>,
    p: node::PublishPlan,
)
    requires
        volume_on(c, req, t, size, from_template, v),
        publish.volume_context@ == v.volume_context@,
        node::plans(nc, node_id, publish, pod_namespace, p),
    ensures
        p.size == size,
        size <= i64::MAX ==> p.size == v.capacity_bytes,
        table::value(p.env@, "AZURE_STORAGE_ACCOUNT"@) == Some(t.account@),
        table::value(p.env@, "AZURE_STORAGE_CONTAINER"@) == Some(t.container@),
        table::value(p.env@, "AZURE_STORAGE_BLOB"@) == Some(t.blob@),
        table::value(p.env@, "AZURE_STORAGE_ENDPOINT"@) == Some(
            csi::endpoint_for(c.endpoint@, t.account@),
        ),
{
    a_node_reads_the_size_of_a_volume(c, req, t, size, from_template, v);
    a_volume_context_says_what_the_volume_is(c, req, t, size, from_template, v);
    node::a_child_is_told_its_blob(
        nc,
        node_id,
        publish.volume_context@,
        publish.secrets@,
        pod_namespace,
        p.env@,
    );
}

/// A node that publishes a template's volume brings up a device of the template's
/// size on the template's blob.
pub proof fn a_template_volume_is_published_as_it_was_created(
    req: CreateVolumeRequest,
    t: TemplateBlobRef,
    size: u64,
    v: Volume,
    nc: DriverConfig,
    node_id: Seq<char>,
    publish: node::NodePublishVolumeRequest,
    pod_namespace: Option<Seq<char>>,
    p: node::PublishPlan,
)
    requires
        volume_on_template(req, t, size, v),
        publish.volume_context@ == v.volume_context@,
        node::plans(nc, node_id, publish, pod_namespace, p),
    ensures
        p.size == size,
        size <= i64::MAX ==> p.size == v.capacity_bytes,
        table::value(p.env@, "AZURE_STORAGE_ACCOUNT"@) == Some(t.account@),
        table::value(p.env@, "AZURE_STORAGE_CONTAINER"@) == Some(t.container@),
        table::value(p.env@, "AZURE_STORAGE_BLOB"@) == Some(t.blob@),
        table::value(p.env@, "AZURE_STORAGE_ENDPOINT"@) == Some(csi::template_service(t)),
{
    a_node_reads_the_size_of_a_template(req, t, size, v);
    a_template_context_says_what_the_template_is(req, t, size, v);
    node::a_child_is_told_its_blob(
        nc,
        node_id,
        publish.volume_context@,
        publish.secrets@,
        pod_namespace,
        p.env@,
    );
}

/// A volume is at least as large as it was asked to be, by less than one sector,
/// in whole sectors, and never empty.
pub proof fn a_volume_is_as_large_as_asked(c: DriverConfig, req: CreateVolumeRequest, t: Target)
    requires
        targeted(c, req, t),
    ensures
        t.size % 512 == 0,
        t.size >= 512,
        t.size >= req.required_bytes,
        req.required_bytes > 0 ==> t.size < req.required_bytes + 512,
        req.required_bytes <= 0 ==> t.size == 512,
{
}

/// A request that names no account or container uses the secret's, and without one
/// the driver's own; one that names a text without variables uses that text.
pub proof fn a_request_chooses_its_account_and_container(c: DriverConfig, req: CreateVolumeRequest)
    ensures
        table::value(req.parameters@, "storageAccount"@) is None && table::value(
            req.secrets@,
            "AZURE_STORAGE_ACCOUNT"@,
        ) is None ==> account_of(c, req) == c.account@,
        table::value(req.parameters@, "storageAccount"@) is None ==> forall|s: Seq<char>|
            table::value(req.secrets@, "AZURE_STORAGE_ACCOUNT"@) == Some(s) ==> #[trigger] same_text(
                account_of(c, req),
                s,
            ),
        table::value(req.parameters@, "container"@) is None && table::value(
            req.secrets@,
            "AZURE_STORAGE_CONTAINER"@,
        ) is None ==> container_of(c, req) == c.default_container@,
        table::value(req.parameters@, "container"@) is None ==> forall|s: Seq<char>|
            table::value(req.secrets@, "AZURE_STORAGE_CONTAINER"@) == Some(s)
                ==> #[trigger] same_text(container_of(c, req), s),
        forall|s: Seq<char>|
            table::value(req.parameters@, "storageAccount"@) == Some(s) && !text::has_char(s, '$')
                ==> #[trigger] same_text(account_of(c, req), s),
        forall|s: Seq<char>|
            table::value(req.parameters@, "container"@) == Some(s) && !text::has_char(s, '$')
                ==> #[trigger] same_text(container_of(c, req), s),
{
    assert forall|s: Seq<char>| !text::has_char(s, '$') implies #[trigger] same_text(
        expanded(
            s,
            param_or(req.parameters@, "csi.storage.k8s.io/pvc/name"@, Seq::empty()),
            param_or(req.parameters@, "csi.storage.k8s.io/pvc/namespace"@, Seq::empty()),
            req.name@,
        ),
        s,
    ) by {
        a_text_without_variables_is_kept(
            s,
            param_or(req.parameters@, "csi.storage.k8s.io/pvc/name"@, Seq::empty()),
            param_or(req.parameters@, "csi.storage.k8s.io/pvc/namespace"@, Seq::empty()),
            req.name@,
        );
    }
    assert forall|s: Seq<char>|
        table::value(req.parameters@, "storageAccount"@) == Some(s) && !text::has_char(
            s,
            '$',
        ) implies #[trigger] same_text(account_of(c, req), s) by {
        assert(same_text(
            expanded(
                s,
                param_or(req.parameters@, "csi.storage.k8s.io/pvc/name"@, Seq::empty()),
                param_or(req.parameters@, "csi.storage.k8s.io/pvc/namespace"@, Seq::empty()),
                req.name@,
            ),
            s,
        ));
    }
    assert forall|s: Seq<char>|
        table::value(req.parameters@, "container"@) == Some(s) && !text::has_char(
            s,
            '$',
        ) implies #[trigger] same_text(container_of(c, req), s) by {
        assert(same_text(
            expanded(
                s,
                param_or(req.parameters@, "csi.storage.k8s.io/pvc/name"@, Seq::empty()),
                param_or(req.parameters@, "csi.storage.k8s.io/pvc/namespace"@, Seq::empty()),
                req.name@,
            ),
            s,
        ));
    }
}

/// Two texts are the same.
pub open spec fn same_text(a: Seq<char>, b: Seq<char>) -> bool {
    a == b
}

/// A text without a `$` holds none of the variables, so expanding leaves it.
pub proof fn a_text_without_variables_is_kept(
    s: Seq<char>,
    pvc_name: Seq<char>,
    pvc_namespace: Seq<char>,
    pv_name: Seq<char>,
)
    requires
        !text::has_char(s, '$'),
    ensures
        expanded(s, pvc_name, pvc_namespace, pv_name) == s,
{
    reveal_strlit("${pvc.name}");
    reveal_strlit("${pvc.namespace}");
    reveal_strlit("${pv.name}");
    lemma_nothing_to_replace(s, "${pvc.name}"@, pvc_name);
    lemma_nothing_to_replace(s, "${pvc.namespace}"@, pvc_namespace);
    lemma_nothing_to_replace(s, "${pv.name}"@, pv_name);
}

proof fn lemma_nothing_to_replace(s: Seq<char>, p: Seq<char>, w: Seq<char>)
    requires
        !text::has_char(s, '$'),
        p.len() > 0,
        p[0] == '$',
    ensures
        text::replace(s, p, w) == s,
{
    text::lemma_free_index(s, '$');
    assert forall|j: int| !#[trigger] text::at(s, p, j) by {
        if text::at(s, p, j) {
            assert(s.subrange(j, j + p.len())[0] == s[j]);
        }
    }
    text::replacing_works_from_the_front(s, p, w);
}

proof fn lemma_replace_once(a: Seq<char>, p: Seq<char>, b: Seq<char>, w: Seq<char>)
    requires
        !text::has_char(a, '$'),
        !text::has_char(b, '$'),
        p.len() > 0,
        p[0] == '$',
    ensures
        text::replace(a + p + b, p, w) == a + w + b,
{
    let s = a + p + b;
    text::lemma_free_index(a, '$');
    assert forall|j: int| 0 <= j < a.len() implies !#[trigger] text::at(s, p, j) by {
        if text::at(s, p, j) {
            assert(s.subrange(j, j + p.len())[0] == s[j]);
            assert(s[j] == a[j]);
        }
    }
    text::replacing_works_from_the_front(s, p, w);
    lemma_nothing_to_replace(b, p, w);
}

proof fn lemma_other_variable(a: Seq<char>, p: Seq<char>, b: Seq<char>, q: Seq<char>, w: Seq<char>)
    requires
        !text::has_char(a, '$'),
        !text::has_char(b, '$'),
        p.len() > 1,
        p[0] == '$',
        forall|i: int| 0 < i < p.len() ==> #[trigger] p[i] != '$',
        q.len() > 0,
        q[0] == '$',
        exists|i: int| 0 < i < p.len() && i < q.len() && #[trigger] p[i] != q[i],
    ensures
        text::replace(a + p + b, q, w) == a + p + b,
{
    let s = a + p + b;
    let k = a.len() as int;
    text::lemma_free_index(a, '$');
    text::lemma_free_index(b, '$');
    assert forall|j: int| !#[trigger] text::at(s, q, j) by {
        if text::at(s, q, j) {
            assert(s.subrange(j, j + q.len())[0] == s[j]);
            if j < k {
                assert(s[j] == a[j]);
            } else if j == k {
                let i = choose|i: int| 0 < i < p.len() && i < q.len() && #[trigger] p[i] != q[i];
                assert(s.subrange(j, j + q.len())[i] == s[j + i]);
                assert(s[j + i] == p[i]);
            } else if j < k + p.len() {
                assert(s[j] == p[j - k]);
            } else {
                assert(s[j] == b[j - k - p.len()]);
            }
        }
    }
    text::replacing_works_from_the_front(s, q, w);
}

/// Each variable stands for what it is called: the claim's name, the claim's
/// namespace, the volume's name. (The names hold no `$` themselves.)
pub proof fn a_variable_stands_for_its_value(
    a: Seq<char>,
    b: Seq<char>,
    pvc_name: Seq<char>,
    pvc_namespace: Seq<char>,
    pv_name: Seq<char>,
)
    requires
        !text::has_char(a, '$'),
        !text::has_char(b, '$'),
        !text::has_char(pvc_name, '$'),
        !text::has_char(pvc_namespace, '$'),
        !text::has_char(pv_name, '$'),
    ensures
        expanded(a + "${pvc.name}"@ + b, pvc_name, pvc_namespace, pv_name) == a + pvc_name + b,
        expanded(a + "${pvc.namespace}"@ + b, pvc_name, pvc_namespace, pv_name) == a + pvc_namespace
            + b,
        expanded(a + "${pv.name}"@ + b, pvc_name, pvc_namespace, pv_name) == a + pv_name + b,
{
    reveal_strlit("${pvc.name}");
    reveal_strlit("${pvc.namespace}");
    reveal_strlit("${pv.name}");
    let x = "${pvc.name}"@;
    let y = "${pvc.namespace}"@;
    let z = "${pv.name}"@;
    assert(x[10] != y[10]);
    assert(y[10] != x[10]);
    assert(x[4] != z[4]);
    assert(z[4] != x[4]);
    assert(y[4] != z[4]);
    assert(z[4] != y[4]);
    text::lemma_free_concat(a, pvc_name, '$');
    text::lemma_free_concat(a + pvc_name, b, '$');
    text::lemma_free_concat(a, pvc_namespace, '$');
    text::lemma_free_concat(a + pvc_namespace, b, '$');
    text::lemma_free_concat(a, pv_name, '$');
    text::lemma_free_concat(a + pv_name, b, '$');
    lemma_replace_once(a, x, b, pvc_name);
    lemma_nothing_to_replace(a + pvc_name + b, y, pvc_namespace);
    lemma_nothing_to_replace(a + pvc_name + b, z, pv_name);
    lemma_other_variable(a, y, b, x, pvc_name);
    lemma_replace_once(a, y, b, pvc_namespace);
    lemma_nothing_to_replace(a + pvc_namespace + b, z, pv_name);
    lemma_other_variable(a, z, b, x, pvc_name);
    lemma_other_variable(a, z, b, y, pvc_namespace);
    lemma_replace_once(a, z, b, pv_name);
}

/// A clean path is made of the non-empty segments of the given one: it neither
/// begins nor ends with a slash, and a path that is clean already stays.
pub proof fn a_clean_path_has_no_empty_segments(path: Seq<char>)
    ensures
        text::trim(path) == path && (forall|i: int|
            0 <= i < text::split(path, '/').len() ==> (#[trigger] text::split(path, '/')[i]).len()
                > 0) ==> sanitized_path(path) == path,
        sanitized_path(path).len() > 0 ==> sanitized_path(path)[0] != '/',
        sanitized_path(path).len() > 0 ==> sanitized_path(path).last() != '/',
{
    reveal_strlit("/");
    assert("/"@ =~= seq!['/']);
    let s = text::trim(path);
    let segments = text::parts(s, '/');
    text::parts_are_the_pieces_that_are_not_empty(s, '/');
    text::splitting_is_undone_by_joining(s, '/');
    text::joining_puts_the_separator_between(segments, seq!['/']);
    let n = segments.len() as int;
    if n > 0 {
        text::lemma_free_index(segments[0], '/');
        text::lemma_free_index(segments[n - 1], '/');
        let r = text::join(segments, seq!['/']);
        assert(r[0] == segments[0][0]);
        assert(r.last() == segments[n - 1].last());
    }
}

/// A volume whose request names no path lives under its own name in the driver's
/// directory: volumes of different names have different blobs.
pub proof fn a_volume_without_a_path_lives_under_its_name(req: CreateVolumeRequest)
    requires
        table::value(req.parameters@, "blobPathTemplate"@) is None,
        req.name@.len() > 0,
        !text::has_char(req.name@, '/'),
        !text::has_char(req.name@, '$'),
        !text::is_space(req.name@.last()),
    ensures
        blob_of(req) == "ublk-azblob-disk/"@ + req.name@,
{
    let name = req.name@;
    let x = "${pvc.name}"@;
    let y = "${pvc.namespace}"@;
    let z = "${pv.name}"@;
    let a = "ublk-azblob-disk/"@;
    let none = Seq::<char>::empty();
    let d = "ublk-azblob-disk"@;
    reveal_strlit("${pvc.name}");
    reveal_strlit("${pvc.namespace}");
    reveal_strlit("${pv.name}");
    reveal_strlit("ublk-azblob-disk/");
    reveal_strlit("ublk-azblob-disk");
    reveal_strlit("ublk-azblob-disk/${pv.name}");
    reveal_strlit("/");
    assert("ublk-azblob-disk/${pv.name}"@ =~= a + z + none);
    text::lemma_index_free(a, '$');
    text::lemma_index_free(none, '$');
    assert(z[4] != x[4]);
    assert(z[4] != y[4]);
    lemma_other_variable(
        a,
        z,
        none,
        x,
        param_or(req.parameters@, "csi.storage.k8s.io/pvc/name"@, Seq::empty()),
    );
    lemma_other_variable(
        a,
        z,
        none,
        y,
        param_or(req.parameters@, "csi.storage.k8s.io/pvc/namespace"@, Seq::empty()),
    );
    lemma_replace_once(a, z, none, name);
    let path = a + name;
    assert(a + name + none =~= path);
    assert(path.last() == name.last());
    assert(path[0] == 'u');
    text::lemma_trim_id(path);
    assert(path =~= d + seq!['/'] + name);
    text::lemma_index_free(d, '/');
    text::lemma_split_head(d, '/', name);
    text::lemma_split_one(name, '/');
    assert(text::split(path, '/') =~= seq![d, name]);
    a_clean_path_has_no_empty_segments(path);
}

/// A request has a template exactly where it names a URL that is not empty, and the
/// template is that URL.
pub proof fn a_template_is_named_by_its_url(req: CreateVolumeRequest)
    ensures
        template_url(req) is None <==> {
            ||| table::value(req.parameters@, "templateBlobUrl"@) is None
            ||| table::value(req.parameters@, "templateBlobUrl"@) == Some(Seq::<char>::empty())
        },
        template_url(req) is Some ==> template_url(req) == table::value(
            req.parameters@,
            "templateBlobUrl"@,
        ),
{
    if let Some(u) = table::value(req.parameters@, "templateBlobUrl"@) {
        if u.len() == 0 {
            assert(u =~= Seq::empty());
        }
    }
}

/// A volume is opened where it lives: in its container, under its name, at the endpoint
/// of its account, as it is now, with the credentials that the driver has for that
/// account; without any it is refused.
pub proof fn a_volume_is_opened_where_it_lives(
    c: DriverConfig,
    account: Seq<char>,
    container: Seq<char>,
    blob: Seq<char>,
    secrets: Map<Seq<char>, Seq<char>>,
    r: Result<BackendPlan, Status>,
)
    requires
        opened(c, account, container, blob, secrets, r),
    ensures
        r matches Ok(p) ==> p.container@ == container && p.blob@ == blob && p.snapshot is None
            && csi::driver_auth(c, account, secrets) == Some(p.auth@) && auth::client_planned(
            csi::endpoint_for(c.endpoint@, account),
            container,
            p.auth@,
            Ok(p.client),
        ),
        r matches Err(s) ==> s.code == Code::Internal,
        csi::driver_auth(c, account, secrets) is None ==> r is Err,
{
}

/// A created volume is opened under the names that its id carries: deleting or growing
/// it opens the blob that was created.
pub proof fn a_volume_is_opened_again_by_its_id(
    c: DriverConfig,
    req: CreateVolumeRequest,
    t: Target,
    size: u64,
    from_template: bool,
    v: Volume,
    made: BackendPlan,
    again: BackendPlan,
    id: (bool, Seq<char>, Seq<char>, Seq<char>),
)
    requires
        targeted(c, req, t),
        target_opened(c, req, Ok(made)),
        volume_on(c, req, t, size, from_template, v),
        csi::encodable(t.account@, t.container@, t.blob@),
        !text::begins(t.account@, "ro:"@),
        csi::volume_of(v.volume_id@) == Some(id),
        opened(c, id.1, id.2, id.3, req.secrets@, Ok(again)),
    ensures
        again.container@ == made.container@,
        again.blob@ == made.blob@,
        again.snapshot is None,
        made.snapshot is None,
        again.auth@ == made.auth@,
        made.container@ == t.container@,
        made.blob@ == t.blob@,
{
    a_created_volume_can_be_found_again(c, req, t, size, from_template, v);
}

/// A template is read where its URL says: its container, its blob and its snapshot.
/// Where the URL carries a signature that is the credential, at the URL's own service;
/// otherwise the driver's credentials for the account are, at the account's endpoint.
pub proof fn a_template_is_opened_where_it_lies(
    c: DriverConfig,
    req: CreateVolumeRequest,
    t: TemplateBlobRef,
    p: BackendPlan,
)
    requires
        template_planned(c, req, t, Ok(p)),
    ensures
        p.container@ == t.container@,
        p.blob@ == t.blob@,
        text::opt_view(p.snapshot) == text::opt_view(t.snapshot),
        t.sas matches Some(sas) ==> p.auth@ == (auth::AuthView::Sas { sas_token: sas@ }),
        t.sas is None ==> csi::driver_auth(c, t.account@, req.secrets@) == Some(p.auth@),
        t.sas is Some ==> csi::template_endpoint(c, t) == csi::template_service(t),
        t.sas is None ==> csi::template_endpoint(c, t) == csi::endpoint_for(
            c.endpoint@,
            t.account@,
        ),
        auth::client_planned(csi::template_endpoint(c, t), t.container@, p.auth@, Ok(p.client)),
{
}

} // verus!
