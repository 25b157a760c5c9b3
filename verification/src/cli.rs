//! Storage selectors and authentication flags shared by the command-line tools.

use vstd::prelude::*;

use crate::auth;
use crate::auth::{AuthConfig, AuthError, AuthView, IdentityView, UserAssignedIdentity};
use crate::csi;
use crate::csi::BackendPlan;
use crate::text;

verus! {

/// Azure storage selectors and authentication flags.
#[derive(Debug)]
pub struct StorageArgs {
    /// Azure Storage account name.
    pub account: String,
    /// Blob container name.
    pub container: String,
    /// Page blob name (path within the container).
    pub blob: String,
    /// Service endpoint URL; the account's public endpoint without one.
    pub endpoint: Option<String>,
    /// Storage account key (base64). Enables SharedKey auth mode.
    pub account_key: Option<String>,
    /// Enable system-assigned Managed Identity.
    pub msi: bool,
    /// User-assigned Managed Identity: client ID.
    pub msi_client_id: Option<String>,
    /// User-assigned Managed Identity: object ID.
    pub msi_object_id: Option<String>,
    /// User-assigned Managed Identity: resource ID.
    pub msi_resource_id: Option<String>,
}

/// The user-assigned identity of three optional ids: the client id before the
/// object id before the resource id.
pub open spec fn identity_of(
    client: Option<String>,
    object: Option<String>,
    resource: Option<String>,
) -> Option<IdentityView> {
    match (client, object, resource) {
        (Some(s), _, _) => Some(IdentityView::ClientId(s@)),
        (None, Some(s), _) => Some(IdentityView::ObjectId(s@)),
        (None, None, Some(s)) => Some(IdentityView::ResourceId(s@)),
        (None, None, None) => None,
    }
}

/// An optional identity over views.
pub open spec fn identity_view(id: Option<UserAssignedIdentity>) -> Option<IdentityView> {
    match id {
        Some(u) => Some(u@),
        None => None,
    }
}

/// The user-assigned identity of three optional ids.
pub fn user_assigned(
    client: &Option<String>,
    object: &Option<String>,
    resource: &Option<String>,
) -> (r: Option<UserAssignedIdentity>)
    ensures
        identity_view(r) == identity_of(*client, *object, *resource),
        r is Some == (client is Some || object is Some || resource is Some),
{
    match client {
        Some(s) => Some(UserAssignedIdentity::ClientId(s.clone())),
        None => match object {
            Some(s) => Some(UserAssignedIdentity::ObjectId(s.clone())),
            None => match resource {
                Some(s) => Some(UserAssignedIdentity::ResourceId(s.clone())),
                None => None,
            },
        },
    }
}

impl StorageArgs {
    /// The service endpoint.
    pub open spec fn service(&self) -> Seq<char> {
        match self.endpoint {
            Some(e) => e@,
            None => csi::public_endpoint(self.account@),
        }
    }

    /// The authentication that the flags select: an account key, else Managed
    /// Identity.
    pub open spec fn auth(&self) -> Option<AuthView> {
        match self.account_key {
            Some(k) => Some(AuthView::SharedKey { account_name: self.account@, account_key: k@ }),
            None => {
                let id = identity_of(self.msi_client_id, self.msi_object_id, self.msi_resource_id);
                if id is Some || self.msi {
                    Some(AuthView::Msi(id))
                } else {
                    None
                }
            },
        }
    }

    /// Resolve the service endpoint, defaulting to the public Azure endpoint.
    pub fn endpoint(&self) -> (r: String)
        ensures
            r@ == self.service(),
    {
        match &self.endpoint {
            Some(e) => e.clone(),
            None => text::concat3("https://", self.account.as_str(), ".blob.core.windows.net/"),
        }
    }

    /// Build the authentication configuration from the supplied flags.
    pub fn build_auth(&self) -> (r: Result<AuthConfig, AuthError>)
        ensures
            csi::auth_result(r) == (match self.auth() {
                Some(a) => Ok(a),
                None => Err(AuthError::NotConfigured),
            }),
    {
        if let Some(key) = &self.account_key {
            return Ok(
                AuthConfig::SharedKey {
                    account_name: self.account.clone(),
                    account_key: key.clone(),
                },
            );
        }
        let id = user_assigned(&self.msi_client_id, &self.msi_object_id, &self.msi_resource_id);
        if id.is_some() || self.msi {
            return Ok(AuthConfig::Msi(id));
        }
        Err(AuthError::NotConfigured)
    }

    /// What is missing or wrong, in words.
    pub open spec fn refusal(&self, e: AuthError) -> Seq<char> {
        match e {
            AuthError::NotConfigured => "No auth method specified. Use --account-key for Azurite/dev, or --msi / --msi-client-id for production (Managed Identity)."@,
            _ => e.words(self.service(), self.container@),
        }
    }

    /// What is missing or wrong, in words.
    pub fn auth_message(&self, e: AuthError) -> (r: String)
        ensures
            r@ == self.refusal(e),
    {
        match e {
            AuthError::NotConfigured => "No auth method specified. Use --account-key for Azurite/dev, or --msi / --msi-client-id for production (Managed Identity).".to_owned(),
            _ => e.message(self.endpoint().as_str(), self.container.as_str()),
        }
    }

    /// Decide how to open the selected blob.
    pub fn build_backend(&self) -> (r: Result<BackendPlan, AuthError>)
        ensures
            csi::backend_planned(
                self.service(),
                self.container@,
                self.blob@,
                None,
                self.auth(),
                r,
            ),
    {
        let auth = match self.build_auth() {
            Ok(a) => a,
            Err(e) => {
                return Err(e);
            },
        };
        let service = self.endpoint();
        match auth::build_container_client(service.as_str(), self.container.as_str(), &auth) {
            Ok(client) => Ok(
                BackendPlan {
                    client,
                    auth,
                    container: self.container.clone(),
                    blob: self.blob.clone(),
                    snapshot: None,
                },
            ),
            Err(e) => Err(e),
        }
    }
}

/// The client id is used before the object id, and that before the resource id;
/// each stands for itself.
pub proof fn the_client_id_comes_first(
    client: Option<String>,
    object: Option<String>,
    resource: Option<String>,
)
    ensures
        client matches Some(s) ==> identity_of(client, object, resource) == Some(
            IdentityView::ClientId(s@),
        ),
        client is None ==> (object matches Some(s) ==> identity_of(client, object, resource) == Some(
            IdentityView::ObjectId(s@),
        )),
        client is None && object is None ==> (resource matches Some(s) ==> identity_of(
            client,
            object,
            resource,
        ) == Some(IdentityView::ResourceId(s@))),
        identity_of(client, object, resource) is None <==> client is None && object is None
            && resource is None,
{
}

/// A key is used before a managed identity; without a key, any identity that is
/// named or asked for is used; the service is the named one or the account's own.
pub proof fn the_flags_select_a_key_first(a: StorageArgs)
    ensures
        a.account_key matches Some(k) ==> a.auth() == Some(
            AuthView::SharedKey { account_name: a.account@, account_key: k@ },
        ),
        a.account_key is None && (a.msi || a.msi_client_id is Some || a.msi_object_id is Some
            || a.msi_resource_id is Some) ==> a.auth() == Some(
            AuthView::Msi(identity_of(a.msi_client_id, a.msi_object_id, a.msi_resource_id)),
        ),
        a.account_key is None && !a.msi && a.msi_client_id is None && a.msi_object_id is None
            && a.msi_resource_id is None ==> a.auth() is None,
        a.endpoint matches Some(e) ==> a.service() == e@,
        a.endpoint is None ==> a.service() == "https://"@ + a.account@ + ".blob.core.windows.net/"@,
{
}

} // verus!
