//! Authentication against Azure Storage.
//!
//! Five modes are supported: **Managed Identity**, **Workload Identity**, a
//! **service principal**, the account's **shared key** (HMAC-SHA256 signing, as
//! Azurite needs it), and a **shared access signature** (SAS) appended to every
//! request. This module holds the rules: how a request is signed, which query
//! pairs a SAS adds, and what kind of client an auth configuration asks for.

use vstd::prelude::*;

use base64::Engine;

use crate::bloburl;
use crate::table;
use crate::table::Table;
use crate::text;

verus! {

// ── Outside computations ────────────────────────────────────────────────────

/// The Unicode lower case of a text, as `str::to_lowercase` gives it.
pub uninterp spec fn lowercase(s: Seq<char>) -> Seq<char>;

/// The Unicode upper case of a text, as `str::to_uppercase` gives it.
pub uninterp spec fn uppercase(s: Seq<char>) -> Seq<char>;

/// The HMAC-SHA256 of an input under a key.
pub uninterp spec fn hmac_sha256(input: Seq<u8>, key: Seq<u8>) -> Seq<u8>;

/// The standard base64 text of a byte string.
pub uninterp spec fn base64_text(bytes: Seq<u8>) -> Seq<char>;

/// The bytes that a standard base64 text stands for, if it is one.
pub uninterp spec fn base64_bytes(t: Seq<char>) -> Option<Seq<u8>>;

/// A Unix time, in seconds, as a format description of the `time` crate renders
/// it; nothing for a time that is out of the crate's range or a description that
/// is not one.
pub uninterp spec fn formatted_time(secs: int, format: Seq<char>) -> Option<Seq<char>>;

/// `str::to_lowercase`: a function of the text alone.
pub assume_specification[ str::to_lowercase ](s: &str) -> (r: String)
    ensures
        r@ == lowercase(s@),
;

/// `str::to_uppercase`: a function of the text alone.
pub assume_specification[ str::to_uppercase ](s: &str) -> (r: String)
    ensures
        r@ == uppercase(s@),
;

/// `hmac_sha256::HMAC::mac`: 32 bytes that depend on the input and the key alone.
#[verifier::external_body]
fn mac(input: &[u8], key: &Vec<u8>) -> (r: Vec<u8>)
    ensures
        r@ == hmac_sha256(input@, key@),
        r@.len() == 32,
{
    hmac_sha256::HMAC::mac(input, key).to_vec()
}

/// `time::OffsetDateTime::from_unix_timestamp`, then `format` under a description
/// read by `time::format_description::parse_borrowed`: a function of the time and
/// of the description.
#[verifier::external_body]
fn format_time(secs: i64, format: &str) -> (r: Option<String>)
    ensures
        text::opt_view(r) == formatted_time(secs as int, format@),
{
    let description = time::format_description::parse_borrowed::<1>(format).ok()?;
    time::OffsetDateTime::from_unix_timestamp(secs).ok()?.format(&description).ok()
}

/// `base64::Engine::encode` of the standard engine: a function of the bytes.
#[verifier::external_body]
fn encode_base64(bytes: &Vec<u8>) -> (r: String)
    ensures
        r@ == base64_text(bytes@),
{
    base64::engine::general_purpose::STANDARD.encode(bytes)
}

/// `base64::Engine::decode` of the standard engine: nothing for a text that is no
/// standard base64, otherwise bytes that depend on the text alone.
#[verifier::external_body]
fn decode_base64(t: &str) -> (r: Option<Vec<u8>>)
    ensures
        match r {
            Some(v) => base64_bytes(t@) == Some(v@),
            None => base64_bytes(t@) is None,
        },
{
    base64::engine::general_purpose::STANDARD.decode(t).ok()
}

// ── Configuration ───────────────────────────────────────────────────────────

/// User-assigned identity selector of Managed Identity.
#[derive(Debug)]
pub enum UserAssignedIdentity {
    ClientId(String),
    ObjectId(String),
    ResourceId(String),
}

/// How to authenticate against Azure Blob Storage.
#[derive(Debug)]
pub enum AuthConfig {
    /// Managed Identity (system-assigned or user-assigned).
    Msi(Option<UserAssignedIdentity>),
    /// Microsoft Entra Workload Identity (federated Kubernetes token). A field
    /// that is `None` falls back to its standard environment variable.
    WorkloadIdentity {
        client_id: Option<String>,
        tenant_id: Option<String>,
        token_file: Option<String>,
    },
    /// Service principal (Entra ID application) with a client secret.
    ServicePrincipal { tenant_id: String, client_id: String, client_secret: String },
    /// Storage account shared key (HMAC-SHA256).
    SharedKey { account_name: String, account_key: String },
    /// Shared Access Signature: the query string of a SAS URL, with or without a
    /// leading `?`.
    Sas { sas_token: String },
}

/// The texts of a user-assigned identity selector.
pub enum IdentityView {
    ClientId(Seq<char>),
    ObjectId(Seq<char>),
    ResourceId(Seq<char>),
}

/// The texts of an auth configuration.
pub enum AuthView {
    Msi(Option<IdentityView>),
    WorkloadIdentity {
        client_id: Option<Seq<char>>,
        tenant_id: Option<Seq<char>>,
        token_file: Option<Seq<char>>,
    },
    ServicePrincipal { tenant_id: Seq<char>, client_id: Seq<char>, client_secret: Seq<char> },
    SharedKey { account_name: Seq<char>, account_key: Seq<char> },
    Sas { sas_token: Seq<char> },
}

impl View for UserAssignedIdentity {
    type V = IdentityView;

    open spec fn view(&self) -> IdentityView {
        match self {
            UserAssignedIdentity::ClientId(s) => IdentityView::ClientId(s@),
            UserAssignedIdentity::ObjectId(s) => IdentityView::ObjectId(s@),
            UserAssignedIdentity::ResourceId(s) => IdentityView::ResourceId(s@),
        }
    }
}

impl View for AuthConfig {
    type V = AuthView;

    open spec fn view(&self) -> AuthView {
        match self {
            AuthConfig::Msi(id) => AuthView::Msi(
                match id {
                    Some(u) => Some(u@),
                    None => None,
                },
            ),
            AuthConfig::WorkloadIdentity { client_id, tenant_id, token_file } => AuthView::WorkloadIdentity {
                client_id: text::opt_view(*client_id),
                tenant_id: text::opt_view(*tenant_id),
                token_file: text::opt_view(*token_file),
            },
            AuthConfig::ServicePrincipal { tenant_id, client_id, client_secret } => AuthView::ServicePrincipal {
                tenant_id: tenant_id@,
                client_id: client_id@,
                client_secret: client_secret@,
            },
            AuthConfig::SharedKey { account_name, account_key } => AuthView::SharedKey {
                account_name: account_name@,
                account_key: account_key@,
            },
            AuthConfig::Sas { sas_token } => AuthView::Sas { sas_token: sas_token@ },
        }
    }
}

/// Why no client can be built.
#[derive(Clone, Copy, Debug, PartialEq, Eq, Structural)]
pub enum AuthError {
    /// No auth method was configured.
    NotConfigured,
    /// The service URL is no URL.
    BadServiceUrl,
    /// The container URL is no URL.
    BadContainerUrl,
    /// The account key is no base64 text.
    BadAccountKey,
}

impl AuthError {
    /// What is missing or wrong with a client for `container` at `service_url`, in
    /// words.
    pub open spec fn words(self, service_url: Seq<char>, container: Seq<char>) -> Seq<char> {
        match self {
            AuthError::NotConfigured => "no auth configured: provide an account key (secret 'accountKey' or --account-key), enable Workload Identity (--workload-identity), enable Managed Identity (--msi / --msi-client-id), or a service principal (AZURE_CLIENT_ID / AZURE_TENANT_ID / AZURE_CLIENT_SECRET)"@,
            AuthError::BadServiceUrl => "parse service URL: "@ + service_url,
            AuthError::BadContainerUrl => "parse container URL: "@ + container_url(
                service_url,
                container,
            ),
            AuthError::BadAccountKey => "create SharedKeyPolicy: decode account key (expected base64)"@,
        }
    }

    /// What is missing or wrong with a client for `container` at `service_url`, in
    /// words.
    pub fn message(self, service_url: &str, container: &str) -> (r: String)
        ensures
            r@ == self.words(service_url@, container@),
    {
        match self {
            AuthError::NotConfigured => "no auth configured: provide an account key (secret 'accountKey' or --account-key), enable Workload Identity (--workload-identity), enable Managed Identity (--msi / --msi-client-id), or a service principal (AZURE_CLIENT_ID / AZURE_TENANT_ID / AZURE_CLIENT_SECRET)".to_owned(),
            AuthError::BadServiceUrl => text::concat("parse service URL: ", service_url),
            AuthError::BadContainerUrl => text::concat(
                "parse container URL: ",
                container_url_of(service_url, container).as_str(),
            ),
            AuthError::BadAccountKey => {
                "create SharedKeyPolicy: decode account key (expected base64)".to_owned()
            },
        }
    }
}

// ── Ordering ────────────────────────────────────────────────────────────────

/// `a` comes before `b` from position `i` on, in the order of code points.
pub open spec fn before_from(a: Seq<char>, b: Seq<char>, i: int) -> bool
    decreases b.len() - i,
{
    if i < 0 || i >= b.len() {
        false
    } else if i >= a.len() {
        true
    } else if a[i] != b[i] {
        a[i] < b[i]
    } else {
        before_from(a, b, i + 1)
    }
}

/// `a` comes before `b`.
pub open spec fn before(a: Seq<char>, b: Seq<char>) -> bool {
    before_from(a, b, 0)
}

/// How many of the first `n` pairs stay in front of a new pair called `name`:
/// those up to the last one whose name does not come after it.
pub open spec fn place(s: Seq<(Seq<char>, Seq<char>)>, name: Seq<char>, n: int) -> int
    decreases n,
{
    if n <= 0 || !before(name, s[n - 1].0) {
        n
    } else {
        place(s, name, n - 1)
    }
}

/// The pairs in the order of their names, pairs of one name in the given order.
pub open spec fn by_name(s: Seq<(Seq<char>, Seq<char>)>) -> Seq<(Seq<char>, Seq<char>)>
    decreases s.len(),
{
    if s.len() == 0 {
        Seq::empty()
    } else {
        let front = by_name(s.drop_last());
        front.insert(place(front, s.last().0, front.len() as int), s.last())
    }
}

proof fn lemma_before_asymmetric(a: Seq<char>, b: Seq<char>, i: int)
    requires
        0 <= i,
        before_from(a, b, i),
    ensures
        !before_from(b, a, i),
    decreases b.len() - i,
{
    if i < a.len() && i < b.len() && a[i] == b[i] {
        lemma_before_asymmetric(a, b, i + 1);
    }
}

proof fn lemma_place(s: Seq<(Seq<char>, Seq<char>)>, name: Seq<char>, n: int)
    requires
        0 <= n <= s.len(),
    ensures
        0 <= place(s, name, n) <= n,
        place(s, name, n) > 0 ==> !before(name, s[place(s, name, n) - 1].0),
        forall|i: int| place(s, name, n) <= i < n ==> before(name, #[trigger] s[i].0),
    decreases n,
{
    if n > 0 && before(name, s[n - 1].0) {
        lemma_place(s, name, n - 1);
    }
}

/// Sorting keeps the pairs, and no pair's name comes before that of the pair in
/// front of it.
pub proof fn by_name_is_sorted(s: Seq<(Seq<char>, Seq<char>)>)
    ensures
        by_name(s).to_multiset() == s.to_multiset(),
        by_name(s).len() == s.len(),
        forall|i: int, j: int|
            0 <= i && j == i + 1 && j < s.len() ==> !before(
                #[trigger] by_name(s)[j].0,
                #[trigger] by_name(s)[i].0,
            ),
    decreases s.len(),
{
    broadcast use vstd::seq_lib::group_to_multiset_ensures;

    if s.len() > 0 {
        let front = by_name(s.drop_last());
        by_name_is_sorted(s.drop_last());
        let p = s.last();
        let k = place(front, p.0, front.len() as int);
        lemma_place(front, p.0, front.len() as int);
        assert(s == s.drop_last().push(p));
        assert(front.insert(k, p).to_multiset() == front.to_multiset().insert(p));
        assert(s.drop_last().push(p).to_multiset() == s.drop_last().to_multiset().insert(p));
        let all = by_name(s);
        assert forall|i: int, j: int| 0 <= i && j == i + 1 && j < s.len() implies !before(
            #[trigger] all[j].0,
            #[trigger] all[i].0,
        ) by {
            if j < k {
                assert(all[i] == front[i] && all[j] == front[j]);
            } else if j == k {
                assert(all[i] == front[i] && all[j] == p);
            } else if i == k {
                assert(all[i] == p && all[j] == front[k]);
                lemma_before_asymmetric(p.0, front[k].0, 0);
            } else {
                assert(all[i] == front[i - 1] && all[j] == front[j - 1]);
            }
        }
    } else {
        assert(by_name(s) == s);
    }
}

fn comes_before(a: &str, b: &str) -> (r: bool)
    ensures
        r == before(a@, b@),
{
    let x = text::chars_of(a);
    let y = text::chars_of(b);
    let mut i: usize = 0;
    while i < y.len()
        invariant
            x@ == a@,
            y@ == b@,
            i <= y@.len(),
            before(a@, b@) == before_from(a@, b@, i as int),
        decreases y@.len() - i,
    {
        if i >= x.len() {
            return true;
        }
        if x[i] != y[i] {
            return x[i] < y[i];
        }
        i = i + 1;
    }
    false
}

/// Put one more pair into its place.
fn insert_by_name(v: &mut Vec<(String, String)>, name: String, value: String)
    ensures
        table::pairs(final(v)@) == table::pairs(old(v)@).insert(
            place(table::pairs(old(v)@), name@, old(v)@.len() as int),
            (name@, value@),
        ),
{
    let ghost s = table::pairs(v@);
    let mut k: usize = v.len();
    while k > 0 && comes_before(name.as_str(), v[k - 1].0.as_str())
        invariant
            k <= v@.len(),
            s == table::pairs(v@),
            place(s, name@, v@.len() as int) == place(s, name@, k as int),
        decreases k,
    {
        assert(s[k - 1].0 == v@[k - 1].0@);
        k = k - 1;
    }
    proof {
        if k > 0 {
            assert(s[k - 1].0 == v@[k - 1].0@);
        }
        lemma_place(s, name@, k as int);
    }
    let ghost pair = (name@, value@);
    v.insert(k, (name, value));
    assert(table::pairs(v@) == s.insert(k as int, pair));
}

// ── Shared key signing ──────────────────────────────────────────────────────

/// The `x-ms-*` headers, with lower-case names and trimmed values.
pub open spec fn ms_headers(h: Seq<(Seq<char>, Seq<char>)>) -> Seq<(Seq<char>, Seq<char>)>
    decreases h.len(),
{
    if h.len() == 0 {
        Seq::empty()
    } else {
        let front = ms_headers(h.drop_last());
        let name = lowercase(h.last().0);
        if text::begins(name, "x-ms-"@) {
            front.push((name, text::trim(h.last().1)))
        } else {
            front
        }
    }
}

/// One `name:value` line per pair.
pub open spec fn header_lines(s: Seq<(Seq<char>, Seq<char>)>) -> Seq<Seq<char>> {
    s.map_values(|p: (Seq<char>, Seq<char>)| p.0 + ":"@ + p.1)
}

/// The canonicalized `x-ms-*` headers of a request.
pub open spec fn canonical_headers(h: Seq<(Seq<char>, Seq<char>)>) -> Seq<char> {
    text::join(header_lines(by_name(ms_headers(h))), "\n"@)
}

/// The pairs with their names in lower case.
pub open spec fn lower_names(s: Seq<(Seq<char>, Seq<char>)>) -> Seq<(Seq<char>, Seq<char>)> {
    s.map_values(|p: (Seq<char>, Seq<char>)| (lowercase(p.0), p.1))
}

/// The first `n` of a list of sorted pairs, one line per name, with the values of
/// one name separated by commas.
pub open spec fn grouped(s: Seq<(Seq<char>, Seq<char>)>, n: int) -> Seq<char>
    decreases n,
{
    if n <= 0 || n > s.len() {
        Seq::empty()
    } else if n > 1 && s[n - 1].0 == s[n - 2].0 {
        grouped(s, n - 1) + ","@ + s[n - 1].1
    } else {
        grouped(s, n - 1) + "\n"@ + s[n - 1].0 + ":"@ + s[n - 1].1
    }
}

/// The canonicalized resource of a request: `/{account}{path}` and the sorted
/// query parameters.
pub open spec fn canonical_resource(
    account: Seq<char>,
    path: Seq<char>,
    query: Seq<(Seq<char>, Seq<char>)>,
) -> Seq<char> {
    let s = by_name(lower_names(query));
    "/"@ + account + path + grouped(s, s.len() as int)
}

/// The value of a header, empty without one.
pub open spec fn header(h: Seq<(Seq<char>, Seq<char>)>, name: Seq<char>) -> Seq<char> {
    match table::value(table::settings(h), name) {
        Some(v) => v,
        None => Seq::empty(),
    }
}

/// The content length as it is signed: empty when it is zero.
pub open spec fn signed_length(h: Seq<(Seq<char>, Seq<char>)>) -> Seq<char> {
    let n = header(h, "content-length"@);
    if n == "0"@ {
        Seq::empty()
    } else {
        n
    }
}

/// The lines that a shared-key signature covers.
pub open spec fn signed_lines(
    account: Seq<char>,
    method: Seq<char>,
    h: Seq<(Seq<char>, Seq<char>)>,
    path: Seq<char>,
    query: Seq<(Seq<char>, Seq<char>)>,
) -> Seq<Seq<char>> {
    seq![
        uppercase(method),
        header(h, "content-encoding"@),
        header(h, "content-language"@),
        signed_length(h),
        header(h, "content-md5"@),
        header(h, "content-type"@),
        header(h, "date"@),
        header(h, "if-modified-since"@),
        header(h, "if-match"@),
        header(h, "if-none-match"@),
        header(h, "if-unmodified-since"@),
        header(h, "range"@),
        canonical_headers(h),
        canonical_resource(account, path, query),
    ]
}

/// The text that a shared-key signature covers.
pub open spec fn string_to_sign(
    account: Seq<char>,
    method: Seq<char>,
    h: Seq<(Seq<char>, Seq<char>)>,
    path: Seq<char>,
    query: Seq<(Seq<char>, Seq<char>)>,
) -> Seq<char> {
    text::join(signed_lines(account, method, h, path, query), "\n"@)
}

/// The `Authorization` header of a shared-key request.
pub open spec fn authorization(account: Seq<char>, key: Seq<u8>, signed: Seq<char>) -> Seq<char> {
    "SharedKey "@ + account + ":"@ + base64_text(
        hmac_sha256(vstd::utf8::encode_utf8(signed), key),
    )
}

/// The canonicalized `x-ms-*` headers of a request.
pub fn canonicalized_headers(headers: &Vec<(String, String)>) -> (r: String)
    ensures
        r@ == canonical_headers(table::pairs(headers@)),
{
    let ghost h = table::pairs(headers@);
    let mut sorted: Vec<(String, String)> = Vec::new();
    assert(table::pairs(sorted@) == by_name(ms_headers(h.take(0))));
    let mut i: usize = 0;
    while i < headers.len()
        invariant
            i <= headers@.len(),
            h == table::pairs(headers@),
            table::pairs(sorted@) == by_name(ms_headers(h.take(i as int))),
        decreases headers@.len() - i,
    {
        let name = headers[i].0.as_str().to_lowercase();
        let ghost front = ms_headers(h.take(i as int));
        proof {
            assert(h.take(i + 1).drop_last() == h.take(i as int));
            assert(h.take(i + 1).last() == (headers@[i as int].0@, headers@[i as int].1@));
        }
        if text::begins_with(name.as_str(), "x-ms-") {
            let value = text::trimmed(headers[i].1.as_str());
            let ghost pair = (name@, value@);
            insert_by_name(&mut sorted, name, value);
            proof {
                assert(front.push(pair).drop_last() == front);
            }
        }
        i = i + 1;
    }
    assert(h.take(h.len() as int) == h);
    let mut lines: Vec<String> = Vec::new();
    let ghost s = table::pairs(sorted@);
    let mut j: usize = 0;
    assert(text::views(lines@) == header_lines(s).take(0));
    while j < sorted.len()
        invariant
            j <= sorted@.len(),
            s == table::pairs(sorted@),
            text::views(lines@) == header_lines(s).take(j as int),
        decreases sorted@.len() - j,
    {
        let line = text::concat3(sorted[j].0.as_str(), ":", sorted[j].1.as_str());
        let ghost had = lines@;
        lines.push(line);
        proof {
            assert(s[j as int] == (sorted@[j as int].0@, sorted@[j as int].1@));
            assert(text::views(lines@) == text::views(had).push(line@));
            assert(header_lines(s).take(j + 1) == header_lines(s).take(j as int).push(
                header_lines(s)[j as int],
            ));
        }
        j = j + 1;
    }
    proof {
        assert(header_lines(s).take(s.len() as int) == header_lines(s));
        assert(text::views(lines@).skip(0) == text::views(lines@));
    }
    text::join_all(&lines, 0, "\n")
}

/// The canonicalized resource for a path and a query.
pub fn resource_text(account: &str, path: &str, query: &Vec<(String, String)>) -> (r: String)
    ensures
        r@ == canonical_resource(account@, path@, table::pairs(query@)),
{
    let ghost q = table::pairs(query@);
    let mut sorted: Vec<(String, String)> = Vec::new();
    assert(table::pairs(sorted@) == by_name(lower_names(q.take(0))));
    let mut i: usize = 0;
    while i < query.len()
        invariant
            i <= query@.len(),
            q == table::pairs(query@),
            table::pairs(sorted@) == by_name(lower_names(q.take(i as int))),
        decreases query@.len() - i,
    {
        let name = query[i].0.as_str().to_lowercase();
        let value = query[i].1.clone();
        let ghost pair = (name@, value@);
        let ghost front = lower_names(q.take(i as int));
        insert_by_name(&mut sorted, name, value);
        proof {
            assert(q[i as int] == (query@[i as int].0@, query@[i as int].1@));
            assert(lower_names(q.take(i + 1)) == front.push(pair));
            assert(front.push(pair).drop_last() == front);
        }
        i = i + 1;
    }
    assert(q.take(q.len() as int) == q);
    let ghost s = table::pairs(sorted@);
    let mut out = text::concat3("/", account, path);
    let ghost head = out@;
    assert(head + grouped(s, 0) == head);
    let mut j: usize = 0;
    while j < sorted.len()
        invariant
            j <= sorted@.len(),
            s == table::pairs(sorted@),
            out@ == head + grouped(s, j as int),
        decreases sorted@.len() - j,
    {
        let ghost had = out@;
        proof {
            assert(s[j as int] == (sorted@[j as int].0@, sorted@[j as int].1@));
            if j > 0 {
                assert(s[j - 1] == (sorted@[j - 1].0@, sorted@[j - 1].1@));
            }
        }
        if j > 0 && text::same(sorted[j].0.as_str(), sorted[j - 1].0.as_str()) {
            out.append(",");
            out.append(sorted[j].1.as_str());
            assert(out@ == head + (grouped(s, j as int) + ","@ + s[j as int].1));
        } else {
            out.append("\n");
            out.append(sorted[j].0.as_str());
            out.append(":");
            out.append(sorted[j].1.as_str());
            assert(out@ == head + (grouped(s, j as int) + "\n"@ + s[j as int].0 + ":"@
                + s[j as int].1));
        }
        j = j + 1;
    }
    out
}

/// Azure Storage SharedKey HMAC-SHA256 signing.
#[derive(Debug)]
pub struct SharedKeyPolicy {
    account_name: String,
    /// Raw (decoded) account key.
    account_key_bytes: Vec<u8>,
}

impl SharedKeyPolicy {
    /// The account that signs.
    pub closed spec fn account(&self) -> Seq<char> {
        self.account_name@
    }

    /// The decoded key.
    pub closed spec fn key(&self) -> Seq<u8> {
        self.account_key_bytes@
    }

    /// A signer for an account and its base64 key.
    pub fn new(account_name: String, account_key_b64: String) -> (r: Result<Self, AuthError>)
        ensures
            match base64_bytes(account_key_b64@) {
                Some(k) => r matches Ok(p) && p.account() == account_name@ && p.key() == k,
                None => r == Err::<Self, _>(AuthError::BadAccountKey),
            },
    {
        match decode_base64(account_key_b64.as_str()) {
            Some(account_key_bytes) => Ok(SharedKeyPolicy { account_name, account_key_bytes }),
            None => Err(AuthError::BadAccountKey),
        }
    }

    /// The canonicalized resource of a request to `url`; nothing when that is no
    /// URL.
    ///
    /// Azurite carries the account as the first path segment, so there the
    /// resource contains it twice, which is how Azurite computes it too.
    pub fn canonicalized_resource(account: &str, url: &str) -> (r: Option<String>)
        ensures
            text::opt_view(r) == (match bloburl::url_parts(url@) {
                Some(u) => Some(canonical_resource(account@, u.path, u.query)),
                None => None,
            }),
    {
        match bloburl::split_url(url) {
            Some(u) => Some(resource_text(account, u.path.as_str(), &u.query)),
            None => None,
        }
    }

    /// The text to sign for a request given by its method, headers (with their
    /// names in lower case), path and query.
    pub fn string_to_sign(
        &self,
        method: &str,
        headers: &Vec<(String, String)>,
        path: &str,
        query: &Vec<(String, String)>,
    ) -> (r: String)
        ensures
            r@ == string_to_sign(
                self.account(),
                method@,
                table::pairs(headers@),
                path@,
                table::pairs(query@),
            ),
    {
        let ghost h = table::pairs(headers@);
        let t = Table::of(bloburl::clone_pairs(headers));
        assert(""@ == Seq::<char>::empty()) by {
            reveal_strlit("");
        }
        let length = t.get_or("content-length", "");
        let signed = if text::same(length.as_str(), "0") {
            String::new()
        } else {
            length
        };
        assert(signed@ == signed_length(h));
        let mut lines: Vec<String> = Vec::new();
        lines.push(method.to_uppercase());
        lines.push(t.get_or("content-encoding", ""));
        lines.push(t.get_or("content-language", ""));
        lines.push(signed);
        lines.push(t.get_or("content-md5", ""));
        lines.push(t.get_or("content-type", ""));
        lines.push(t.get_or("date", ""));
        lines.push(t.get_or("if-modified-since", ""));
        lines.push(t.get_or("if-match", ""));
        lines.push(t.get_or("if-none-match", ""));
        lines.push(t.get_or("if-unmodified-since", ""));
        lines.push(t.get_or("range", ""));
        lines.push(canonicalized_headers(headers));
        lines.push(resource_text(self.account_name.as_str(), path, query));
        proof {
            assert(text::views(lines@) =~= signed_lines(
                self.account(),
                method@,
                h,
                path@,
                table::pairs(query@),
            ));
            assert(text::views(lines@).skip(0) == text::views(lines@));
        }
        text::join_all(&lines, 0, "\n")
    }

    /// The `Authorization` header for a text to sign.
    pub fn authorize(&self, signed: &str) -> (r: String)
        ensures
            r@ == authorization(self.account(), self.key(), signed@),
    {
        let tag = mac(signed.as_bytes(), &self.account_key_bytes);
        let mut r = text::concat3("SharedKey ", self.account_name.as_str(), ":");
        r.append(encode_base64(&tag).as_str());
        r
    }

    /// The `Authorization` header of a request; nothing when `url` is no URL.
    pub fn sign(&self, method: &str, headers: &Vec<(String, String)>, url: &str) -> (r: Option<
        String,
    >)
        ensures
            text::opt_view(r) == (match bloburl::url_parts(url@) {
                Some(u) => Some(
                    authorization(
                        self.account(),
                        self.key(),
                        string_to_sign(
                            self.account(),
                            method@,
                            table::pairs(headers@),
                            u.path,
                            u.query,
                        ),
                    ),
                ),
                None => None,
            }),
    {
        match bloburl::split_url(url) {
            Some(u) => {
                let signed = self.string_to_sign(method, headers, u.path.as_str(), &u.query);
                Some(self.authorize(signed.as_str()))
            },
            None => None,
        }
    }
}

/// Whether a request still needs an `x-ms-date` header before it is signed.
pub fn needs_date(headers: &Vec<(String, String)>) -> (r: bool)
    ensures
        r == !table::settings(table::pairs(headers@)).contains_key("x-ms-date"@),
{
    let t = Table::of(bloburl::clone_pairs(headers));
    t.get("x-ms-date").is_none()
}

/// The date that Azure Storage accepts, for example
/// `Mon, 02 Jan 2006 15:04:05 GMT`.
pub const HTTP_DATE: &'static str = "[weekday repr:short], [day] [month repr:short] [year] [hour]:[minute]:[second] GMT";

/// The headers of a request with an `x-ms-date` of the time `now`, unless they hold
/// one already.
pub open spec fn with_date(headers: Seq<(Seq<char>, Seq<char>)>, now: int) -> Seq<
    (Seq<char>, Seq<char>),
> {
    if table::settings(headers).contains_key("x-ms-date"@) {
        headers
    } else {
        match formatted_time(now, HTTP_DATE@) {
            Some(d) => headers.push(("x-ms-date"@, d)),
            None => headers,
        }
    }
}

/// Date a request, unless it is dated already. `now` is the Unix time in seconds.
pub fn dated(headers: &Vec<(String, String)>, now: i64) -> (r: Vec<(String, String)>)
    ensures
        table::pairs(r@) == with_date(table::pairs(headers@), now as int),
{
    let mut r = bloburl::clone_pairs(headers);
    if needs_date(headers) {
        if let Some(d) = format_time(now, HTTP_DATE) {
            let ghost had = r@;
            r.push(("x-ms-date".to_owned(), d));
            assert(table::pairs(r@) =~= table::pairs(had).push(("x-ms-date"@, d@)));
        }
    }
    r
}

impl SharedKeyPolicy {
    /// The headers with which a request is sent: dated, and with the signature
    /// over them; nothing when `url` is no URL.
    pub fn send(&self, method: &str, headers: &Vec<(String, String)>, url: &str, now: i64) -> (r:
        Option<Vec<(String, String)>>)
        ensures
            match bloburl::url_parts(url@) {
                Some(u) => {
                    let sent = with_date(table::pairs(headers@), now as int);
                    r matches Some(h) && table::pairs(h@) == sent.push(
                        (
                            "authorization"@,
                            authorization(
                                self.account(),
                                self.key(),
                                string_to_sign(self.account(), method@, sent, u.path, u.query),
                            ),
                        ),
                    )
                },
                None => r is None,
            },
    {
        let mut h = dated(headers, now);
        match self.sign(method, &h, url) {
            Some(signature) => {
                let ghost had = h@;
                h.push(("authorization".to_owned(), signature));
                assert(table::pairs(h@) =~= table::pairs(had).push(
                    ("authorization"@, signature@),
                ));
                Some(h)
            },
            None => None,
        }
    }
}

// ── Shared access signatures ────────────────────────────────────────────────

/// The pairs of `s` whose names do not occur in `existing`.
pub open spec fn missing_pairs(
    s: Seq<(Seq<char>, Seq<char>)>,
    existing: Seq<(Seq<char>, Seq<char>)>,
) -> Seq<(Seq<char>, Seq<char>)> {
    s.filter(|p: (Seq<char>, Seq<char>)| !table::settings(existing).contains_key(p.0))
}

/// The URL whose query is a SAS token without its leading question marks.
pub open spec fn sas_url(token: Seq<char>) -> Seq<char> {
    "https://x/?"@ + text::trim_start_char(token, '?')
}

/// The query pairs that a SAS adds to every request.
#[derive(Debug)]
pub struct SasPolicy {
    /// SAS query pairs, parsed once (leading `?` stripped).
    pub pairs: Vec<(String, String)>,
}

impl SasPolicy {
    /// The pairs of a SAS token; none of a token that is no query string.
    pub fn new(sas_token: &str) -> (r: Self)
        ensures
            table::pairs(r.pairs@) == (match bloburl::url_parts(sas_url(sas_token@)) {
                Some(u) => u.query,
                None => Seq::empty(),
            }),
    {
        let url = text::concat("https://x/?", text::without_leading(sas_token, '?').as_str());
        match bloburl::split_url(url.as_str()) {
            Some(u) => SasPolicy { pairs: u.query },
            None => {
                let pairs: Vec<(String, String)> = Vec::new();
                assert(table::pairs(pairs@) == Seq::<(Seq<char>, Seq<char>)>::empty());
                SasPolicy { pairs }
            },
        }
    }

    /// The pairs to append to a request whose URL has the query `existing`: those
    /// whose names it lacks, so that a `snapshot` or `comp` that is already there
    /// is preserved.
    pub fn to_add(&self, existing: &Vec<(String, String)>) -> (r: Vec<(String, String)>)
        ensures
            table::pairs(r@) == missing_pairs(table::pairs(self.pairs@), table::pairs(existing@)),
    {
        let have = Table::of(bloburl::clone_pairs(existing));
        let ghost s = table::pairs(self.pairs@);
        let ghost e = table::pairs(existing@);
        let ghost keep = |p: (Seq<char>, Seq<char>)| !table::settings(e).contains_key(p.0);
        let mut r: Vec<(String, String)> = Vec::new();
        let mut i: usize = 0;
        proof {
            reveal(Seq::filter);
            assert(table::pairs(r@) == s.take(0).filter(keep));
        }
        while i < self.pairs.len()
            invariant
                i <= self.pairs@.len(),
                s == table::pairs(self.pairs@),
                have@ == table::settings(e),
                keep == |p: (Seq<char>, Seq<char>)| !table::settings(e).contains_key(p.0),
                table::pairs(r@) == s.take(i as int).filter(keep),
            decreases self.pairs@.len() - i,
        {
            proof {
                assert(s.take(i + 1).drop_last() == s.take(i as int));
                assert(s.take(i + 1).last() == s[i as int]);
                assert(s[i as int] == (self.pairs@[i as int].0@, self.pairs@[i as int].1@));
                reveal(Seq::filter);
            }
            if have.get(self.pairs[i].0.as_str()).is_none() {
                let ghost had = r@;
                r.push((self.pairs[i].0.clone(), self.pairs[i].1.clone()));
                assert(table::pairs(r@) == table::pairs(had).push(s[i as int]));
            }
            i = i + 1;
        }
        assert(s.take(s.len() as int) == s);
        r
    }
}

/// A SAS never repeats or replaces a query parameter that a request already has.
pub proof fn a_sas_preserves_the_query(
    s: Seq<(Seq<char>, Seq<char>)>,
    existing: Seq<(Seq<char>, Seq<char>)>,
    name: Seq<char>,
)
    requires
        table::settings(existing).contains_key(name),
    ensures
        table::value(table::settings(existing + missing_pairs(s, existing)), name) == table::value(
            table::settings(existing),
            name,
        ),
{
    let keep = |p: (Seq<char>, Seq<char>)| !table::settings(existing).contains_key(p.0);
    let add = missing_pairs(s, existing);
    assert forall|i: int| 0 <= i < add.len() implies (#[trigger] add[i]).0 != name by {
        s.lemma_filter_pred(keep, i);
    }
    lemma_settings_skip(existing, add, name);
}

proof fn lemma_settings_skip(
    a: Seq<(Seq<char>, Seq<char>)>,
    b: Seq<(Seq<char>, Seq<char>)>,
    name: Seq<char>,
)
    requires
        forall|i: int| 0 <= i < b.len() ==> (#[trigger] b[i]).0 != name,
    ensures
        table::value(table::settings(a + b), name) == table::value(table::settings(a), name),
    decreases b.len(),
{
    if b.len() == 0 {
        assert(a + b == a);
    } else {
        assert((a + b).drop_last() == a + b.drop_last());
        assert((a + b).last() == b.last());
        lemma_settings_skip(a, b.drop_last(), name);
    }
}

// ── Clients ─────────────────────────────────────────────────────────────────

/// The OAuth scope of Azure Storage.
pub const STORAGE_SCOPE: &'static str = "https://storage.azure.com/.default";

/// The auth modes that yield an Entra (OAuth) token.
pub open spec fn entra(auth: AuthView) -> bool {
    auth is Msi || auth is WorkloadIdentity || auth is ServicePrincipal
}

/// Whether `auth` yields an Entra (OAuth) token.
pub fn uses_token(auth: &AuthConfig) -> (r: bool)
    ensures
        r == entra(auth@),
{
    match auth {
        AuthConfig::SharedKey { .. } => false,
        AuthConfig::Sas { .. } => false,
        _ => true,
    }
}

/// The `Authorization` header for an OAuth token.
pub fn bearer(token: &str) -> (r: String)
    ensures
        r@ == "Bearer "@ + token@,
{
    text::concat("Bearer ", token)
}

/// What a container client is made of.
#[derive(Debug)]
pub enum ClientPlan {
    /// A service client with the configuration's token credential, asked for the
    /// container.
    Service { service_url: String, container: String },
    /// A container client without a credential, whose requests are signed.
    SharedKey { container_url: String, policy: SharedKeyPolicy },
    /// A container client without a credential, whose requests carry a SAS.
    Sas { container_url: String, policy: SasPolicy },
}

/// The URL of a container below a service URL.
pub open spec fn container_url(service_url: Seq<char>, container: Seq<char>) -> Seq<char> {
    text::trim_end_char(service_url, '/') + "/"@ + container
}

fn container_url_of(service_url: &str, container: &str) -> (r: String)
    ensures
        r@ == container_url(service_url@, container@),
{
    text::concat3(text::without_trailing(service_url, '/').as_str(), "/", container)
}

/// `text` is a URL.
pub open spec fn is_url(t: Seq<char>) -> bool {
    bloburl::url_parts(t) is Some
}

/// `r` is the right way to reach `container` at `service_url` with `auth`.
pub open spec fn client_planned(
    service_url: Seq<char>,
    container: Seq<char>,
    auth: AuthView,
    r: Result<ClientPlan, AuthError>,
) -> bool {
    let url = container_url(service_url, container);
    if !is_url(service_url) {
        r == Err::<ClientPlan, _>(AuthError::BadServiceUrl)
    } else {
        match auth {
            AuthView::SharedKey { account_name, account_key } => match base64_bytes(account_key) {
                None => r == Err::<ClientPlan, _>(AuthError::BadAccountKey),
                Some(k) => if !is_url(url) {
                    r == Err::<ClientPlan, _>(AuthError::BadContainerUrl)
                } else {
                    r matches Ok(ClientPlan::SharedKey { container_url: u, policy }) && u@ == url
                        && policy.account() == account_name && policy.key() == k
                },
            },
            AuthView::Sas { sas_token } => if !is_url(url) {
                r == Err::<ClientPlan, _>(AuthError::BadContainerUrl)
            } else {
                r matches Ok(ClientPlan::Sas { container_url: u, policy }) && u@ == url
                    && table::pairs(policy.pairs@) == (match bloburl::url_parts(sas_url(sas_token)) {
                    Some(p) => p.query,
                    None => Seq::empty(),
                })
            },
            _ => r matches Ok(ClientPlan::Service { service_url: u, container: c }) && u@
                == service_url && c@ == container,
        }
    }
}

/// Decide how to reach a container with an auth configuration.
pub fn build_container_client(service_url: &str, container_name: &str, auth: &AuthConfig) -> (r:
    Result<ClientPlan, AuthError>)
    ensures
        client_planned(service_url@, container_name@, auth@, r),
{
    if bloburl::split_url(service_url).is_none() {
        return Err(AuthError::BadServiceUrl);
    }
    let url = container_url_of(service_url, container_name);
    match auth {
        AuthConfig::SharedKey { account_name, account_key } => {
            let policy = match SharedKeyPolicy::new(account_name.clone(), account_key.clone()) {
                Ok(p) => p,
                Err(e) => {
                    return Err(e);
                },
            };
            if bloburl::split_url(url.as_str()).is_none() {
                return Err(AuthError::BadContainerUrl);
            }
            Ok(ClientPlan::SharedKey { container_url: url, policy })
        },
        AuthConfig::Sas { sas_token } => {
            let policy = SasPolicy::new(sas_token.as_str());
            if bloburl::split_url(url.as_str()).is_none() {
                return Err(AuthError::BadContainerUrl);
            }
            Ok(ClientPlan::Sas { container_url: url, policy })
        },
        _ => Ok(
            ClientPlan::Service {
                service_url: service_url.to_owned(),
                container: container_name.to_owned(),
            },
        ),
    }
}

/// The per-try policy of a bare request pipeline.
#[derive(Debug)]
pub enum PipelinePlan {
    SharedKey(SharedKeyPolicy),
    Sas(SasPolicy),
    /// A bearer token of the configuration's credential, scoped to
    /// [`STORAGE_SCOPE`].
    Bearer,
}

/// Decide how a bare request pipeline authenticates.
pub fn build_pipeline(auth: &AuthConfig) -> (r: Result<PipelinePlan, AuthError>)
    ensures
        match auth@ {
            AuthView::SharedKey { account_name, account_key } => match base64_bytes(account_key) {
                None => r == Err::<PipelinePlan, _>(AuthError::BadAccountKey),
                Some(k) => r matches Ok(PipelinePlan::SharedKey(p)) && p.account() == account_name
                    && p.key() == k,
            },
            AuthView::Sas { sas_token } => r matches Ok(PipelinePlan::Sas(p)) && table::pairs(
                p.pairs@,
            ) == (match bloburl::url_parts(sas_url(sas_token)) {
                Some(u) => u.query,
                None => Seq::empty(),
            }),
            _ => r == Ok::<PipelinePlan, AuthError>(PipelinePlan::Bearer),
        },
{
    match auth {
        AuthConfig::SharedKey { account_name, account_key } => {
            match SharedKeyPolicy::new(account_name.clone(), account_key.clone()) {
                Ok(p) => Ok(PipelinePlan::SharedKey(p)),
                Err(e) => Err(e),
            }
        },
        AuthConfig::Sas { sas_token } => Ok(PipelinePlan::Sas(SasPolicy::new(sas_token.as_str()))),
        _ => Ok(PipelinePlan::Bearer),
    }
}

// ── What signing comes to ───────────────────────────────────────────────────

/// Names are ordered by code points: a shorter text comes before its
/// continuations, the first difference decides between two others, and no text
/// comes before itself.
pub proof fn names_are_ordered_by_code_points(
    p: Seq<char>,
    c: char,
    d: char,
    s: Seq<char>,
    t: Seq<char>,
)
    ensures
        !before(p, p),
        before(p, p + seq![c] + s),
        !before(p + seq![c] + s, p),
        c != d ==> (before(p + seq![c] + s, p + seq![d] + t) <==> c < d),
{
    let n = p.len() as int;
    lemma_before_common(p, p, n, 0);
    lemma_before_common(p, p + seq![c] + s, n, 0);
    lemma_before_common(p + seq![c] + s, p, n, 0);
    lemma_before_common(p + seq![c] + s, p + seq![d] + t, n, 0);
    assert((p + seq![c] + s)[n] == c);
    assert((p + seq![d] + t)[n] == d);
}

proof fn lemma_before_common(a: Seq<char>, b: Seq<char>, n: int, i: int)
    requires
        0 <= i <= n <= a.len(),
        n <= b.len(),
        forall|j: int| 0 <= j < n ==> #[trigger] a[j] == b[j],
    ensures
        before_from(a, b, i) == before_from(a, b, n),
    decreases n - i,
{
    if i < n {
        assert(a[i] == b[i]);
        lemma_before_common(a, b, n, i + 1);
    }
}

/// Sorting keeps the pairs of one name in the order in which they came.
pub proof fn sorting_keeps_the_order_of_one_name(s: Seq<(Seq<char>, Seq<char>)>, name: Seq<char>)
    ensures
        by_name(s).filter(|p: (Seq<char>, Seq<char>)| p.0 == name) == s.filter(
            |p: (Seq<char>, Seq<char>)| p.0 == name,
        ),
    decreases s.len(),
{
    let f = |p: (Seq<char>, Seq<char>)| p.0 == name;
    if s.len() > 0 {
        let front = by_name(s.drop_last());
        let p = s.last();
        let k = place(front, p.0, front.len() as int);
        lemma_place(front, p.0, front.len() as int);
        sorting_keeps_the_order_of_one_name(s.drop_last(), name);
        let a = front.take(k);
        let b = front.skip(k);
        assert(front =~= a + b);
        assert(by_name(s) =~= (a + seq![p]) + b);
        Seq::filter_distributes_over_add(a, b, f);
        Seq::filter_distributes_over_add(a, seq![p], f);
        Seq::filter_distributes_over_add(a + seq![p], b, f);
        Seq::filter_distributes_over_add(s.drop_last(), seq![p], f);
        assert(s =~= s.drop_last() + seq![p]);
        if p.0 == name {
            assert forall|i: int| 0 <= i < b.len() implies !f(#[trigger] b[i]) by {
                assert(b[i] == front[k + i]);
                if b[i].0 == name {
                    lemma_before_common(name, name, name.len() as int, 0);
                }
            }
            b.lemma_all_neg_filter_empty(f);
            assert(by_name(s).filter(f) =~= s.filter(f));
        } else {
            assert(seq![p].filter(f) =~= Seq::empty()) by {
                seq![p].lemma_all_neg_filter_empty(f);
            }
            assert(by_name(s).filter(f) =~= s.filter(f));
        }
    } else {
        assert(by_name(s) =~= s);
    }
}

proof fn lemma_sorted_values(s: Seq<(Seq<char>, Seq<char>)>)
    ensures
        by_name(s).map_values(|p: (Seq<char>, Seq<char>)| p.1).to_multiset() == s.map_values(
            |p: (Seq<char>, Seq<char>)| p.1,
        ).to_multiset(),
    decreases s.len(),
{
    broadcast use vstd::seq_lib::group_to_multiset_ensures;

    let f = |p: (Seq<char>, Seq<char>)| p.1;
    if s.len() > 0 {
        let front = by_name(s.drop_last());
        let p = s.last();
        let k = place(front, p.0, front.len() as int);
        lemma_place(front, p.0, front.len() as int);
        lemma_sorted_values(s.drop_last());
        let values = front.map_values(f);
        assert(by_name(s).map_values(f) =~= values.insert(k, p.1));
        assert(s.map_values(f) =~= s.drop_last().map_values(f).push(p.1));
        assert(values.insert(k, p.1).to_multiset() == values.to_multiset().insert(p.1));
        assert(s.drop_last().map_values(f).push(p.1).to_multiset()
            == s.drop_last().map_values(f).to_multiset().insert(p.1));
    } else {
        assert(by_name(s) =~= s);
    }
}

/// A canonicalized resource is the account, the path, and the pairs of the query
/// in the order of their names: the names in lower case, the values as they are.
/// The result holds the pairs as they are signed.
pub proof fn a_resource_signs_every_value_as_it_is(
    account: Seq<char>,
    path: Seq<char>,
    query: Seq<(Seq<char>, Seq<char>)>,
) -> (s: Seq<(Seq<char>, Seq<char>)>)
    ensures
        canonical_resource(account, path, query) == "/"@ + account + path + grouped(
            s,
            s.len() as int,
        ),
        s.len() == query.len(),
        s.to_multiset() == Seq::new(
            query.len(),
            |i: int| (lowercase(query[i].0), query[i].1),
        ).to_multiset(),
        s.map_values(|p: (Seq<char>, Seq<char>)| p.1).to_multiset() == query.map_values(
            |p: (Seq<char>, Seq<char>)| p.1,
        ).to_multiset(),
        forall|i: int, j: int|
            0 <= i && j == i + 1 && j < s.len() ==> !before(
                #[trigger] s[j].0,
                #[trigger] s[i].0,
            ),
{
    let low = lower_names(query);
    let s = by_name(low);
    by_name_is_sorted(low);
    lemma_sorted_values(low);
    assert(low =~= Seq::new(query.len(), |i: int| (lowercase(query[i].0), query[i].1)));
    assert(low.map_values(|p: (Seq<char>, Seq<char>)| p.1) =~= query.map_values(
        |p: (Seq<char>, Seq<char>)| p.1,
    ));
    s
}

/// Each pair more of a sorted query stands on a line of its own, `name:value`, or,
/// under the name of the pair in front of it, behind a comma.
pub proof fn a_signed_pair_stands_on_its_line(
    s: Seq<(Seq<char>, Seq<char>)>,
    name: Seq<char>,
    value: Seq<char>,
)
    ensures
        grouped(Seq::empty(), 0) == Seq::<char>::empty(),
        s.len() == 0 || s.last().0 != name ==> grouped(s.push((name, value)), s.len() as int + 1)
            == grouped(s, s.len() as int) + seq!['\n'] + name + seq![':'] + value,
        s.len() > 0 && s.last().0 == name ==> grouped(s.push((name, value)), s.len() as int + 1)
            == grouped(s, s.len() as int) + seq![','] + value,
{
    reveal_strlit("\n");
    reveal_strlit(":");
    reveal_strlit(",");
    assert("\n"@ =~= seq!['\n']);
    assert(":"@ =~= seq![':']);
    assert(","@ =~= seq![',']);
    let n = s.len() as int;
    let t = s.push((name, value));
    lemma_grouped_prefix(t, s, n);
    if n > 0 {
        assert(t[n - 1] == s.last());
    }
}

proof fn lemma_grouped_prefix(
    a: Seq<(Seq<char>, Seq<char>)>,
    b: Seq<(Seq<char>, Seq<char>)>,
    n: int,
)
    requires
        0 <= n <= a.len(),
        n <= b.len(),
        forall|i: int| 0 <= i < n ==> #[trigger] a[i] == b[i],
    ensures
        grouped(a, n) == grouped(b, n),
    decreases n,
{
    if n > 0 {
        lemma_grouped_prefix(a, b, n - 1);
        assert(a[n - 1] == b[n - 1]);
        if n > 1 {
            assert(a[n - 2] == b[n - 2]);
        }
    }
}

/// The resource of a request without a query, and of one with one pair: the name
/// stands there in lower case, the value as it is.
pub proof fn one_pair_is_signed_with_its_value_as_it_is(
    account: Seq<char>,
    path: Seq<char>,
    k: Seq<char>,
    v: Seq<char>,
)
    ensures
        canonical_resource(account, path, Seq::empty()) == seq!['/'] + account + path,
        canonical_resource(account, path, seq![(k, v)]) == seq!['/'] + account + path + seq!['\n']
            + lowercase(k) + seq![':'] + v,
{
    reveal_strlit("/");
    assert("/"@ =~= seq!['/']);
    let none = Seq::<(Seq<char>, Seq<char>)>::empty();
    let one = seq![(lowercase(k), v)];
    assert(lower_names(none) =~= none);
    assert(by_name(none) =~= none);
    assert(canonical_resource(account, path, none) =~= seq!['/'] + account + path);
    assert(lower_names(seq![(k, v)]) =~= one);
    assert(one.drop_last() =~= none);
    assert(by_name(one) =~= one);
    assert(none.push((lowercase(k), v)) =~= one);
    a_signed_pair_stands_on_its_line(none, lowercase(k), v);
    assert(canonical_resource(account, path, seq![(k, v)]) =~= seq!['/'] + account + path
        + seq!['\n'] + lowercase(k) + seq![':'] + v);
}

proof fn lemma_two_sorted(a: (Seq<char>, Seq<char>), b: (Seq<char>, Seq<char>))
    ensures
        before(b.0, a.0) ==> by_name(seq![a, b]) == seq![b, a],
        !before(b.0, a.0) ==> by_name(seq![a, b]) == seq![a, b],
{
    let none = Seq::<(Seq<char>, Seq<char>)>::empty();
    assert(seq![a].drop_last() =~= none);
    assert(by_name(none) =~= none);
    assert(by_name(seq![a]) =~= seq![a]);
    assert(seq![a, b].drop_last() =~= seq![a]);
    reveal_with_fuel(place, 3);
    if before(b.0, a.0) {
        assert(by_name(seq![a, b]) =~= seq![b, a]);
    } else {
        assert(by_name(seq![a, b]) =~= seq![a, b]);
    }
}

/// The resource of a request with two pairs: the line of the smaller name first,
/// whichever came first; two values of one name in the order in which they came.
pub proof fn two_pairs_are_signed_in_the_order_of_their_names(
    account: Seq<char>,
    path: Seq<char>,
    k: Seq<char>,
    v: Seq<char>,
    l: Seq<char>,
    w: Seq<char>,
)
    ensures
        before(lowercase(k), lowercase(l)) ==> {
            &&& canonical_resource(account, path, seq![(k, v), (l, w)]) == canonical_resource(
                account,
                path,
                seq![(k, v)],
            ) + seq!['\n'] + lowercase(l) + seq![':'] + w
            &&& canonical_resource(account, path, seq![(l, w), (k, v)]) == canonical_resource(
                account,
                path,
                seq![(k, v)],
            ) + seq!['\n'] + lowercase(l) + seq![':'] + w
        },
        lowercase(k) == lowercase(l) ==> canonical_resource(account, path, seq![(k, v), (l, w)])
            == canonical_resource(account, path, seq![(k, v)]) + seq![','] + w,
{
    reveal_strlit("/");
    assert("/"@ =~= seq!['/']);
    let a = (lowercase(k), v);
    let b = (lowercase(l), w);
    one_pair_is_signed_with_its_value_as_it_is(account, path, k, v);
    assert(lower_names(seq![(k, v), (l, w)]) =~= seq![a, b]);
    assert(lower_names(seq![(l, w), (k, v)]) =~= seq![b, a]);
    lemma_two_sorted(a, b);
    lemma_two_sorted(b, a);
    let none = Seq::<(Seq<char>, Seq<char>)>::empty();
    assert(none.push(a) =~= seq![a]);
    assert(seq![a].push(b) =~= seq![a, b]);
    a_signed_pair_stands_on_its_line(none, a.0, v);
    a_signed_pair_stands_on_its_line(seq![a], b.0, w);
    lemma_before_common(a.0, a.0, a.0.len() as int, 0);
    if before(a.0, b.0) {
        lemma_before_asymmetric(a.0, b.0, 0);
        assert(canonical_resource(account, path, seq![(k, v), (l, w)]) =~= canonical_resource(
            account,
            path,
            seq![(k, v)],
        ) + seq!['\n'] + lowercase(l) + seq![':'] + w);
        assert(canonical_resource(account, path, seq![(l, w), (k, v)]) =~= canonical_resource(
            account,
            path,
            seq![(k, v)],
        ) + seq!['\n'] + lowercase(l) + seq![':'] + w);
    }
    if a.0 == b.0 {
        assert(canonical_resource(account, path, seq![(k, v), (l, w)]) =~= canonical_resource(
            account,
            path,
            seq![(k, v)],
        ) + seq![','] + w);
    }
}

/// Only the headers whose lower-case name begins with `x-ms-` are canonicalized;
/// any other leaves the canonicalized headers as they are.
pub proof fn other_headers_are_not_canonicalized(
    h: Seq<(Seq<char>, Seq<char>)>,
    name: Seq<char>,
    value: Seq<char>,
)
    requires
        !text::begins(lowercase(name), "x-ms-"@),
    ensures
        canonical_headers(h.push((name, value))) == canonical_headers(h),
{
    assert(h.push((name, value)).drop_last() =~= h);
}

/// One `x-ms-` header is canonicalized as its lower-case name, a colon and its
/// value without the white space around it; of two, the smaller name comes first,
/// on a line of its own.
pub proof fn storage_headers_are_canonicalized_by_name(
    k: Seq<char>,
    v: Seq<char>,
    l: Seq<char>,
    w: Seq<char>,
)
    requires
        text::begins(lowercase(k), "x-ms-"@),
        text::begins(lowercase(l), "x-ms-"@),
    ensures
        canonical_headers(Seq::empty()) == Seq::<char>::empty(),
        canonical_headers(seq![(k, v)]) == lowercase(k) + seq![':'] + text::trim(v),
        before(lowercase(k), lowercase(l)) ==> {
            &&& canonical_headers(seq![(k, v), (l, w)]) == canonical_headers(seq![(k, v)])
                + seq!['\n'] + canonical_headers(seq![(l, w)])
            &&& canonical_headers(seq![(l, w), (k, v)]) == canonical_headers(seq![(k, v)])
                + seq!['\n'] + canonical_headers(seq![(l, w)])
        },
{
    reveal_strlit("\n");
    reveal_strlit(":");
    assert("\n"@ =~= seq!['\n']);
    assert(":"@ =~= seq![':']);
    let none = Seq::<(Seq<char>, Seq<char>)>::empty();
    let a = (lowercase(k), text::trim(v));
    let b = (lowercase(l), text::trim(w));
    assert(by_name(none) =~= none);
    assert(header_lines(none) =~= Seq::<Seq<char>>::empty());
    assert(canonical_headers(none) =~= Seq::<char>::empty());
    lemma_one_header(k, v);
    lemma_one_header(l, w);
    lemma_two_headers(k, v, l, w);
    lemma_two_headers(l, w, k, v);
    lemma_two_sorted(a, b);
    lemma_two_sorted(b, a);
    let lines = seq![a.0 + seq![':'] + a.1, b.0 + seq![':'] + b.1];
    assert(header_lines(seq![a, b]) =~= lines);
    text::joining_puts_the_separator_between(lines, seq!['\n']);
    assert(lines.drop_last() =~= seq![lines[0]]);
    text::joining_puts_the_separator_between(seq![lines[0]], seq!['\n']);
    if before(a.0, b.0) {
        lemma_before_asymmetric(a.0, b.0, 0);
    }
}

proof fn lemma_one_header(k: Seq<char>, v: Seq<char>)
    requires
        text::begins(lowercase(k), "x-ms-"@),
    ensures
        ms_headers(seq![(k, v)]) == seq![(lowercase(k), text::trim(v))],
        canonical_headers(seq![(k, v)]) == lowercase(k) + seq![':'] + text::trim(v),
{
    reveal_strlit(":");
    assert(":"@ =~= seq![':']);
    let none = Seq::<(Seq<char>, Seq<char>)>::empty();
    let a = (lowercase(k), text::trim(v));
    assert(seq![(k, v)].drop_last() =~= none);
    assert(ms_headers(none) =~= none);
    assert(ms_headers(seq![(k, v)]) =~= seq![a]);
    assert(seq![a].drop_last() =~= none);
    assert(by_name(none) =~= none);
    assert(by_name(seq![a]) =~= seq![a]);
    assert(header_lines(seq![a]) =~= seq![a.0 + seq![':'] + a.1]);
    text::joining_puts_the_separator_between(header_lines(seq![a]), "\n"@);
}

proof fn lemma_two_headers(k: Seq<char>, v: Seq<char>, l: Seq<char>, w: Seq<char>)
    requires
        text::begins(lowercase(k), "x-ms-"@),
        text::begins(lowercase(l), "x-ms-"@),
    ensures
        ms_headers(seq![(k, v), (l, w)]) == seq![
            (lowercase(k), text::trim(v)),
            (lowercase(l), text::trim(w)),
        ],
{
    lemma_one_header(k, v);
    assert(seq![(k, v), (l, w)].drop_last() =~= seq![(k, v)]);
    assert(ms_headers(seq![(k, v), (l, w)]) =~= seq![
        (lowercase(k), text::trim(v)),
        (lowercase(l), text::trim(w)),
    ]);
}

/// The text to sign, line by line.
pub proof fn a_signature_covers_fourteen_lines(
    account: Seq<char>,
    method: Seq<char>,
    h: Seq<(Seq<char>, Seq<char>)>,
    path: Seq<char>,
    query: Seq<(Seq<char>, Seq<char>)>,
)
    ensures
        string_to_sign(account, method, h, path, query) == uppercase(method) + seq!['\n'] + header(
            h,
            "content-encoding"@,
        ) + seq!['\n'] + header(h, "content-language"@) + seq!['\n'] + signed_length(h) + seq!['\n']
            + header(h, "content-md5"@) + seq!['\n'] + header(h, "content-type"@) + seq!['\n']
            + header(h, "date"@) + seq!['\n'] + header(h, "if-modified-since"@) + seq!['\n']
            + header(h, "if-match"@) + seq!['\n'] + header(h, "if-none-match"@) + seq!['\n']
            + header(h, "if-unmodified-since"@) + seq!['\n'] + header(h, "range"@) + seq!['\n']
            + canonical_headers(h) + seq!['\n'] + canonical_resource(account, path, query),
{
    reveal_strlit("\n");
    assert("\n"@ =~= seq!['\n']);
    reveal_with_fuel(text::join_upto, 15);
}

/// A content length is signed as it stands in the headers, except that a length of
/// zero is signed as nothing; a header that was set twice counts with its last
/// value, and one that was not set is empty.
pub proof fn a_header_is_signed_with_its_last_value(
    h: Seq<(Seq<char>, Seq<char>)>,
    name: Seq<char>,
    value: Seq<char>,
    other: Seq<char>,
)
    ensures
        header(Seq::empty(), name) == Seq::<char>::empty(),
        header(h.push((name, value)), name) == value,
        other != name ==> header(h.push((name, value)), other) == header(h, other),
        signed_length(h.push(("content-length"@, "0"@))) == Seq::<char>::empty(),
        value != "0"@ ==> signed_length(h.push(("content-length"@, value))) == value,
        signed_length(Seq::empty()) == Seq::<char>::empty(),
{
    table::the_last_setting_of_a_name_counts(h, name, value, other);
    table::the_last_setting_of_a_name_counts(h, "content-length"@, value, other);
    table::the_last_setting_of_a_name_counts(h, "content-length"@, "0"@, other);
    reveal_strlit("0");
    assert("0"@.len() == 1);
}

/// An authorization begins with `SharedKey`, the account and a colon; behind that
/// stands the base64 text of the HMAC of the signed text under the key.
pub proof fn an_authorization_is_the_mac_of_what_was_signed(
    account: Seq<char>,
    key: Seq<u8>,
    signed: Seq<char>,
)
    ensures
        text::begins(authorization(account, key, signed), "SharedKey "@ + account + seq![':']),
        authorization(account, key, signed).skip(11 + account.len() as int) == base64_text(
            hmac_sha256(vstd::utf8::encode_utf8(signed), key),
        ),
{
    reveal_strlit(":");
    reveal_strlit("SharedKey ");
    assert(":"@ =~= seq![':']);
    text::a_beginning_is_what_stands_in_front(
        "SharedKey "@ + account + ":"@,
        base64_text(hmac_sha256(vstd::utf8::encode_utf8(signed), key)),
    );
}

/// Dating a request keeps what it holds: a date that is there stays, any other
/// header stays, and a request without a date gets that of the time.
pub proof fn dating_adds_a_date_where_there_is_none(
    h: Seq<(Seq<char>, Seq<char>)>,
    now: int,
    name: Seq<char>,
)
    ensures
        table::value(table::settings(h), "x-ms-date"@) is Some ==> with_date(h, now) == h,
        table::value(table::settings(h), "x-ms-date"@) is None && formatted_time(
            now,
            "[weekday repr:short], [day] [month repr:short] [year] [hour]:[minute]:[second] GMT"@,
        ) is Some ==> table::value(table::settings(with_date(h, now)), "x-ms-date"@)
            == formatted_time(
            now,
            "[weekday repr:short], [day] [month repr:short] [year] [hour]:[minute]:[second] GMT"@,
        ),
        name != "x-ms-date"@ ==> table::value(table::settings(with_date(h, now)), name)
            == table::value(table::settings(h), name),
        with_date(with_date(h, now), now) == with_date(h, now),
{
    if let Some(d) = formatted_time(
        now,
        "[weekday repr:short], [day] [month repr:short] [year] [hour]:[minute]:[second] GMT"@,
    ) {
        table::the_last_setting_of_a_name_counts(h, "x-ms-date"@, d, name);
    }
}

/// A SAS adds those of its pairs whose names the query lacks, all of them and no
/// others.
pub proof fn a_sas_adds_what_the_query_lacks(
    s: Seq<(Seq<char>, Seq<char>)>,
    existing: Seq<(Seq<char>, Seq<char>)>,
    p: (Seq<char>, Seq<char>),
)
    ensures
        missing_pairs(s, existing).contains(p) <==> s.contains(p) && table::value(
            table::settings(existing),
            p.0,
        ) is None,
        missing_pairs(s, Seq::empty()) == s,
{
    let keep = |q: (Seq<char>, Seq<char>)| !table::settings(existing).contains_key(q.0);
    let add = missing_pairs(s, existing);
    if add.contains(p) {
        let i = choose|i: int| 0 <= i < add.len() && add[i] == p;
        s.lemma_filter_pred(keep, i);
        s.lemma_filter_contains_rev(keep, p);
    }
    if s.contains(p) && table::value(table::settings(existing), p.0) is None {
        let i = choose|i: int| 0 <= i < s.len() && s[i] == p;
        s.lemma_filter_contains(keep, i);
    }
    lemma_nothing_is_missing(s);
}

proof fn lemma_nothing_is_missing(s: Seq<(Seq<char>, Seq<char>)>)
    ensures
        missing_pairs(s, Seq::empty()) == s,
    decreases s.len(),
{
    reveal(Seq::filter);
    if s.len() > 0 {
        lemma_nothing_is_missing(s.drop_last());
        assert(s.drop_last().push(s.last()) =~= s);
    }
}

/// A SAS token may be written with a question mark in front or without.
pub proof fn a_sas_token_may_begin_with_a_question_mark(token: Seq<char>)
    ensures
        sas_url(seq!['?'] + token) == sas_url(token),
        token.len() == 0 || token[0] != '?' ==> sas_url(token) == "https://x/?"@ + token,
{
    assert((seq!['?'] + token).skip(1) =~= token);
}

/// The identities of Entra are those whose requests carry a token: not a key, not
/// a SAS.
pub proof fn keys_and_signatures_are_no_tokens(auth: AuthView)
    ensures
        auth is SharedKey ==> !entra(auth),
        auth is Sas ==> !entra(auth),
        auth is Msi ==> entra(auth),
        auth is WorkloadIdentity ==> entra(auth),
        auth is ServicePrincipal ==> entra(auth),
{
}

/// A container's URL has exactly one slash between the service and the container.
pub proof fn a_container_stands_below_its_service(service_url: Seq<char>, container: Seq<char>)
    ensures
        service_url.len() == 0 || service_url.last() != '/' ==> container_url(service_url, container)
            == service_url + seq!['/'] + container,
        container_url(service_url + seq!['/'], container) == container_url(service_url, container),
{
    reveal_strlit("/");
    assert("/"@ =~= seq!['/']);
    assert((service_url + seq!['/']).drop_last() =~= service_url);
}

/// A client with a key signs in its account's name with that key, a client with a
/// SAS is no signer, and any other asks the service with a token.
pub proof fn a_client_is_made_for_its_auth(
    service_url: Seq<char>,
    container: Seq<char>,
    auth: AuthView,
    p: ClientPlan,
)
    requires
        client_planned(service_url, container, auth, Ok(p)),
    ensures
        auth is SharedKey <==> p is SharedKey,
        auth is Sas <==> p is Sas,
        entra(auth) <==> p is Service,
        p matches ClientPlan::SharedKey { container_url: u, policy } ==> {
            &&& auth->account_name == policy.account()
            &&& base64_bytes(auth->account_key) == Some(policy.key())
            &&& u@ == container_url(service_url, container)
        },
        p matches ClientPlan::Sas { container_url: u, .. } ==> u@ == container_url(
            service_url,
            container,
        ),
        p matches ClientPlan::Service { service_url: u, container: c } ==> u@ == service_url && c@
            == container,
{
}

/// A service whose URL is a URL is reached with any token; with a key or a SAS,
/// where the container's URL is one and the key is base64.
pub proof fn a_client_is_refused_for_a_reason_only(
    service_url: Seq<char>,
    container: Seq<char>,
    auth: AuthView,
    r: Result<ClientPlan, AuthError>,
)
    requires
        client_planned(service_url, container, auth, r),
    ensures
        r matches Err(AuthError::BadServiceUrl) ==> bloburl::url_parts(service_url) is None,
        bloburl::url_parts(service_url) is None ==> r matches Err(AuthError::BadServiceUrl),
        r matches Err(AuthError::BadAccountKey) ==> auth is SharedKey && base64_bytes(
            auth->account_key,
        ) is None,
        r matches Err(AuthError::BadContainerUrl) ==> (auth is SharedKey || auth is Sas)
            && bloburl::url_parts(container_url(service_url, container)) is None,
        !(r matches Err(AuthError::NotConfigured)),
        bloburl::url_parts(service_url) is Some && entra(auth) ==> r is Ok,
{
}

} // verus!
