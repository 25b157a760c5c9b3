//! Full Azure blob URLs and their component parts.
//!
//! A single blob URL such as
//! `https://acct.blob.core.windows.net/container/path/to/blob.vhd` (optionally
//! carrying a `?snapshot=` timestamp and/or a SAS query) selects the blob of the
//! single-device commands (`--blob-url`) and the golden image of a CSI volume
//! (`templateBlobUrl`).
//!
//! Both Azure subdomain hosts (`<account>.blob.core.windows.net`) and path-style
//! hosts (`host:port/<account>/...`, as Azurite serves them) are supported.

use vstd::prelude::*;

use crate::table;
use crate::text;

verus! {

// ── URLs ────────────────────────────────────────────────────────────────────

/// The components of a URL that the library reads.
pub struct UrlView {
    pub scheme: Seq<char>,
    pub host: Option<Seq<char>>,
    pub port: Option<u16>,
    pub path: Seq<char>,
    pub query: Seq<(Seq<char>, Seq<char>)>,
}

/// The components of a URL as plain values: the scheme, the host, the port when
/// it is not the scheme's own, the path and the decoded query pairs in order.
#[derive(Debug)]
pub struct UrlParts {
    pub scheme: String,
    pub host: Option<String>,
    pub port: Option<u16>,
    pub path: String,
    pub query: Vec<(String, String)>,
}

impl View for UrlParts {
    type V = UrlView;

    open spec fn view(&self) -> UrlView {
        UrlView {
            scheme: self.scheme@,
            host: text::opt_view(self.host),
            port: self.port,
            path: self.path@,
            query: table::pairs(self.query@),
        }
    }
}

/// What `Url::parse` makes of a text: the components of the URL, or nothing when
/// the text is no URL.
pub uninterp spec fn url_parts(url: Seq<char>) -> Option<UrlView>;

/// The query string that spells a list of pairs, as the `form_urlencoded`
/// serialiser behind `Url::query_pairs_mut` writes it.
pub uninterp spec fn encoded_query(pairs: Seq<(Seq<char>, Seq<char>)>) -> Option<Seq<char>>;

/// The view of an optional list of components.
pub open spec fn parts_view(p: Option<UrlParts>) -> Option<UrlView> {
    match p {
        Some(u) => Some(u@),
        None => None,
    }
}

/// `azure_core::http::Url::parse`, handing out the components of the URL. What
/// the components of a text are is not stated here, only that they depend on the
/// text alone.
#[verifier::external_body]
pub(crate) fn split_url(url: &str) -> (r: Option<UrlParts>)
    ensures
        parts_view(r) == url_parts(url@),
{
    let u = azure_core::http::Url::parse(url).ok()?;
    Some(UrlParts {
        scheme: u.scheme().to_string(),
        host: u.host_str().map(|h| h.to_string()),
        port: u.port(),
        path: u.path().to_string(),
        query: u.query_pairs().map(|(k, v)| (k.into_owned(), v.into_owned())).collect(),
    })
}

/// `Url::query_pairs_mut().extend_pairs` on a URL without a query, followed by
/// `Url::query`: the pairs as one query string, which depends on the pairs alone. There
/// always is one: the first of the two calls starts a query.
#[verifier::external_body]
fn encode_pairs(pairs: &Vec<(String, String)>) -> (r: Option<String>)
    ensures
        text::opt_view(r) == encoded_query(table::pairs(pairs@)),
        r is Some,
{
    let mut u = azure_core::http::Url::parse("https://x/").unwrap();
    u.query_pairs_mut().extend_pairs(pairs);
    u.query().map(|q| q.to_string())
}

// ── IP literals and hosts ───────────────────────────────────────────────────

/// A decimal octet: `0` to `255` without a leading zero.
pub open spec fn octet(s: Seq<char>) -> bool {
    &&& 1 <= s.len() <= 3
    &&& text::all_digits(s)
    &&& s.len() > 1 ==> s[0] != '0'
    &&& text::digits_value(s) <= 255
}

/// A dotted quad.
pub open spec fn ipv4(s: Seq<char>) -> bool {
    let p = text::split(s, '.');
    p.len() == 4 && octet(p[0]) && octet(p[1]) && octet(p[2]) && octet(p[3])
}

/// An ASCII hexadecimal digit.
pub open spec fn hex_digit(c: char) -> bool {
    text::is_digit(c) || ('a' <= c && c <= 'f') || ('A' <= c && c <= 'F')
}

/// One to four hexadecimal digits.
pub open spec fn hex_group(s: Seq<char>) -> bool {
    1 <= s.len() <= 4 && forall|i: int| 0 <= i < s.len() ==> hex_digit(#[trigger] s[i])
}

/// Groups `i..` of a colon-separated list are hexadecimal, but for a last one
/// that may be a dotted quad where `quad` allows it.
pub open spec fn groups_ok(p: Seq<Seq<char>>, quad: bool) -> bool {
    forall|i: int|
        0 <= i < p.len() ==> (hex_group(#[trigger] p[i]) || (quad && i == p.len() - 1 && ipv4(p[i])))
}

/// How many sixteen-bit groups a colon-separated list stands for.
pub open spec fn group_count(p: Seq<Seq<char>>) -> int {
    if p.len() > 0 && ipv4(p.last()) {
        p.len() as int + 1
    } else {
        p.len() as int
    }
}

/// One side of a `::`: a list of groups, none for an empty text.
pub open spec fn side(s: Seq<char>) -> Seq<Seq<char>> {
    if s.len() == 0 {
        Seq::empty()
    } else {
        text::split(s, ':')
    }
}

/// An IPv6 address: eight groups, or fewer round one `::`.
pub open spec fn ipv6(s: Seq<char>) -> bool {
    match text::find_text(s, seq![':', ':'], 0) {
        None => {
            let p = text::split(s, ':');
            groups_ok(p, true) && group_count(p) == 8
        },
        Some(k) => {
            let head = side(s.take(k));
            let tail = side(s.skip(k + 2));
            &&& groups_ok(head, false)
            &&& groups_ok(tail, true)
            &&& head.len() + group_count(tail) <= 7
        },
    }
}

/// A host that names no storage account: an IP literal, bare or in brackets.
pub open spec fn ip_literal(host: Seq<char>) -> bool {
    ||| ipv4(host)
    ||| ipv6(host)
    ||| (host.len() > 0 && host[0] == '[' && host.last() == ']')
}

/// A host whose first label is the storage account.
pub open spec fn subdomain_host(host: Seq<char>) -> bool {
    !ip_literal(host) && text::has_char(host, '.')
}

fn octet_of(s: &String) -> (r: bool)
    ensures
        r == octet(s@),
{
    let v = text::chars_of(s.as_str());
    if v.len() < 1 || v.len() > 3 {
        return false;
    }
    let mut n: u32 = 0;
    let mut i: usize = 0;
    while i < v.len()
        invariant
            v@ == s@,
            1 <= v@.len() <= 3,
            i <= v@.len(),
            forall|j: int| 0 <= j < i ==> text::is_digit(#[trigger] v@[j]),
            n == text::digits_value(v@.take(i as int)),
            i == 0 ==> n == 0,
            i == 1 ==> n <= 9,
            i == 2 ==> n <= 99,
            i == 3 ==> n <= 999,
        decreases v@.len() - i,
    {
        if !text::is_digit_char(v[i]) {
            assert(!text::is_digit(s@[i as int]));
            return false;
        }
        proof {
            let part = v@.take(i + 1);
            assert(part.drop_last() == v@.take(i as int));
            assert(part.last() == v@[i as int]);
        }
        n = n * 10 + (v[i] as u32 - 48);
        i = i + 1;
    }
    assert(v@.take(v@.len() as int) == s@);
    if v.len() > 1 && v[0] == '0' {
        return false;
    }
    n <= 255
}

fn ipv4_of(s: &str) -> (r: bool)
    ensures
        r == ipv4(s@),
{
    let p = text::split_at(s, '.');
    proof {
        let q = text::split(s@, '.');
        assert(text::views(p@).len() == p@.len());
        assert forall|i: int| 0 <= i < p@.len() implies #[trigger] q[i] == p@[i]@ by {
            assert(text::views(p@)[i] == p@[i]@);
        }
    }
    p.len() == 4 && octet_of(&p[0]) && octet_of(&p[1]) && octet_of(&p[2]) && octet_of(&p[3])
}

fn hex_group_of(s: &str) -> (r: bool)
    ensures
        r == hex_group(s@),
{
    let v = text::chars_of(s);
    if v.len() < 1 || v.len() > 4 {
        return false;
    }
    let mut i: usize = 0;
    while i < v.len()
        invariant
            v@ == s@,
            i <= v@.len(),
            forall|j: int| 0 <= j < i ==> hex_digit(#[trigger] v@[j]),
        decreases v@.len() - i,
    {
        let c = v[i];
        if !(text::is_digit_char(c) || ('a' <= c && c <= 'f') || ('A' <= c && c <= 'F')) {
            assert(!hex_digit(s@[i as int]));
            return false;
        }
        i = i + 1;
    }
    true
}

fn groups_of(p: &Vec<String>, quad: bool) -> (r: bool)
    ensures
        r == groups_ok(text::views(p@), quad),
{
    let ghost q = text::views(p@);
    let mut i: usize = 0;
    while i < p.len()
        invariant
            q == text::views(p@),
            q.len() == p@.len(),
            i <= p@.len(),
            forall|j: int|
                0 <= j < i ==> (hex_group(#[trigger] q[j]) || (quad && j == q.len() - 1 && ipv4(q[j]))),
        decreases p@.len() - i,
    {
        assert(q[i as int] == p@[i as int]@);
        let fits = hex_group_of(p[i].as_str()) || (quad && i == p.len() - 1 && ipv4_of(p[i].as_str()));
        if !fits {
            return false;
        }
        i = i + 1;
    }
    true
}

fn count_of(p: &Vec<String>) -> (r: u128)
    ensures
        r == group_count(text::views(p@)),
        r <= usize::MAX + 1,
{
    let ghost q = text::views(p@);
    let n: usize = p.len();
    if n > 0 {
        assert(q.last() == p@[n - 1]@);
        if ipv4_of(p[n - 1].as_str()) {
            return n as u128 + 1;
        }
    }
    n as u128
}

fn side_of(s: &String) -> (r: Vec<String>)
    ensures
        text::views(r@) == side(s@),
{
    if s.as_str().is_empty() {
        let r: Vec<String> = Vec::new();
        assert(text::views(r@) == Seq::<Seq<char>>::empty());
        return r;
    }
    text::split_at(s.as_str(), ':')
}

fn ipv6_of(s: &str) -> (r: bool)
    ensures
        r == ipv6(s@),
{
    let v = text::chars_of(s);
    let mut colons: Vec<char> = Vec::new();
    colons.push(':');
    colons.push(':');
    assert(colons@ == seq![':', ':']);
    proof {
        text::lemma_find_text(s@, seq![':', ':'], 0);
    }
    match text::find_text_at(&v, &colons, 0) {
        None => {
            let p = text::split_at(s, ':');
            groups_of(&p, true) && count_of(&p) == 8
        },
        Some(k) => {
            assert(text::at(s@, seq![':', ':'], k as int));
            assert(v.len() == s@.len());
            let head_text = text::slice_of(&v, 0, k);
            let tail_text = text::slice_of(&v, k + 2, v.len());
            proof {
                assert(s@.subrange(0, k as int) == s@.take(k as int));
                assert(s@.subrange(k + 2, s@.len() as int) == s@.skip(k + 2));
            }
            let head = side_of(&head_text);
            let tail = side_of(&tail_text);
            groups_of(&head, false) && groups_of(&tail, true) && head.len() as u128 + count_of(&tail) <= 7
        },
    }
}

/// Whether `host` is subdomain / *production* style, that is, whether the
/// storage account is the first host label (`<account>.blob.core.windows.net`,
/// or a custom `<account>.host...`).
///
/// Path-style hosts, where the account is instead the first segment of the URL's
/// path, are IP literals and single-label hosts (`127.0.0.1`, `azurite`).
pub fn is_subdomain_host(host: &str) -> (r: bool)
    ensures
        r == subdomain_host(host@),
{
    let v = text::chars_of(host);
    let n: usize = v.len();
    let bracketed = n > 0 && v[0] == '[' && v[n - 1] == ']';
    let is_ip = ipv4_of(host) || ipv6_of(host) || bracketed;
    !is_ip && text::contains_char(host, '.')
}

// ── Blob URLs ───────────────────────────────────────────────────────────────

/// The components of a blob URL.
pub struct RefView {
    pub service_url: Seq<char>,
    pub account: Seq<char>,
    pub container: Seq<char>,
    pub blob: Seq<char>,
    pub snapshot: Option<Seq<char>>,
    pub sas: Option<Seq<char>>,
}

/// A parsed Azure blob URL (`--blob-url`, or a `templateBlobUrl`).
#[derive(Debug)]
pub struct TemplateBlobRef {
    /// Blob *service* URL: `https://acct.blob.core.windows.net` for a subdomain
    /// host, `http://host:port/account` for a path-style one.
    pub service_url: String,
    /// Storage account name.
    pub account: String,
    /// Container name.
    pub container: String,
    /// Blob name (may contain `/`).
    pub blob: String,
    /// The `snapshot=` timestamp of the URL, if any.
    pub snapshot: Option<String>,
    /// The SAS query string (everything but `snapshot`), present only when the
    /// URL carries a `sig=` signature.
    pub sas: Option<String>,
}

impl BlobUrlError {
    /// What is wrong with `url`, in words.
    pub open spec fn words(self, url: Seq<char>) -> Seq<char> {
        match self {
            BlobUrlError::NotAUrl => "parse blob URL: "@ + url,
            BlobUrlError::NoHost => "blob URL has no host"@,
            BlobUrlError::MissingBlobPath => "blob URL missing container/blob path: "@ + url,
            BlobUrlError::MissingAccountPath => "blob URL missing account/container/blob path: "@
                + url,
        }
    }

    /// What is wrong with `url`, in words.
    pub fn message(self, url: &str) -> (r: String)
        ensures
            r@ == self.words(url@),
    {
        match self {
            BlobUrlError::NotAUrl => text::concat("parse blob URL: ", url),
            BlobUrlError::NoHost => "blob URL has no host".to_owned(),
            BlobUrlError::MissingBlobPath => {
                text::concat("blob URL missing container/blob path: ", url)
            },
            BlobUrlError::MissingAccountPath => {
                text::concat("blob URL missing account/container/blob path: ", url)
            },
        }
    }
}

impl View for TemplateBlobRef {
    type V = RefView;

    open spec fn view(&self) -> RefView {
        RefView {
            service_url: self.service_url@,
            account: self.account@,
            container: self.container@,
            blob: self.blob@,
            snapshot: text::opt_view(self.snapshot),
            sas: text::opt_view(self.sas),
        }
    }
}

/// Why a text is no blob URL.
#[derive(Clone, Copy, Debug, PartialEq, Eq, Structural)]
pub enum BlobUrlError {
    /// The text is no URL at all.
    NotAUrl,
    /// The URL has no host.
    NoHost,
    /// The host names the account, but the path lacks a container or a blob.
    MissingBlobPath,
    /// The path lacks an account, a container or a blob.
    MissingAccountPath,
}

/// The non-empty segments of an absolute path; none of any other path.
pub open spec fn segments(path: Seq<char>) -> Seq<Seq<char>> {
    if path.len() > 0 && path[0] == '/' {
        text::parts(path.skip(1), '/')
    } else {
        Seq::empty()
    }
}

/// The query without its snapshot timestamps.
pub open spec fn sas_pairs(query: Seq<(Seq<char>, Seq<char>)>) -> Seq<(Seq<char>, Seq<char>)> {
    query.filter(|p: (Seq<char>, Seq<char>)| p.0 != "snapshot"@)
}

/// The SAS query string of a URL: present when the query has a `sig`.
pub open spec fn sas_of(query: Seq<(Seq<char>, Seq<char>)>) -> Option<Seq<char>> {
    if table::settings(query).contains_key("sig"@) {
        encoded_query(sas_pairs(query))
    } else {
        None
    }
}

/// Scheme, host and explicit port.
pub open spec fn origin(scheme: Seq<char>, host: Seq<char>, port: Option<u16>) -> Seq<char> {
    scheme + "://"@ + host + (match port {
        Some(p) => seq![':'] + text::decimal(p as nat),
        None => Seq::empty(),
    })
}

/// The blob that a URL selects, or why it selects none.
pub open spec fn blob_ref(u: UrlView) -> Result<RefView, BlobUrlError> {
    match u.host {
        None => Err(BlobUrlError::NoHost),
        Some(host) => {
            let seg = segments(u.path);
            let snapshot = table::value(table::settings(u.query), "snapshot"@);
            let sas = sas_of(u.query);
            let base = origin(u.scheme, host, u.port);
            if subdomain_host(host) {
                if seg.len() < 2 {
                    Err(BlobUrlError::MissingBlobPath)
                } else {
                    Ok(
                        RefView {
                            service_url: base,
                            account: text::split(host, '.')[0],
                            container: seg[0],
                            blob: text::join(seg.skip(1), "/"@),
                            snapshot,
                            sas,
                        },
                    )
                }
            } else {
                if seg.len() < 3 {
                    Err(BlobUrlError::MissingAccountPath)
                } else {
                    Ok(
                        RefView {
                            service_url: base + "/"@ + seg[0],
                            account: seg[0],
                            container: seg[1],
                            blob: text::join(seg.skip(2), "/"@),
                            snapshot,
                            sas,
                        },
                    )
                }
            }
        },
    }
}

/// A result over views.
pub open spec fn ref_view(r: Result<TemplateBlobRef, BlobUrlError>) -> Result<RefView, BlobUrlError> {
    match r {
        Ok(x) => Ok(x@),
        Err(e) => Err(e),
    }
}

/// The non-empty segments of `path`.
pub fn path_segments(path: &str) -> (r: Vec<String>)
    ensures
        text::views(r@) == segments(path@),
{
    let v = text::chars_of(path);
    if v.len() == 0 || v[0] != '/' {
        let r: Vec<String> = Vec::new();
        assert(text::views(r@) == Seq::<Seq<char>>::empty());
        return r;
    }
    let rest = text::slice_of(&v, 1, v.len());
    assert(rest@ == path@.skip(1));
    text::parts_of(rest.as_str(), '/')
}

/// The pairs of a query other than its snapshot timestamps.
fn without_snapshot(query: &Vec<(String, String)>) -> (r: Vec<(String, String)>)
    ensures
        table::pairs(r@) == sas_pairs(table::pairs(query@)),
{
    let ghost q = table::pairs(query@);
    let ghost keep = |p: (Seq<char>, Seq<char>)| p.0 != "snapshot"@;
    let mut r: Vec<(String, String)> = Vec::new();
    assert(table::pairs(r@) == Seq::<(Seq<char>, Seq<char>)>::empty());
    let mut i: usize = 0;
    assert(q.take(0).filter(keep) == Seq::<(Seq<char>, Seq<char>)>::empty()) by {
        reveal(Seq::filter);
    }
    while i < query.len()
        invariant
            i <= query@.len(),
            q == table::pairs(query@),
            q.len() == query@.len(),
            keep == |p: (Seq<char>, Seq<char>)| p.0 != "snapshot"@,
            table::pairs(r@) == q.take(i as int).filter(keep),
        decreases query@.len() - i,
    {
        proof {
            assert(q.take(i + 1).drop_last() == q.take(i as int));
            assert(q.take(i + 1).last() == q[i as int]);
            assert(q[i as int] == (query@[i as int].0@, query@[i as int].1@));
            reveal(Seq::filter);
        }
        if !text::same(query[i].0.as_str(), "snapshot") {
            let ghost before = r@;
            r.push((query[i].0.clone(), query[i].1.clone()));
            assert(table::pairs(r@) == table::pairs(before).push(q[i as int]));
        }
        i = i + 1;
    }
    assert(q.take(q.len() as int) == q);
    r
}

/// A copy of a list of pairs.
pub fn clone_pairs(v: &Vec<(String, String)>) -> (r: Vec<(String, String)>)
    ensures
        table::pairs(r@) == table::pairs(v@),
{
    let mut r: Vec<(String, String)> = Vec::new();
    let mut i: usize = 0;
    assert(table::pairs(r@) == table::pairs(v@).take(0));
    while i < v.len()
        invariant
            i <= v@.len(),
            table::pairs(r@) == table::pairs(v@).take(i as int),
        decreases v@.len() - i,
    {
        let ghost before = r@;
        r.push((v[i].0.clone(), v[i].1.clone()));
        proof {
            let q = table::pairs(v@);
            assert(table::pairs(r@) == table::pairs(before).push(q[i as int]));
            assert(q.take(i + 1) == q.take(i as int).push(q[i as int]));
        }
        i = i + 1;
    }
    assert(table::pairs(v@).take(v@.len() as int) == table::pairs(v@));
    r
}

/// The blob that a URL, given by its components, selects.
pub fn blob_ref_of(u: &UrlParts) -> (r: Result<TemplateBlobRef, BlobUrlError>)
    ensures
        ref_view(r) == blob_ref(u@),
        r matches Ok(b) ==> b.container@.len() > 0 && b.blob@.len() > 0,
        r matches Ok(b) ==> b.sas is Some == table::settings(u@.query).contains_key("sig"@),
{
    let host = match &u.host {
        Some(h) => h.clone(),
        None => {
            return Err(BlobUrlError::NoHost);
        },
    };
    let settings = table::Table::of(clone_pairs(&u.query));
    let snapshot = settings.get("snapshot");
    let has_sig = settings.get("sig").is_some();
    let sas = if has_sig {
        encode_pairs(&without_snapshot(&u.query))
    } else {
        None
    };
    let seg = path_segments(u.path.as_str());
    proof {
        lemma_segments(u.path@);
        assert(text::views(seg@).len() == seg@.len());
        assert forall|i: int| 0 <= i < seg@.len() implies segments(u.path@)[i] == (
        #[trigger] seg@[i])@ && seg@[i]@.len() > 0 by {
            assert(text::views(seg@)[i] == seg@[i]@);
        }
    }
    let mut base = text::concat3(u.scheme.as_str(), "://", host.as_str());
    match u.port {
        Some(p) => {
            base.push(':');
            base.append(text::decimal_of(p as u64).as_str());
            assert(base@ == origin(u.scheme@, host@, u.port));
        },
        None => {
            assert(base@ == origin(u.scheme@, host@, u.port));
        },
    }
    if is_subdomain_host(host.as_str()) {
        let labels = text::split_at(host.as_str(), '.');
        proof {
            text::lemma_find_from(host@, '.', 0);
            assert(text::views(labels@).len() == labels@.len());
            assert(text::views(labels@)[0] == labels@[0]@);
        }
        if seg.len() < 2 {
            return Err(BlobUrlError::MissingBlobPath);
        }
        let blob = text::join_all(&seg, 1, "/");
        proof {
            assert(text::views(seg@).skip(1) == text::views(seg@.skip(1)));
            lemma_join_nonempty(segments(u.path@).skip(1), "/"@);
        }
        Ok(
            TemplateBlobRef {
                service_url: base,
                account: labels[0].clone(),
                container: seg[0].clone(),
                blob,
                snapshot,
                sas,
            },
        )
    } else {
        if seg.len() < 3 {
            return Err(BlobUrlError::MissingAccountPath);
        }
        let blob = text::join_all(&seg, 2, "/");
        proof {
            assert(text::views(seg@).skip(2) == text::views(seg@.skip(2)));
            lemma_join_nonempty(segments(u.path@).skip(2), "/"@);
        }
        Ok(
            TemplateBlobRef {
                service_url: text::concat3(base.as_str(), "/", seg[0].as_str()),
                account: seg[0].clone(),
                container: seg[1].clone(),
                blob,
                snapshot,
                sas,
            },
        )
    }
}

/// Every segment is non-empty.
proof fn lemma_segments(path: Seq<char>)
    ensures
        forall|i: int| 0 <= i < segments(path).len() ==> (#[trigger] segments(path)[i]).len() > 0,
{
    if path.len() > 0 && path[0] == '/' {
        text::lemma_parts(path.skip(1), '/');
    }
}

/// Joining at least one text, the first of them non-empty, gives a non-empty
/// text.
proof fn lemma_join_nonempty(parts: Seq<Seq<char>>, sep: Seq<char>)
    requires
        parts.len() > 0,
        parts[0].len() > 0,
    ensures
        text::join(parts, sep).len() > 0,
{
    lemma_join_upto_nonempty(parts, sep, parts.len() as int);
}

proof fn lemma_join_upto_nonempty(parts: Seq<Seq<char>>, sep: Seq<char>, n: int)
    requires
        0 < n <= parts.len(),
        parts[0].len() > 0,
    ensures
        text::join_upto(parts, sep, n).len() > 0,
    decreases n,
{
    if n > 1 {
        lemma_join_upto_nonempty(parts, sep, n - 1);
    }
}

/// Parse a full Azure blob URL into its components.
///
/// Supports both Azure subdomain hosts (`<account>.blob.core.windows.net`) and
/// path-style hosts (`host:port/<account>/...`). Any `snapshot=` query is split
/// out; the remaining query (when it carries a `sig=`) is the SAS token.
pub fn parse_blob_url(url: &str) -> (r: Result<TemplateBlobRef, BlobUrlError>)
    ensures
        ref_view(r) == (match url_parts(url@) {
            Some(u) => blob_ref(u),
            None => Err(BlobUrlError::NotAUrl),
        }),
        r matches Ok(b) ==> b.container@.len() > 0 && b.blob@.len() > 0,
        r matches Ok(b) ==> b.sas is Some == table::settings(url_parts(url@)->0.query).contains_key(
            "sig"@,
        ),
{
    match split_url(url) {
        Some(u) => blob_ref_of(&u),
        None => Err(BlobUrlError::NotAUrl),
    }
}

// ── What a blob URL comes to ────────────────────────────────────────────────

/// An octet is the decimal writing of a number below 256.
pub proof fn an_octet_is_a_number_below_256(s: Seq<char>, n: nat)
    ensures
        octet(text::decimal(n)) <==> n < 256,
        octet(s) ==> text::digits_value(s) < 256 && s == text::decimal(text::digits_value(s)),
{
    text::lemma_decimal(n);
    if n < 256 {
        reveal_with_fuel(text::decimal, 4);
        if n >= 10 {
            assert(n / 10 > 0);
            assert(text::decimal(n)[0] == text::decimal(n / 10)[0]);
            if n >= 100 {
                assert(text::decimal(n / 10)[0] == text::decimal(n / 100)[0]);
                assert(n / 10 / 10 == n / 100);
            }
        }
    }
    if octet(s) {
        text::digits_are_the_writing_of_their_value(s);
    }
}

proof fn lemma_octet_is_free(n: nat, c: char)
    requires
        !text::is_digit(c),
    ensures
        !text::has_char(text::decimal(n), c),
{
    text::lemma_decimal(n);
    text::lemma_digits_free(text::decimal(n), c);
}

/// A dotted quad names no account: it is an address. So does a single label, and
/// anything in brackets.
pub proof fn an_address_names_no_account(a: nat, b: nat, c: nat, d: nat, host: Seq<char>)
    requires
        a < 256,
        b < 256,
        c < 256,
        d < 256,
    ensures
        ipv4(
            text::decimal(a) + seq!['.'] + text::decimal(b) + seq!['.'] + text::decimal(c) + seq!['.']
                + text::decimal(d),
        ),
        !subdomain_host(
            text::decimal(a) + seq!['.'] + text::decimal(b) + seq!['.'] + text::decimal(c) + seq!['.']
                + text::decimal(d),
        ),
        !text::has_char(host, '.') ==> !subdomain_host(host),
        !subdomain_host(seq!['['] + host + seq![']']),
{
    let parts = seq![text::decimal(a), text::decimal(b), text::decimal(c), text::decimal(d)];
    lemma_octet_is_free(a, '.');
    lemma_octet_is_free(b, '.');
    lemma_octet_is_free(c, '.');
    lemma_octet_is_free(d, '.');
    text::joining_is_undone_by_splitting(parts, '.');
    an_octet_is_a_number_below_256(host, a);
    an_octet_is_a_number_below_256(host, b);
    an_octet_is_a_number_below_256(host, c);
    an_octet_is_a_number_below_256(host, d);
    reveal_with_fuel(text::join_upto, 5);
    assert(text::join(parts, seq!['.']) =~= text::decimal(a) + seq!['.'] + text::decimal(b)
        + seq!['.'] + text::decimal(c) + seq!['.'] + text::decimal(d));
    let boxed = seq!['['] + host + seq![']'];
    assert(boxed[0] == '[');
    assert(boxed.last() == ']');
}

/// A quad has four octets: a name with any other number of labels is none.
pub proof fn a_quad_has_four_octets(host: Seq<char>)
    ensures
        ipv4(host) ==> text::split(host, '.').len() == 4,
        ipv4(host) ==> forall|i: int|
            0 <= i < 4 ==> (#[trigger] text::split(host, '.')[i]).len() > 0
                && text::digits_value(text::split(host, '.')[i]) < 256 && text::split(host, '.')[i]
                == text::decimal(text::digits_value(text::split(host, '.')[i])),
{
    if ipv4(host) {
        let p = text::split(host, '.');
        an_octet_is_a_number_below_256(p[0], 0);
        an_octet_is_a_number_below_256(p[1], 0);
        an_octet_is_a_number_below_256(p[2], 0);
        an_octet_is_a_number_below_256(p[3], 0);
    }
}

/// The hexadecimal digits, by their codes.
pub proof fn hexadecimal_digits_by_code(c: char)
    ensures
        hex_digit(c) <==> 48 <= c as u32 <= 57 || 65 <= c as u32 <= 70 || 97 <= c as u32 <= 102,
{
}

proof fn lemma_hex_group_is_plain(s: Seq<char>)
    requires
        hex_group(s),
    ensures
        s.len() > 0,
        !text::has_char(s, ':'),
        !text::has_char(s, '.'),
        !ipv4(s),
{
    assert forall|i: int| 0 <= i < s.len() implies #[trigger] s[i] != ':' by {
        assert(hex_digit(s[i]));
    }
    text::lemma_index_free(s, ':');
    assert forall|i: int| 0 <= i < s.len() implies #[trigger] s[i] != '.' by {
        assert(hex_digit(s[i]));
    }
    text::lemma_index_free(s, '.');
    text::lemma_split_one(s, '.');
}

/// Groups of up to four hexadecimal digits between colons make an IPv6 address when
/// there are eight of them, and only then.
pub proof fn eight_groups_make_an_address(p: Seq<Seq<char>>)
    requires
        p.len() > 0,
        forall|i: int| 0 <= i < p.len() ==> hex_group(#[trigger] p[i]),
    ensures
        ipv6(text::join(p, seq![':'])) <==> p.len() == 8,
{
    assert forall|i: int| 0 <= i < p.len() implies (#[trigger] p[i]).len() > 0 && !text::has_char(
        p[i],
        ':',
    ) && !ipv4(p[i]) by {
        lemma_hex_group_is_plain(p[i]);
    }
    let s = text::join(p, seq![':']);
    text::joining_is_undone_by_splitting(p, ':');
    let d = seq![':', ':'];
    text::joined_pieces_are_apart(p, ':', s, d);
    text::a_search_finds_the_first_occurrence(s, d, 0);
    if let Some(k) = text::find_text(s, d, 0) {
        assert(text::at(s, d, k));
    }
    assert(!ipv4(p.last()));
}

proof fn lemma_no_double_colon(a: Seq<char>, b: Seq<char>, d: Seq<char>, j: int)
    requires
        d == seq![':', ':'],
        0 <= j < a.len(),
        a.last() != ':',
        !text::at(a, d, j),
    ensures
        !text::at(a + d + b, d, j),
{
    let s = a + d + b;
    if text::at(s, d, j) {
        let t = s.subrange(j, j + 2);
        assert(t[0] == s[j] && t[1] == s[j + 1]);
        assert(s[j] == a[j]);
        if j + 1 < a.len() {
            assert(a.subrange(j, j + 2) =~= t);
        }
    }
}

proof fn lemma_around(a: Seq<char>, b: Seq<char>, d: Seq<char>)
    ensures
        (a + d + b).take(a.len() as int) == a,
        (a + d + b).subrange(a.len() as int, a.len() as int + d.len()) == d,
        (a + d + b).skip(a.len() as int + d.len()) == b,
{
    let s = a + d + b;
    let k = a.len() as int;
    assert(s.take(k) =~= a);
    assert(s.subrange(k, k + d.len()) =~= d);
    assert(s.skip(k + d.len()) =~= b);
}

proof fn lemma_double_colon(a: Seq<char>, b: Seq<char>, d: Seq<char>)
    requires
        d == seq![':', ':'],
        a.len() > 0,
        a.last() != ':',
        forall|j: int| !#[trigger] text::at(a, d, j),
    ensures
        text::find_text(a + d + b, d, 0) == Some(a.len() as int),
{
    let s = a + d + b;
    let k = a.len() as int;
    lemma_around(a, b, d);
    assert(text::at(s, d, k));
    text::a_search_finds_the_first_occurrence(s, d, 0);
    let found = text::find_text(s, d, 0);
    assert(found is Some);
    let i = found->0;
    if i < k {
        assert(!text::at(a, d, i));
        lemma_no_double_colon(a, b, d, i);
        assert(false);
    }
    if i > k {
        assert(!text::at(s, d, k));
        assert(false);
    }
}

/// Groups round a `::` make an IPv6 address when there are at most seven.
pub proof fn a_double_colon_stands_for_at_least_one_group(
    head: Seq<Seq<char>>,
    tail: Seq<Seq<char>>,
)
    requires
        head.len() > 0,
        tail.len() > 0,
        forall|i: int| 0 <= i < head.len() ==> hex_group(#[trigger] head[i]),
        forall|i: int| 0 <= i < tail.len() ==> hex_group(#[trigger] tail[i]),
    ensures
        ipv6(text::join(head, seq![':']) + seq![':', ':'] + text::join(tail, seq![':']))
            <==> head.len() + tail.len() <= 7,
{
    assert forall|i: int| 0 <= i < head.len() implies (#[trigger] head[i]).len() > 0
        && !text::has_char(head[i], ':') && !ipv4(head[i]) by {
        lemma_hex_group_is_plain(head[i]);
    }
    assert forall|i: int| 0 <= i < tail.len() implies (#[trigger] tail[i]).len() > 0
        && !text::has_char(tail[i], ':') && !ipv4(tail[i]) by {
        lemma_hex_group_is_plain(tail[i]);
    }
    let a = text::join(head, seq![':']);
    let b = text::join(tail, seq![':']);
    let d = seq![':', ':'];
    text::joining_is_undone_by_splitting(head, ':');
    text::joining_is_undone_by_splitting(tail, ':');
    text::joined_pieces_are_apart(head, ':', a, d);
    text::joined_pieces_are_apart(tail, ':', b, d);
    lemma_double_colon(a, b, d);
    lemma_around(a, b, d);
    assert(side(a) == head);
    assert(side(b) == tail);
    assert(!ipv4(tail.last()));
    assert(groups_ok(head, false));
    assert(groups_ok(tail, true));
    assert(group_count(tail) == tail.len());
}

/// The segments of an absolute path are what stands between its slashes; a path
/// that does not begin with one has none.
pub proof fn segments_stand_between_slashes(first: Seq<char>, rest: Seq<char>)
    requires
        first.len() > 0,
        !text::has_char(first, '/'),
        forall|i: int| 0 <= i < text::split(rest, '/').len() ==> (#[trigger] text::split(rest, '/')[i]).len()
            > 0,
    ensures
        segments(seq!['/'] + first + seq!['/'] + rest) == seq![first] + text::split(rest, '/'),
        segments(first + seq!['/'] + rest) == Seq::<Seq<char>>::empty(),
        segments(seq!['/'] + first) == seq![first],
{
    let path = seq!['/'] + first + seq!['/'] + rest;
    let inner = first + seq!['/'] + rest;
    assert(path.skip(1) =~= inner);
    text::lemma_split_head(first, '/', rest);
    let all = text::split(inner, '/');
    assert forall|i: int| 0 <= i < all.len() implies (#[trigger] all[i]).len() > 0 by {
        if i > 0 {
            assert(all[i] == text::split(rest, '/')[i - 1]);
        }
    }
    text::parts_are_the_pieces_that_are_not_empty(inner, '/');
    text::lemma_free_index(first, '/');
    assert(inner[0] == first[0]);
    assert((seq!['/'] + first).skip(1) =~= first);
    text::lemma_split_one(first, '/');
    text::parts_are_the_pieces_that_are_not_empty(first, '/');
}

/// A URL whose host names the account: the account is the host's first label, the
/// container the first segment, and the blob all that follows; the service is the
/// origin.
pub proof fn a_host_names_the_account(
    u: UrlView,
    label: Seq<char>,
    domain: Seq<char>,
    container: Seq<char>,
    blob: Seq<char>,
)
    requires
        u.host == Some(label + seq!['.'] + domain),
        !text::has_char(label, '.'),
        !ip_literal(label + seq!['.'] + domain),
        u.path == seq!['/'] + container + seq!['/'] + blob,
        container.len() > 0,
        !text::has_char(container, '/'),
        forall|i: int| 0 <= i < text::split(blob, '/').len() ==> (#[trigger] text::split(blob, '/')[i]).len()
            > 0,
    ensures
        blob_ref(u) matches Ok(b) && {
            &&& b.account == label
            &&& b.container == container
            &&& b.blob == blob
            &&& b.service_url == origin(u.scheme, label + seq!['.'] + domain, u.port)
            &&& b.snapshot == table::value(table::settings(u.query), "snapshot"@)
            &&& b.sas == sas_of(u.query)
        },
{
    reveal_strlit("/");
    assert("/"@ =~= seq!['/']);
    let host = label + seq!['.'] + domain;
    text::lemma_split_head(label, '.', domain);
    text::lemma_find_from(host, '.', 0);
    assert(text::has_char(host, '.'));
    segments_stand_between_slashes(container, blob);
    text::splitting_is_undone_by_joining(blob, '/');
    assert((seq![container] + text::split(blob, '/')).skip(1) =~= text::split(blob, '/'));
}

/// A URL whose host names no account: the account is the first segment, the
/// container the second, and the blob all that follows; the service is the origin
/// and the account.
pub proof fn a_path_names_the_account(
    u: UrlView,
    host: Seq<char>,
    account: Seq<char>,
    container: Seq<char>,
    blob: Seq<char>,
)
    requires
        u.host == Some(host),
        !subdomain_host(host),
        u.path == seq!['/'] + account + seq!['/'] + container + seq!['/'] + blob,
        account.len() > 0,
        !text::has_char(account, '/'),
        container.len() > 0,
        !text::has_char(container, '/'),
        forall|i: int| 0 <= i < text::split(blob, '/').len() ==> (#[trigger] text::split(blob, '/')[i]).len()
            > 0,
    ensures
        blob_ref(u) matches Ok(b) && {
            &&& b.account == account
            &&& b.container == container
            &&& b.blob == blob
            &&& b.service_url == origin(u.scheme, host, u.port) + seq!['/'] + account
            &&& b.snapshot == table::value(table::settings(u.query), "snapshot"@)
            &&& b.sas == sas_of(u.query)
        },
{
    reveal_strlit("/");
    assert("/"@ =~= seq!['/']);
    let rest = container + seq!['/'] + blob;
    text::lemma_split_head(container, '/', blob);
    let inner = text::split(rest, '/');
    assert forall|i: int| 0 <= i < inner.len() implies (#[trigger] inner[i]).len() > 0 by {
        if i > 0 {
            assert(inner[i] == text::split(blob, '/')[i - 1]);
        }
    }
    assert(u.path =~= seq!['/'] + account + seq!['/'] + rest);
    segments_stand_between_slashes(account, rest);
    text::splitting_is_undone_by_joining(blob, '/');
    let seg = seq![account] + inner;
    assert(seg.skip(2) =~= text::split(blob, '/'));
    assert(seg[1] == container);
}

/// A URL selects no blob where it has no host, or too few segments.
pub proof fn a_blob_url_needs_a_host_and_a_path(u: UrlView)
    ensures
        u.host is None <==> blob_ref(u) == Err::<RefView, _>(BlobUrlError::NoHost),
        u.host matches Some(host) ==> {
            &&& (subdomain_host(host) ==> (segments(u.path).len() < 2 <==> blob_ref(u) == Err::<
                RefView,
                _,
            >(BlobUrlError::MissingBlobPath)))
            &&& (!subdomain_host(host) ==> (segments(u.path).len() < 3 <==> blob_ref(u) == Err::<
                RefView,
                _,
            >(BlobUrlError::MissingAccountPath)))
            &&& (subdomain_host(host) && segments(u.path).len() >= 2 ==> blob_ref(u) is Ok)
            &&& (!subdomain_host(host) && segments(u.path).len() >= 3 ==> blob_ref(u) is Ok)
        },
{
}

/// An origin spells out the port where there is one of its own.
pub proof fn an_origin_spells_out_its_port(scheme: Seq<char>, host: Seq<char>, port: u16)
    ensures
        origin(scheme, host, None) == scheme + seq![':', '/', '/'] + host,
        origin(scheme, host, Some(port)) == scheme + seq![':', '/', '/'] + host + seq![':']
            + text::decimal(port as nat),
{
    reveal_strlit("://");
    assert("://"@ =~= seq![':', '/', '/']);
    assert(origin(scheme, host, None) =~= scheme + seq![':', '/', '/'] + host);
    assert(origin(scheme, host, Some(port)) =~= scheme + seq![':', '/', '/'] + host + seq![':']
        + text::decimal(port as nat));
}

/// A SAS is every pair of the query but the snapshot, and there is one only where
/// the query is signed.
pub proof fn a_sas_is_the_query_without_its_snapshot(
    query: Seq<(Seq<char>, Seq<char>)>,
    p: (Seq<char>, Seq<char>),
)
    ensures
        sas_pairs(query).contains(p) <==> query.contains(p) && p.0 != "snapshot"@,
        table::value(table::settings(query), "sig"@) is None ==> sas_of(query) is None,
        table::value(table::settings(query), "sig"@) is Some ==> sas_of(query) == encoded_query(
            sas_pairs(query),
        ),
        (forall|i: int| 0 <= i < query.len() ==> (#[trigger] query[i]).0 != "snapshot"@)
            ==> sas_pairs(query) == query,
{
    let keep = |q: (Seq<char>, Seq<char>)| q.0 != "snapshot"@;
    let all = sas_pairs(query);
    if all.contains(p) {
        let i = choose|i: int| 0 <= i < all.len() && all[i] == p;
        query.lemma_filter_pred(keep, i);
        query.lemma_filter_contains_rev(keep, p);
    }
    if query.contains(p) && p.0 != "snapshot"@ {
        let i = choose|i: int| 0 <= i < query.len() && query[i] == p;
        query.lemma_filter_contains(keep, i);
    }
    if forall|i: int| 0 <= i < query.len() ==> (#[trigger] query[i]).0 != "snapshot"@ {
        lemma_no_snapshot(query);
    }
}

proof fn lemma_no_snapshot(query: Seq<(Seq<char>, Seq<char>)>)
    requires
        forall|i: int| 0 <= i < query.len() ==> (#[trigger] query[i]).0 != "snapshot"@,
    ensures
        sas_pairs(query) == query,
    decreases query.len(),
{
    reveal(Seq::filter);
    if query.len() > 0 {
        let front = query.drop_last();
        assert forall|i: int| 0 <= i < front.len() implies (#[trigger] front[i]).0 != "snapshot"@ by {
            assert(front[i] == query[i]);
        }
        lemma_no_snapshot(front);
        assert(front.push(query.last()) =~= query);
    }
}

/// A group of an address is one hexadecimal digit or more, up to four.
pub proof fn a_group_has_one_to_four_digits(s: Seq<char>, c: char)
    ensures
        !hex_group(Seq::empty()),
        hex_group(seq![c]) <==> hex_digit(c),
        hex_group(s) ==> (hex_group(s.push(c)) <==> hex_digit(c) && s.len() < 4),
{
    if hex_digit(c) {
        assert forall|i: int| 0 <= i < seq![c].len() implies hex_digit(#[trigger] seq![c][i]) by {}
    } else {
        assert(!hex_digit(seq![c][0]));
        assert(!hex_digit(s.push(c)[s.len() as int]));
    }
    if hex_group(s) && hex_digit(c) && s.len() < 4 {
        assert forall|i: int| 0 <= i < s.push(c).len() implies hex_digit(
            #[trigger] s.push(c)[i],
        ) by {
            if i < s.len() {
                assert(s.push(c)[i] == s[i]);
            }
        }
    }
}

} // verus!
