//! Connection bookkeeping for a Cumulocity endpoint: building the
//! request URLs from the configured host, the tenant-domain check, and
//! the initialised / uninitialised endpoint state.
//!
//! Everything here computes on plain strings; performing the HTTP or
//! MQTT traffic that these values feed is the surrounding application's
//! business.

use vstd::prelude::*;
use vstd::string::StrSliceExecFns;
use vstd::string::StringExecFns;

verus! {

/// `s` starts with `http` (and so needs no scheme prepended).
pub open spec fn has_http_prefix(s: Seq<char>) -> bool {
    s.len() >= 4 && s[0] == 'h' && s[1] == 't' && s[2] == 't' && s[3] == 'p'
}

/// The base URL for a configured host: the host itself when it already
/// carries a scheme, otherwise `https://` in front of it.
pub open spec fn base_url_of(host: Seq<char>) -> Seq<char> {
    if has_http_prefix(host) {
        host
    } else {
        "https://"@ + host
    }
}

/// The URL that resolves a device's external id.
pub open spec fn url_for_get_id(host: Seq<char>, device: Seq<char>) -> Seq<char> {
    base_url_of(host) + "/identity/externalIds/c8y_Serial/"@ + device
}

/// The URL that the software list is put to.
pub open spec fn url_for_sw_list(host: Seq<char>, internal_id: Seq<char>) -> Seq<char> {
    base_url_of(host) + "/inventory/managedObjects/"@ + internal_id
}

/// The URL that events are created at.
pub open spec fn url_for_create_event(host: Seq<char>) -> Seq<char> {
    base_url_of(host) + "/event/events/"@
}

/// The URL that an event's binary attachment is uploaded to.
pub open spec fn url_for_event_binary_upload(host: Seq<char>, event_id: Seq<char>) -> Seq<char> {
    url_for_create_event(host) + event_id + "/binaries"@
}

/// An endpoint whose internal device id is not resolved yet.
#[derive(Debug, Clone)]
pub struct C8yEndPointUnInitialised {
    pub c8y_host: String,
    pub device_id: String,
}

/// A fully resolved endpoint.
#[derive(Debug, Clone)]
pub struct C8yEndPoint {
    pub c8y_host: String,
    pub device_id: String,
    pub c8y_internal_id: String,
}

/// `http` as the first four characters of `s`.
fn starts_with_http(s: &str) -> (r: bool)
    ensures
        r == has_http_prefix(s@),
{
    let len = s.unicode_len();
    len >= 4 && s.get_char(0) == 'h' && s.get_char(1) == 't' && s.get_char(2) == 't' && s.get_char(
        3,
    ) == 'p'
}

/// `base_url_of` on a host string.
fn build_base_url(host: &String) -> (r: String)
    ensures
        r@ == base_url_of(host@),
{
    let mut url_get_id = String::new();
    if !starts_with_http(host.as_str()) {
        url_get_id.append("https://");
    }
    url_get_id.append(host.as_str());
    proof {
        if has_http_prefix(host@) {
            assert(url_get_id@ =~= host@);
        }
    }
    url_get_id
}

impl C8yEndPointUnInitialised {
    /// An endpoint for the given host and device, not yet resolved.
    pub fn new(c8y_host: String, device_id: String) -> (r: Self)
        ensures
            r.c8y_host@ == c8y_host@,
            r.device_id@ == device_id@,
    {
        C8yEndPointUnInitialised { c8y_host, device_id }
    }

    /// The configured host with a scheme in front of it when it has
    /// none.
    pub fn get_base_url(&self) -> (r: String)
        ensures
            r@ == base_url_of(self.c8y_host@),
    {
        build_base_url(&self.c8y_host)
    }

    /// The URL that resolves this device's external id.
    pub fn get_url_for_get_id(&self) -> (r: String)
        ensures
            r@ == url_for_get_id(self.c8y_host@, self.device_id@),
    {
        let mut url_get_id = self.get_base_url();
        url_get_id.append("/identity/externalIds/c8y_Serial/");
        url_get_id.append(self.device_id.as_str());
        proof {
            assert(url_get_id@ =~= url_for_get_id(self.c8y_host@, self.device_id@));
        }
        url_get_id
    }
}

impl C8yEndPoint {
    /// The endpoint resolved from `uninitialised` by the internal id
    /// the platform answered with.
    pub fn new(uninitialised: &C8yEndPointUnInitialised, c8y_internal_id: String) -> (r:
        C8yEndPoint)
        ensures
            r.c8y_host@ == uninitialised.c8y_host@,
            r.device_id@ == uninitialised.device_id@,
            r.c8y_internal_id@ == c8y_internal_id@,
    {
        C8yEndPoint {
            c8y_host: uninitialised.c8y_host.clone(),
            device_id: uninitialised.device_id.clone(),
            c8y_internal_id,
        }
    }

    /// The configured host with a scheme in front of it when it has
    /// none.
    pub fn get_base_url(&self) -> (r: String)
        ensures
            r@ == base_url_of(self.c8y_host@),
    {
        build_base_url(&self.c8y_host)
    }

    /// The URL that this device's software list is put to.
    pub fn get_url_for_sw_list(&self) -> (r: String)
        ensures
            r@ == url_for_sw_list(self.c8y_host@, self.c8y_internal_id@),
    {
        let mut url_update_swlist = self.get_base_url();
        url_update_swlist.append("/inventory/managedObjects/");
        url_update_swlist.append(self.c8y_internal_id.as_str());
        proof {
            assert(url_update_swlist@ =~= url_for_sw_list(self.c8y_host@, self.c8y_internal_id@));
        }
        url_update_swlist
    }

    /// The URL that resolves this device's external id.
    pub fn get_url_for_get_id(&self) -> (r: String)
        ensures
            r@ == url_for_get_id(self.c8y_host@, self.device_id@),
    {
        let mut url_get_id = self.get_base_url();
        url_get_id.append("/identity/externalIds/c8y_Serial/");
        url_get_id.append(self.device_id.as_str());
        proof {
            assert(url_get_id@ =~= url_for_get_id(self.c8y_host@, self.device_id@));
        }
        url_get_id
    }

    /// The URL that events for this device are created at.
    pub fn get_url_for_create_event(&self) -> (r: String)
        ensures
            r@ == url_for_create_event(self.c8y_host@),
    {
        let mut url_create_event = self.get_base_url();
        url_create_event.append("/event/events/");
        proof {
            assert(url_create_event@ =~= url_for_create_event(self.c8y_host@));
        }
        url_create_event
    }

    /// The URL that the binary attachment of event `event_id` is
    /// uploaded to.
    pub fn get_url_for_event_binary_upload(&self, event_id: &str) -> (r: String)
        ensures
            r@ == url_for_event_binary_upload(self.c8y_host@, event_id@),
    {
        let mut url_event_binary = self.get_url_for_create_event();
        url_event_binary.append(event_id);
        url_event_binary.append("/binaries");
        proof {
            assert(url_event_binary@ =~= url_for_event_binary_upload(self.c8y_host@, event_id@));
        }
        url_event_binary
    }
}

/// The host component of `s` as the URL parser renders it, when `s`
/// parses as an absolute URL that has a host. The result depends on
/// the input string alone.
pub uninterp spec fn url_host(s: Seq<char>) -> Option<Seq<char>>;

/// Relies on reqwest::Url::parse (the url crate's parser, re-exported)
/// and Url::host: whether `url` parses as an absolute URL with a host,
/// and that host rendered as text. Parsing depends on the input string
/// alone.
#[verifier::external_body]
fn parse_url_host(url: &str) -> (r: Option<String>)
    ensures
        r is Some <==> url_host(url@) is Some,
        r matches Some(h) ==> url_host(url@) == Some(h@),
{
    match reqwest::Url::parse(url) {
        Ok(u) => u.host().map(|h| h.to_string()),
        Err(_) => None,
    }
}

/// The index of the first `.` in `s`, or `-1` if there is none.
pub open spec fn first_dot_idx(s: Seq<char>) -> int
    decreases s.len(),
{
    if s.len() == 0 {
        -1
    } else if s[0] == '.' {
        0
    } else {
        let r = first_dot_idx(s.drop_first());
        if r < 0 {
            -1
        } else {
            r + 1
        }
    }
}

/// What follows the first `.` of `s`: the domain with the tenant label
/// (a tenant name or a tenant id) in front of it removed. `None` when
/// `s` holds no `.` at all.
pub open spec fn domain_part(s: Seq<char>) -> Option<Seq<char>> {
    if first_dot_idx(s) < 0 {
        None
    } else {
        Some(s.subrange(first_dot_idx(s) + 1, s.len() as int))
    }
}

/// Whether `url` points into the tenant's domain: it parses as a URL
/// with a host, and that host's domain equals the configured host's
/// domain once each tenant label is removed.
pub open spec fn url_in_tenant_domain(url: Seq<char>, tenant: Seq<char>) -> bool {
    match url_host(url) {
        None => false,
        Some(h) => domain_part(h) == domain_part(tenant),
    }
}

/// A forward scan that stopped at `i` finds the first dot there.
proof fn lemma_first_dot_scan(s: Seq<char>, i: int)
    requires
        0 <= i <= s.len(),
        forall|k: int| 0 <= k < i ==> s[k] != '.',
        i < s.len() ==> s[i] == '.',
    ensures
        first_dot_idx(s) == if i == s.len() {
            -1
        } else {
            i
        },
    decreases i,
{
    if i == 0 {
        if s.len() > 0 {
            assert(s[0] == '.');
        }
    } else {
        assert(s[0] != '.');
        let rest = s.drop_first();
        assert(forall|k: int| 0 <= k < i - 1 ==> rest[k] != '.');
        if i - 1 < rest.len() {
            assert(rest[i - 1] == s[i]);
        }
        lemma_first_dot_scan(rest, i - 1);
    }
}

/// What follows the first `.` of `s`, or `None` if `s` holds no `.`.
fn after_first_dot(s: &str) -> (r: Option<String>)
    ensures
        r is Some <==> domain_part(s@) is Some,
        r matches Some(x) ==> domain_part(s@) == Some(x@),
{
    let len = s.unicode_len();
    let mut i: usize = 0;
    while i < len && s.get_char(i) != '.'
        invariant
            0 <= i <= len,
            len == s@.len(),
            forall|k: int| 0 <= k < i ==> s@[k] != '.',
        decreases len - i,
    {
        i = i + 1;
    }
    proof {
        lemma_first_dot_scan(s@, i as int);
    }
    if i == len {
        None
    } else {
        Some(s.substring_char(i + 1, len).to_owned())
    }
}

impl C8yEndPoint {
    /// Whether `url` points into this endpoint's tenant domain. The
    /// configured host and the URL's host may carry different tenant
    /// labels (a tenant name in one, a tenant id in the other) and
    /// still name the same tenant, so only what follows the first `.`
    /// of each is compared. A string that does not parse as a URL with
    /// a host is in no tenant's domain.
    pub fn url_is_in_my_tenant_domain(&self, url: &str) -> (r: bool)
        ensures
            r == url_in_tenant_domain(url@, self.c8y_host@),
    {
        let host = match parse_url_host(url) {
            Some(h) => h,
            None => {
                return false;
            },
        };
        let url_dom = after_first_dot(host.as_str());
        let tenant_dom = after_first_dot(self.c8y_host.as_str());
        match (url_dom, tenant_dom) {
            (Option::None, Option::None) => true,
            (Option::Some(u), Option::Some(t)) => u.eq(&t),
            _ => false,
        }
    }
}

/// Why a platform interaction could not be carried through.
#[derive(Debug, Clone, Copy, PartialEq, Eq, Structural)]
pub enum HttpProxyError {
    /// The platform did not answer the id request with a usable id.
    FailedToRetrieveC8yInternalId,
    /// The token channel closed without a message.
    InvalidMqttMessage,
    /// No token message arrived in time.
    RequestTimeout,
}

/// The endpoint as the proxy holds it: unresolved until the internal
/// id is first retrieved, resolved from then on.
#[derive(Debug, Clone)]
pub enum EndPoint {
    Uninitialised(C8yEndPointUnInitialised),
    Initialised(C8yEndPoint),
}

impl EndPoint {
    /// Whether the internal id still has to be retrieved before
    /// requests can be addressed.
    pub fn needs_init(&self) -> (r: bool)
        ensures
            r == (self is Uninitialised),
    {
        match self {
            EndPoint::Uninitialised(_) => true,
            EndPoint::Initialised(_) => false,
        }
    }

    /// Resolve the endpoint with the outcome of one id retrieval.
    ///
    /// An endpoint already resolved stays as it is, whatever was
    /// fetched. An unresolved endpoint becomes resolved when an id
    /// arrived; when none did, it stays unresolved and the call fails.
    pub fn apply_internal_id(&mut self, internal_id: Option<String>) -> (r: Result<
        C8yEndPoint,
        HttpProxyError,
    >)
        ensures
            match *old(self) {
                EndPoint::Initialised(ep) => *final(self) == *old(self) && (r matches Ok(e) && e
                    == ep),
                EndPoint::Uninitialised(u) => match internal_id {
                    Some(id) => (*final(self)) matches EndPoint::Initialised(e) && {
                        &&& e.c8y_host@ == u.c8y_host@
                        &&& e.device_id@ == u.device_id@
                        &&& e.c8y_internal_id@ == id@
                        &&& (r matches Ok(e2) && e2 == e)
                    },
                    None => *final(self) == *old(self) && (r matches Err(err) && err
                        == HttpProxyError::FailedToRetrieveC8yInternalId),
                },
            },
    {
        match self {
            EndPoint::Initialised(ep) => Ok(dup_endpoint(ep)),
            EndPoint::Uninitialised(u) => match internal_id {
                Some(id) => {
                    let resolved = C8yEndPoint::new(u, id);
                    let out = dup_endpoint(&resolved);
                    *self = EndPoint::Initialised(resolved);
                    Ok(out)
                },
                None => Err(HttpProxyError::FailedToRetrieveC8yInternalId),
            },
        }
    }
}

/// A field-for-field copy of an endpoint.
fn dup_endpoint(ep: &C8yEndPoint) -> (r: C8yEndPoint)
    ensures
        r == *ep,
{
    let r = C8yEndPoint {
        c8y_host: ep.c8y_host.clone(),
        device_id: ep.device_id.clone(),
        c8y_internal_id: ep.c8y_internal_id.clone(),
    };
    r
}

/// The decision core of the token retrieval: what the retriever answers
/// for each outcome of waiting on the token channel. `None` stands for
/// the wait timing out, `Some(None)` for the channel ending without a
/// message, and `Some(Some(payload))` for a message with that payload,
/// which is handed through as the token material.
pub fn jwt_token_response(received: Option<Option<String>>) -> (r: Result<String, HttpProxyError>)
    ensures
        match received {
            None => r matches Err(e) && e == HttpProxyError::RequestTimeout,
            Some(inner) => match inner {
                None => r matches Err(e) && e == HttpProxyError::InvalidMqttMessage,
                Some(msg) => r matches Ok(t) && t@ == msg@,
            },
        },
{
    match received {
        None => Err(HttpProxyError::RequestTimeout),
        Some(inner) => match inner {
            None => Err(HttpProxyError::InvalidMqttMessage),
            Some(msg) => Ok(msg),
        },
    }
}

} // verus!
