use http::uri::{Authority, PathAndQuery, Scheme};
use http::Uri;
use vstd::prelude::*;
use vstd::string::{StrSliceExecFns, StringExecFns};

verus! {

#[verifier::external_type_specification]
#[verifier::external_body]
pub struct ExUri(Uri);

#[verifier::external_type_specification]
#[verifier::external_body]
pub struct ExScheme(Scheme);

#[verifier::external_type_specification]
#[verifier::external_body]
pub struct ExAuthority(Authority);

#[verifier::external_type_specification]
#[verifier::external_body]
pub struct ExPathAndQuery(PathAndQuery);

/// The origin that serves one host: the scheme and authority to send its requests to.
pub struct OriginEntry {
    pub host: String,
    pub scheme: Scheme,
    pub authority: Authority,
}

/// Maps normalized DNS host names to the origins that serve them.
pub struct OriginManager {
    host_to_origin_host: Vec<OriginEntry>,
}

/// Relies on `http::uri::Builder`: with a scheme, an authority and a path and query
/// all set, each passed as its own type (no conversion that can fail), `build` gives
/// a URI (`Uri::from_parts` refuses only a missing part).
#[verifier::external_body]
fn build_origin_uri(
    scheme: &Scheme,
    authority: &Authority,
    path_and_query: &PathAndQuery,
) -> (r: Option<Uri>)
    ensures
        r is Some,
{
    Uri::builder()
        .scheme(scheme.clone())
        .authority(authority.clone())
        .path_and_query(path_and_query.clone())
        .build()
        .ok()
}

/// `host` without a trailing `:port`: everything before its last `:`, or all of it
/// where it holds none.
pub open spec fn spec_host_without_port(host: Seq<char>) -> Seq<char> {
    if exists|i: int| 0 <= i < host.len() && host[i] == ':' {
        let last = choose|i: int|
            0 <= i < host.len() && host[i] == ':' && forall|j: int|
                i < j < host.len() ==> host[j] != ':';
        host.subrange(0, last)
    } else {
        host
    }
}

/// Strips a trailing `:port` from a `Host` header value.
pub fn host_without_port(host: &str) -> (r: String)
    ensures
        r@ == spec_host_without_port(host@),
{
    let n = host.unicode_len();
    let mut i = n;
    while i > 0
        invariant
            i <= n == host@.len(),
            forall|j: int| i <= j < n ==> host@[j] != ':',
        decreases i,
    {
        if host.get_char(i - 1) == ':' {
            let ghost k = (i - 1) as int;
            proof {
                let last = choose|a: int|
                    0 <= a < host@.len() && host@[a] == ':' && forall|j: int|
                        a < j < host@.len() ==> host@[j] != ':';
                assert(0 <= k < host@.len() && host@[k] == ':' && forall|j: int|
                    k < j < host@.len() ==> host@[j] != ':');
                assert(last == k);
            }
            return String::from_str(host.substring_char(0, i - 1));
        }
        i = i - 1;
    }
    String::from_str(host)
}

impl OriginManager {
    /// No two entries serve the same host.
    pub closed spec fn wf(&self) -> bool {
        forall|i: int, j: int|
            0 <= i < j < self.host_to_origin_host@.len() ==> #[trigger] self.host_to_origin_host@[i].host@
                != #[trigger] self.host_to_origin_host@[j].host@
    }

    /// The entry that serves `host`, if any.
    pub closed spec fn entry_of(&self, host: Seq<char>) -> Option<int> {
        if exists|i: int|
            0 <= i < self.host_to_origin_host@.len() && #[trigger] self.host_to_origin_host@[i].host@
                == host {
            Some(
                choose|i: int|
                    0 <= i < self.host_to_origin_host@.len()
                        && #[trigger] self.host_to_origin_host@[i].host@ == host,
            )
        } else {
            None
        }
    }

    /// The scheme and authority of the origin that serves `host`, if any.
    pub closed spec fn origin(&self, host: Seq<char>) -> Option<(Scheme, Authority)> {
        match self.entry_of(host) {
            Some(i) => Some(
                (self.host_to_origin_host@[i].scheme, self.host_to_origin_host@[i].authority),
            ),
            None => None,
        }
    }

    /// Creates a manager with no origins.
    pub fn new() -> (r: OriginManager)
        ensures
            r.wf(),
            forall|h: Seq<char>| #[trigger] r.origin(h) is None,
    {
        OriginManager { host_to_origin_host: Vec::new() }
    }

    /// The index of the entry that serves `host`.
    fn find(&self, host: &String) -> (r: Option<usize>)
        ensures
            r matches Some(i) ==> i < self.host_to_origin_host@.len()
                && self.host_to_origin_host@[i as int].host@ == host@,
            r is None ==> forall|i: int|
                0 <= i < self.host_to_origin_host@.len()
                    ==> #[trigger] self.host_to_origin_host@[i].host@ != host@,
    {
        let mut i: usize = 0;
        while i < self.host_to_origin_host.len()
            invariant
                i <= self.host_to_origin_host@.len(),
                forall|k: int| 0 <= k < i ==> #[trigger] self.host_to_origin_host@[k].host@ != host@,
            decreases self.host_to_origin_host@.len() - i,
        {
            if self.host_to_origin_host[i].host == *host {
                return Some(i);
            }
            i = i + 1;
        }
        None
    }

    /// The scheme and authority of the origin that serves `host`, if any.
    pub fn origin_for_host(&self, host: &str) -> (r: Option<(&Scheme, &Authority)>)
        requires
            self.wf(),
        ensures
            r is Some <==> self.origin(host@) is Some,
            r matches Some((s, a)) ==> self.origin(host@) == Some((*s, *a)),
    {
        let key = String::from_str(host);
        match self.find(&key) {
            Some(i) => {
                let e = &self.host_to_origin_host[i];
                proof {
                    let j = self.entry_of(host@)->Some_0;
                    assert(self.host_to_origin_host@[j].host@ == host@);
                    if j != i {
                        if j < i {
                            assert(self.host_to_origin_host@[j].host@ != self.host_to_origin_host@[i as int].host@);
                        } else {
                            assert(self.host_to_origin_host@[i as int].host@ != self.host_to_origin_host@[j].host@);
                        }
                    }
                }
                Some((&e.scheme, &e.authority))
            },
            None => None,
        }
    }

    /// The URI of `path_and_query` at the origin that serves `host`: `None` where no
    /// origin serves it, or where there is no path to request.
    pub fn origin_uri_for_host(&self, path_and_query: Option<&PathAndQuery>, host: &str) -> (r:
        Option<Uri>)
        requires
            self.wf(),
        ensures
            r is Some <==> (self.origin(host@) is Some && path_and_query is Some),
    {
        match self.origin_for_host(host) {
            Some((scheme, authority)) => match path_and_query {
                Some(pq) => build_origin_uri(scheme, authority, pq),
                None => None,
            },
            None => None,
        }
    }

    /// Resolves the origin URI of a request: the origin of the request URI's host
    /// `uri_host`, or of `hostname` where the URI names none, with the URI's path and
    /// query. `None` where no origin serves that host, or where the URI has no path.
    /// The host name must not hold a port.
    pub fn uri_to_origin_uri(
        &self,
        uri_host: Option<&str>,
        path_and_query: Option<&PathAndQuery>,
        hostname: &str,
    ) -> (r: Option<Uri>)
        requires
            self.wf(),
        ensures
            r is Some <==> (self.origin(
                match uri_host {
                    Some(h) => h@,
                    None => hostname@,
                },
            ) is Some && path_and_query is Some),
    {
        let host = match uri_host {
            Some(h) => h,
            None => hostname,
        };
        self.origin_uri_for_host(path_and_query, host)
    }

    /// Sets the origin that serves `host`, in place of any earlier one.
    pub fn set_origin_host(&mut self, host: String, origin_scheme: Scheme, origin_authority: Authority)
        requires
            old(self).wf(),
        ensures
            final(self).wf(),
            final(self).origin(host@) == Some((origin_scheme, origin_authority)),
            forall|h: Seq<char>| h != host@ ==> #[trigger] final(self).origin(h) == old(self).origin(h),
    {
        let ghost before = self.host_to_origin_host@;
        let entry = OriginEntry { host, scheme: origin_scheme, authority: origin_authority };
        match self.find(&entry.host) {
            Some(i) => {
                self.host_to_origin_host.set(i, entry);
            },
            None => {
                self.host_to_origin_host.push(entry);
            },
        }
        proof {
            let after = self.host_to_origin_host@;
            let key = host@;
            let k = if after.len() > before.len() {
                before.len() as int
            } else {
                choose|k: int| 0 <= k < before.len() && #[trigger] before[k].host@ == key
            };
            assert(after[k].host@ == key);
            assert forall|a: int, b: int| 0 <= a < b < after.len() implies #[trigger] after[a].host@
                != #[trigger] after[b].host@ by {
                if a != k && b != k {
                    assert(after[a] == before[a] && after[b] == before[b]);
                } else if a == k {
                    assert(after[b] == before[b]);
                } else {
                    assert(after[a] == before[a]);
                }
            }
            assert(self.entry_of(key) == Some(k)) by {
                let c = self.entry_of(key)->Some_0;
                assert(after[c].host@ == key);
                if c != k {
                    if c < k {
                        assert(after[c].host@ != after[k].host@);
                    } else {
                        assert(after[k].host@ != after[c].host@);
                    }
                }
            }
            assert forall|h: Seq<char>| h != key implies #[trigger] self.origin(h) == old(self).origin(h) by {
                if old(self).entry_of(h) is Some {
                    let c = old(self).entry_of(h)->Some_0;
                    assert(c != k);
                    assert(after[c] == before[c]);
                    let d = self.entry_of(h)->Some_0;
                    assert(after[d].host@ == h);
                    if d != c {
                        if d < c {
                            assert(after[d].host@ != after[c].host@);
                        } else {
                            assert(after[c].host@ != after[d].host@);
                        }
                    }
                } else {
                    assert forall|m: int| 0 <= m < after.len() implies #[trigger] after[m].host@ != h by {
                        if m != k {
                            assert(after[m] == before[m]);
                        }
                    }
                }
            }
        }
    }
}

} // verus!
