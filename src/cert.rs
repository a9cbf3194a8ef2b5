use vstd::prelude::*;

use crate::text::same_text;

verus! {

/// Seconds in the validity window of a leaf certificate: one year.
pub const LEAF_VALIDITY_SECONDS: u64 = 31536000;

/// Longest host name accepted, in characters.
pub const MAX_HOST_LEN: usize = 253;

pub open spec fn is_host_char(c: char) -> bool {
    ('a' <= c && c <= 'z') || ('A' <= c && c <= 'Z') || ('0' <= c && c <= '9') || c == '-' || c == '.' || c == ':'
}

/// A host name or IP literal: 1 to 253 letters, digits, `-`, `.` or `:`,
/// with no `.` at either end and no two `.` in a row.
pub open spec fn valid_host(s: Seq<char>) -> bool {
    &&& 0 < s.len() <= MAX_HOST_LEN
    &&& forall|i: int| 0 <= i < s.len() ==> is_host_char(#[trigger] s[i])
    &&& s[0] != '.'
    &&& s.last() != '.'
    &&& forall|i: int| 0 <= i < s.len() - 1 ==> !(#[trigger] s[i] == '.' && s[i + 1] == '.')
}

/// Whether `host` may be given a certificate.
pub fn is_valid_host(host: &str) -> (r: bool)
    ensures
        r == valid_host(host@),
{
    let n = host.unicode_len();
    if n == 0 || n > MAX_HOST_LEN {
        return false;
    }
    let mut i: usize = 0;
    while i < n
        invariant
            n == host@.len(),
            0 < n <= MAX_HOST_LEN,
            i <= n,
            forall|j: int| 0 <= j < i ==> is_host_char(#[trigger] host@[j]),
            forall|j: int| 0 <= j < i && j < n - 1 ==> !(#[trigger] host@[j] == '.' && host@[j + 1] == '.'),
        decreases n - i,
    {
        let c = host.get_char(i);
        let ok = ('a' <= c && c <= 'z') || ('A' <= c && c <= 'Z') || ('0' <= c && c <= '9') || c == '-' || c == '.' || c == ':';
        if !ok {
            return false;
        }
        if i + 1 < n && c == '.' && host.get_char(i + 1) == '.' {
            return false;
        }
        i = i + 1;
    }
    host.get_char(0) != '.' && host.get_char(n - 1) != '.'
}

/// The validity period of the root authority, in seconds since the epoch.
#[derive(Debug, Clone, Copy, PartialEq, Eq, Structural)]
pub struct RootValidity {
    pub not_before: u64,
    pub not_after: u64,
}

/// What a new leaf certificate is to hold: its subject, its validity window
/// and that it serves for server authentication only.
#[derive(Debug)]
pub struct LeafPlan {
    pub subject: String,
    pub not_before: u64,
    pub not_after: u64,
    pub server_auth_only: bool,
}

#[derive(Debug, Clone, Copy, PartialEq, Eq, Structural)]
pub enum CertificateError {
    /// The host is not a host name or IP literal.
    InvalidHost,
    /// The root authority is not valid at the time of signing.
    RootNotValid,
}

/// The end of a leaf's validity: one year after `now`, but never after the
/// root authority's own end.
pub open spec fn leaf_not_after(now: u64, root: RootValidity) -> u64 {
    if now as int + LEAF_VALIDITY_SECONDS as int <= root.not_after as int {
        (now + LEAF_VALIDITY_SECONDS) as u64
    } else {
        root.not_after
    }
}

/// Decides what certificate to sign for `host` at time `now`.
pub fn plan_leaf(host: &str, now: u64, root: RootValidity) -> (r: Result<LeafPlan, CertificateError>)
    ensures
        !valid_host(host@) ==> r == Err::<LeafPlan, CertificateError>(CertificateError::InvalidHost),
        valid_host(host@) && !(root.not_before <= now < root.not_after) ==> r == Err::<LeafPlan, CertificateError>(CertificateError::RootNotValid),
        valid_host(host@) && root.not_before <= now < root.not_after ==> (r matches Ok(p) && p.subject@ == host@
            && p.not_before == now && p.not_after == leaf_not_after(now, root) && p.server_auth_only),
{
    if !is_valid_host(host) {
        return Err(CertificateError::InvalidHost);
    }
    if !(root.not_before <= now && now < root.not_after) {
        return Err(CertificateError::RootNotValid);
    }
    let not_after = if LEAF_VALIDITY_SECONDS <= root.not_after && now <= root.not_after - LEAF_VALIDITY_SECONDS {
        now + LEAF_VALIDITY_SECONDS
    } else {
        root.not_after
    };
    Ok(LeafPlan { subject: host.to_string(), not_before: now, not_after, server_auth_only: true })
}

/// A signed leaf certificate and its private key, for one host.
#[derive(Debug)]
pub struct CachedCertificate {
    pub host: String,
    pub certificate_pem: String,
    pub private_key_pem: String,
    pub issued_at: u64,
}

pub struct CachedCertificateView {
    pub host: Seq<char>,
    pub certificate_pem: Seq<char>,
    pub private_key_pem: Seq<char>,
    pub issued_at: u64,
}

impl View for CachedCertificate {
    type V = CachedCertificateView;

    open spec fn view(&self) -> CachedCertificateView {
        CachedCertificateView {
            host: self.host@,
            certificate_pem: self.certificate_pem@,
            private_key_pem: self.private_key_pem@,
            issued_at: self.issued_at,
        }
    }
}

impl CachedCertificate {
    /// A copy of this certificate.
    pub fn duplicate(&self) -> (r: CachedCertificate)
        ensures
            r@ == self@,
    {
        CachedCertificate {
            host: self.host.clone(),
            certificate_pem: self.certificate_pem.clone(),
            private_key_pem: self.private_key_pem.clone(),
            issued_at: self.issued_at,
        }
    }
}

/// Every cached certificate is stored under its own host.
pub open spec fn keyed_by_host(m: Map<Seq<char>, CachedCertificateView>) -> bool {
    forall|h: Seq<char>| #[trigger] m.contains_key(h) ==> m[h].host == h
}

/// The cache after a signed certificate `c` is offered to it: unchanged when
/// its host already has one, else extended by `c`.
pub open spec fn cache_after_insert(m: Map<Seq<char>, CachedCertificateView>, c: CachedCertificateView) -> Map<Seq<char>, CachedCertificateView> {
    if m.contains_key(c.host) {
        m
    } else {
        m.insert(c.host, c)
    }
}

/// The certificate handed back when `c` is offered to the cache `m`.
pub open spec fn kept_certificate(m: Map<Seq<char>, CachedCertificateView>, c: CachedCertificateView) -> CachedCertificateView {
    if m.contains_key(c.host) {
        m[c.host]
    } else {
        c
    }
}

/// The cache after each of `cs` is offered in turn.
pub open spec fn cache_after_all(m: Map<Seq<char>, CachedCertificateView>, cs: Seq<CachedCertificateView>) -> Map<Seq<char>, CachedCertificateView>
    decreases cs.len(),
{
    if cs.len() == 0 {
        m
    } else {
        cache_after_insert(cache_after_all(m, cs.drop_last()), cs.last())
    }
}

/// Once a host has a certificate, asking again gives that same certificate
/// and leaves the cache as it is; the certificate's subject is the host.
pub proof fn lemma_second_request_reuses(m: Map<Seq<char>, CachedCertificateView>, c1: CachedCertificateView, c2: CachedCertificateView)
    requires
        keyed_by_host(m),
        c1.host == c2.host,
    ensures
        keyed_by_host(cache_after_insert(m, c1)),
        cache_after_insert(m, c1).contains_key(c1.host),
        cache_after_insert(cache_after_insert(m, c1), c2) == cache_after_insert(m, c1),
        kept_certificate(cache_after_insert(m, c1), c2) == kept_certificate(m, c1),
        kept_certificate(m, c1).host == c1.host,
{
}

/// When several callers that missed the cache for one host each sign a
/// certificate and offer it, the first offer wins: every caller is handed
/// that one certificate, and the cache holds exactly it for the host.
pub proof fn lemma_single_winner(m: Map<Seq<char>, CachedCertificateView>, cs: Seq<CachedCertificateView>, h: Seq<char>)
    requires
        !m.contains_key(h),
        cs.len() > 0,
        forall|i: int| 0 <= i < cs.len() ==> #[trigger] cs[i].host == h,
    ensures
        cache_after_all(m, cs) == m.insert(h, cs[0]),
        forall|i: int| 0 <= i < cs.len() ==> #[trigger] kept_certificate(cache_after_all(m, cs.take(i)), cs[i]) == cs[0],
    decreases cs.len(),
{
    if cs.len() == 1 {
        assert(cs.drop_last() =~= Seq::<CachedCertificateView>::empty());
        assert(cs.take(0) =~= Seq::<CachedCertificateView>::empty());
        assert(cs.last() == cs[0]);
        assert(cache_after_all(m, cs.drop_last()) == m);
    } else {
        let prefix = cs.drop_last();
        lemma_single_winner(m, prefix, h);
        assert(prefix[0] == cs[0]);
        assert(cs.last().host == h);
        assert(m.insert(h, cs[0]).contains_key(h));
        assert forall|i: int| 0 <= i < cs.len() implies #[trigger] kept_certificate(cache_after_all(m, cs.take(i)), cs[i]) == cs[0] by {
            if i == 0 {
                assert(cs.take(0) =~= Seq::<CachedCertificateView>::empty());
            } else if i < prefix.len() {
                assert(cs.take(i) =~= prefix.take(i));
                assert(prefix[i] == cs[i]);
            } else {
                assert(cs.take(i) =~= prefix);
            }
        }
    }
}

/// The per-host certificate cache: at most one certificate per host, kept
/// for the life of the process.
#[derive(Debug)]
pub struct CertCache {
    entries: Vec<CachedCertificate>,
}

/// The answer to a certificate request: the cached certificate, or the plan
/// of the one to sign.
#[derive(Debug)]
pub enum CertLookup {
    Cached(CachedCertificate),
    Sign(LeafPlan),
}

impl CertCache {
    /// The cached certificate of each host.
    pub closed spec fn certificates(&self) -> Map<Seq<char>, CachedCertificateView> {
        Map::new(
            |h: Seq<char>| exists|i: int| 0 <= i < self.entries@.len() && #[trigger] self.entries@[i]@.host == h,
            |h: Seq<char>| self.entries@[choose|i: int| 0 <= i < self.entries@.len() && #[trigger] self.entries@[i]@.host == h]@,
        )
    }

    pub closed spec fn wf(&self) -> bool {
        forall|i: int, j: int| 0 <= i < j < self.entries@.len() ==> #[trigger] self.entries@[i]@.host != #[trigger] self.entries@[j]@.host
    }

    pub fn new() -> (r: CertCache)
        ensures
            r.wf(),
            r.certificates() == Map::<Seq<char>, CachedCertificateView>::empty(),
    {
        let r = CertCache { entries: Vec::new() };
        assert(r.certificates() =~= Map::<Seq<char>, CachedCertificateView>::empty());
        r
    }

    /// Every certificate in a well-formed cache is stored under its own host.
    pub proof fn lemma_keyed_by_host(&self)
        requires
            self.wf(),
        ensures
            keyed_by_host(self.certificates()),
    {
        assert forall|h: Seq<char>| #[trigger] self.certificates().contains_key(h) implies self.certificates()[h].host == h by {
            let k = choose|k: int| 0 <= k < self.entries@.len() && #[trigger] self.entries@[k]@.host == h;
            self.lemma_entry(k);
        }
    }

    proof fn lemma_entry(&self, i: int)
        requires
            self.wf(),
            0 <= i < self.entries@.len(),
        ensures
            self.certificates().contains_key(self.entries@[i]@.host),
            self.certificates()[self.entries@[i]@.host] == self.entries@[i]@,
    {
        let h = self.entries@[i]@.host;
        let k = choose|k: int| 0 <= k < self.entries@.len() && #[trigger] self.entries@[k]@.host == h;
        assert(k == i);
    }

    fn position(&self, host: &str) -> (r: Option<usize>)
        requires
            self.wf(),
        ensures
            match r {
                Some(i) => i < self.entries@.len() && self.entries@[i as int]@.host == host@,
                None => !self.certificates().contains_key(host@),
            },
    {
        let mut i: usize = 0;
        while i < self.entries.len()
            invariant
                i <= self.entries@.len(),
                forall|j: int| 0 <= j < i ==> self.entries@[j]@.host != host@,
            decreases self.entries@.len() - i,
        {
            if same_text(self.entries[i].host.as_str(), host) {
                return Some(i);
            }
            i = i + 1;
        }
        None
    }

    /// The cached certificate of `host`, if there is one.
    pub fn lookup(&self, host: &str) -> (r: Option<CachedCertificate>)
        requires
            self.wf(),
        ensures
            match r {
                Some(c) => self.certificates().contains_key(host@) && c@ == self.certificates()[host@] && c@.host == host@,
                None => !self.certificates().contains_key(host@),
            },
    {
        match self.position(host) {
            Some(i) => {
                proof { self.lemma_entry(i as int); }
                Some(self.entries[i].duplicate())
            },
            None => None,
        }
    }

    /// Answers a certificate request for `host` at time `now`: the cached
    /// certificate when there is one, else the plan of the leaf to sign.
    pub fn get_certificate(&self, host: &str, now: u64, root: RootValidity) -> (r: Result<CertLookup, CertificateError>)
        requires
            self.wf(),
        ensures
            self.certificates().contains_key(host@) ==> (r matches Ok(CertLookup::Cached(c)) && c@ == self.certificates()[host@]),
            !self.certificates().contains_key(host@) && !valid_host(host@) ==> r == Err::<CertLookup, CertificateError>(CertificateError::InvalidHost),
            !self.certificates().contains_key(host@) && valid_host(host@) && !(root.not_before <= now < root.not_after)
                ==> r == Err::<CertLookup, CertificateError>(CertificateError::RootNotValid),
            !self.certificates().contains_key(host@) && valid_host(host@) && root.not_before <= now < root.not_after
                ==> (r matches Ok(CertLookup::Sign(p)) && p.subject@ == host@ && p.not_before == now
                    && p.not_after == leaf_not_after(now, root) && p.server_auth_only),
    {
        match self.lookup(host) {
            Some(c) => Ok(CertLookup::Cached(c)),
            None => match plan_leaf(host, now, root) {
                Ok(p) => Ok(CertLookup::Sign(p)),
                Err(e) => Err(e),
            },
        }
    }

    /// Stores a freshly signed certificate unless one for the same host is
    /// already cached, and returns the certificate that the cache keeps: when
    /// two callers sign for one host, the first to insert wins and both get
    /// its certificate.
    pub fn insert_or_keep(&mut self, cert: CachedCertificate) -> (r: CachedCertificate)
        requires
            old(self).wf(),
        ensures
            final(self).wf(),
            old(self).certificates().contains_key(cert@.host) ==> final(self).certificates() == old(self).certificates()
                && r@ == old(self).certificates()[cert@.host],
            !old(self).certificates().contains_key(cert@.host) ==> final(self).certificates() == old(self).certificates().insert(cert@.host, cert@)
                && r@ == cert@,
            final(self).certificates() == cache_after_insert(old(self).certificates(), cert@),
            r@ == kept_certificate(old(self).certificates(), cert@),
    {
        match self.position(cert.host.as_str()) {
            Some(i) => {
                proof { self.lemma_entry(i as int); }
                self.entries[i].duplicate()
            },
            None => {
                let ghost before = *self;
                let copy = cert.duplicate();
                self.entries.push(cert);
                proof {
                    let n = before.entries@.len() as int;
                    assert(self.entries@[n]@ == copy@);
                    assert forall|i: int, j: int| 0 <= i < j < self.entries@.len() implies #[trigger] self.entries@[i]@.host != #[trigger] self.entries@[j]@.host by {
                        if j == n {
                            assert(before.entries@[i] == self.entries@[i]);
                            if self.entries@[i]@.host == copy@.host {
                                before.lemma_entry(i);
                            }
                        } else {
                            assert(before.entries@[i] == self.entries@[i]);
                            assert(before.entries@[j] == self.entries@[j]);
                        }
                    }
                    let m = before.certificates().insert(copy@.host, copy@);
                    assert forall|h: Seq<char>| #[trigger] self.certificates().contains_key(h) == m.contains_key(h) by {
                        if self.certificates().contains_key(h) {
                            let k = choose|k: int| 0 <= k < self.entries@.len() && #[trigger] self.entries@[k]@.host == h;
                            if k < n {
                                assert(before.entries@[k] == self.entries@[k]);
                                before.lemma_entry(k);
                            }
                        }
                        if before.certificates().contains_key(h) {
                            let k = choose|k: int| 0 <= k < before.entries@.len() && #[trigger] before.entries@[k]@.host == h;
                            assert(before.entries@[k] == self.entries@[k]);
                        }
                        if h == copy@.host {
                            assert(self.entries@[n]@.host == h);
                        }
                    }
                    assert forall|h: Seq<char>| #[trigger] self.certificates().contains_key(h) implies self.certificates()[h] == m[h] by {
                        let k = choose|k: int| 0 <= k < self.entries@.len() && #[trigger] self.entries@[k]@.host == h;
                        self.lemma_entry(k);
                        if k < n {
                            assert(before.entries@[k] == self.entries@[k]);
                            before.lemma_entry(k);
                        }
                    }
                    assert(self.certificates() =~= m);
                }
                copy
            },
        }
    }
}

} // verus!
