//! Scheme inference: the ordered candidate URLs tried for one input line.

use vstd::prelude::*;
use vstd::string::{StrSliceExecFns, StringExecFns};

verus! {

pub open spec fn https_scheme() -> Seq<char> {
    seq!['h', 't', 't', 'p', 's', ':', '/', '/']
}

pub open spec fn http_scheme() -> Seq<char> {
    seq!['h', 't', 't', 'p', ':', '/', '/']
}

pub open spec fn port_80_suffix() -> Seq<char> {
    seq![':', '8', '0']
}

pub open spec fn port_443_suffix() -> Seq<char> {
    seq![':', '4', '4', '3']
}

pub open spec fn starts_with(s: Seq<char>, p: Seq<char>) -> bool {
    p.len() <= s.len() && s.subrange(0, p.len() as int) == p
}

pub open spec fn ends_with(s: Seq<char>, p: Seq<char>) -> bool {
    p.len() <= s.len() && s.subrange(s.len() - p.len(), s.len() as int) == p
}

/// The input already names its scheme.
pub open spec fn has_scheme(host: Seq<char>) -> bool {
    starts_with(host, https_scheme()) || starts_with(host, http_scheme())
}

/// The candidate URLs for one input, in the order they are tried: the input
/// itself when it names a scheme; otherwise https then http, without https
/// when the host ends in port 80 and without http when it ends in port 443.
pub open spec fn url_variants(host: Seq<char>) -> Seq<Seq<char>> {
    if has_scheme(host) {
        seq![host]
    } else if ends_with(host, port_80_suffix()) {
        seq![http_scheme() + host]
    } else if ends_with(host, port_443_suffix()) {
        seq![https_scheme() + host]
    } else {
        seq![https_scheme() + host, http_scheme() + host]
    }
}

fn has_prefix(s: &str, p: &str) -> (r: bool)
    ensures
        r == starts_with(s@, p@),
{
    let n = s.unicode_len();
    let m = p.unicode_len();
    if m > n {
        return false;
    }
    let mut i: usize = 0;
    while i < m
        invariant
            m == p@.len(),
            n == s@.len(),
            m <= n,
            i <= m,
            forall|k: int| 0 <= k < i ==> s@[k] == p@[k],
        decreases m - i,
    {
        if s.get_char(i) != p.get_char(i) {
            assert(s@.subrange(0, m as int)[i as int] != p@[i as int]);
            return false;
        }
        i = i + 1;
    }
    assert(s@.subrange(0, m as int) =~= p@);
    true
}

fn has_suffix(s: &str, p: &str) -> (r: bool)
    ensures
        r == ends_with(s@, p@),
{
    let n = s.unicode_len();
    let m = p.unicode_len();
    if m > n {
        return false;
    }
    let off = n - m;
    let mut i: usize = 0;
    while i < m
        invariant
            m == p@.len(),
            n == s@.len(),
            m <= n,
            off == n - m,
            i <= m,
            forall|k: int| 0 <= k < i ==> s@[off + k] == p@[k],
        decreases m - i,
    {
        if s.get_char(off + i) != p.get_char(i) {
            assert(s@.subrange(off as int, n as int)[i as int] != p@[i as int]);
            return false;
        }
        i = i + 1;
    }
    assert(s@.subrange(off as int, n as int) =~= p@);
    true
}

fn with_scheme(scheme: &str, host: &str) -> (r: String)
    ensures
        r@ == scheme@ + host@,
{
    let s = String::from_str(scheme);
    s.concat(host)
}

/// The candidate URLs for `host`, in the order they are to be tried.
pub fn get_url_variants(host: String) -> (r: Vec<String>)
    ensures
        r@.map_values(|u: String| u@) == url_variants(host@),
{
    proof {
        reveal_strlit("https://");
        reveal_strlit("http://");
        reveal_strlit(":80");
        reveal_strlit(":443");
        assert("https://"@ =~= https_scheme());
        assert("http://"@ =~= http_scheme());
        assert(":80"@ =~= port_80_suffix());
        assert(":443"@ =~= port_443_suffix());
    }
    let h = host.as_str();
    let r = if has_prefix(h, "https://") || has_prefix(h, "http://") {
        vec![host]
    } else if has_suffix(h, ":80") {
        vec![with_scheme("http://", h)]
    } else if has_suffix(h, ":443") {
        vec![with_scheme("https://", h)]
    } else {
        vec![with_scheme("https://", h), with_scheme("http://", h)]
    };
    assert(r@.map_values(|u: String| u@) =~= url_variants(host@));
    r
}

/// An input that names its scheme is its only candidate. Any other input
/// gets https then http, in that order, less the one its port excludes; the
/// candidates never repeat.
pub proof fn lemma_candidate_order(host: Seq<char>)
    ensures
        has_scheme(host) ==> url_variants(host) == seq![host],
        !has_scheme(host) ==> 1 <= url_variants(host).len() <= 2,
        !has_scheme(host) && url_variants(host).len() == 2 ==> url_variants(host) == seq![
            https_scheme() + host,
            http_scheme() + host,
        ],
        !has_scheme(host) && url_variants(host).len() == 1 ==> (url_variants(host)[0]
            == https_scheme() + host || url_variants(host)[0] == http_scheme() + host),
        url_variants(host).no_duplicates(),
{
    assert((https_scheme() + host).len() != (http_scheme() + host).len());
}

/// A host ending in port 80 gets no https candidate; one ending in port 443
/// gets no http candidate.
pub proof fn lemma_port_exclusion(host: Seq<char>)
    ensures
        ends_with(host, port_80_suffix()) ==> !url_variants(host).contains(https_scheme() + host),
        ends_with(host, port_443_suffix()) ==> !url_variants(host).contains(http_scheme() + host),
{
    let https = https_scheme() + host;
    let http = http_scheme() + host;
    assert(https.len() != host.len());
    assert(http.len() != host.len());
    assert(https.len() != http.len());
    if ends_with(host, port_80_suffix()) {
        assert(host.subrange(host.len() - 3, host.len() as int)[2] == '0');
        assert(!ends_with(host, port_443_suffix()));
        if url_variants(host).contains(https) {
            let k = choose|k: int| 0 <= k < url_variants(host).len() && url_variants(host)[k] == https;
        }
    }
    if ends_with(host, port_443_suffix()) {
        if url_variants(host).contains(http) {
            let k = choose|k: int| 0 <= k < url_variants(host).len() && url_variants(host)[k] == http;
        }
    }
}

} // verus!
