//! Splitting an `http://` or `https://` URL into host, port and path.
use vstd::prelude::*;
use vstd::slice::{slice_subrange, slice_to_vec};
use crate::bytes::{
    decimal, find, find_byte, has_prefix, lemma_decimal_parses, lemma_find_is, lemma_find_none,
    parse_decimal, parse_unsigned, starts_with, COLON, SLASH,
};

verus! {

pub const HASH: u8 = 35;

/// `http://`
pub open spec fn http_scheme() -> Seq<u8> {
    seq![104u8, 116u8, 116u8, 112u8, 58u8, 47u8, 47u8]
}

/// `https://`
pub open spec fn https_scheme() -> Seq<u8> {
    seq![104u8, 116u8, 116u8, 112u8, 115u8, 58u8, 47u8, 47u8]
}

fn http_scheme_bytes() -> (r: Vec<u8>)
    ensures
        r@ == http_scheme(),
{
    let r = vec![104u8, 116u8, 116u8, 112u8, 58u8, 47u8, 47u8];
    assert(r@ =~= http_scheme());
    r
}

fn https_scheme_bytes() -> (r: Vec<u8>)
    ensures
        r@ == https_scheme(),
{
    let r = vec![104u8, 116u8, 116u8, 112u8, 115u8, 58u8, 47u8, 47u8];
    assert(r@ =~= https_scheme());
    r
}

/// Why a URL was refused.
#[derive(Clone, Copy, Debug, PartialEq, Eq)]
pub enum UrlError {
    /// The URL starts with neither `http://` nor `https://`.
    InvalidScheme,
    /// The text after the `:` of the authority is not a 16-bit unsigned number.
    InvalidPort,
}

/// The parts of a URL that a request needs.
pub struct UrlParts {
    pub host: Vec<u8>,
    pub port: u16,
    /// The path and query, beginning with `/`.
    pub path_query: Vec<u8>,
}

/// `s` up to its first `#`.
pub open spec fn without_fragment(s: Seq<u8>) -> Seq<u8> {
    match find(s, HASH) {
        Some(i) => s.subrange(0, i),
        None => s,
    }
}

/// `s` split at its first `/` into authority and path; the path is `/` where there is none.
pub open spec fn split_path(s: Seq<u8>) -> (Seq<u8>, Seq<u8>) {
    match find(s, SLASH) {
        Some(i) => (s.subrange(0, i), s.subrange(i, s.len() as int)),
        None => (s, seq![SLASH]),
    }
}

/// What `parse_url` yields for `u`: host, port and path with query.
pub open spec fn url_target(u: Seq<u8>) -> Result<(Seq<u8>, u16, Seq<u8>), UrlError> {
    if !has_prefix(u, http_scheme()) && !has_prefix(u, https_scheme()) {
        Err(UrlError::InvalidScheme)
    } else {
        let https = !has_prefix(u, http_scheme());
        let rest = if https {
            u.subrange(8, u.len() as int)
        } else {
            u.subrange(7, u.len() as int)
        };
        let (authority, path) = split_path(without_fragment(rest));
        match find(authority, COLON) {
            Some(c) => match parse_unsigned(authority.subrange(c + 1, authority.len() as int), 65535) {
                Some(p) => Ok((authority.subrange(0, c), p as u16, path)),
                None => Err(UrlError::InvalidPort),
            },
            None => Ok((authority, if https { 443u16 } else { 80u16 }, path)),
        }
    }
}

/// Splits `url` into host, port and path with query. The fragment is dropped,
/// the path defaults to `/`, and the port to 80 for `http://` and 443 for `https://`.
pub fn parse_url(url: &[u8]) -> (r: Result<UrlParts, UrlError>)
    ensures
        match r {
            Ok(p) => url_target(url@) == Ok::<_, UrlError>((p.host@, p.port, p.path_query@)),
            Err(e) => url_target(url@) == Err::<(Seq<u8>, u16, Seq<u8>), _>(e),
        },
{
    let http = http_scheme_bytes();
    let https = https_scheme_bytes();
    let is_http = starts_with(url, http.as_slice());
    let skip: usize;
    if is_http {
        skip = 7;
    } else if starts_with(url, https.as_slice()) {
        skip = 8;
    } else {
        return Err(UrlError::InvalidScheme);
    }
    let rest = slice_subrange(url, skip, url.len());
    let unfragmented = match find_byte(rest, HASH) {
        Some(i) => slice_subrange(rest, 0, i),
        None => rest,
    };
    assert(unfragmented@ == without_fragment(rest@));
    let authority;
    let path_query;
    match find_byte(unfragmented, SLASH) {
        Some(i) => {
            authority = slice_subrange(unfragmented, 0, i);
            path_query = slice_to_vec(slice_subrange(unfragmented, i, unfragmented.len()));
        },
        None => {
            authority = unfragmented;
            path_query = vec![SLASH];
            assert(path_query@ =~= seq![SLASH]);
        },
    }
    assert((authority@, path_query@) == split_path(without_fragment(rest@)));
    match find_byte(authority, COLON) {
        Some(c) => {
            let port_text = slice_subrange(authority, c + 1, authority.len());
            match parse_decimal(port_text, 65535) {
                Some(p) => Ok(
                    UrlParts {
                        host: slice_to_vec(slice_subrange(authority, 0, c)),
                        port: p as u16,
                        path_query,
                    },
                ),
                None => Err(UrlError::InvalidPort),
            }
        },
        None => Ok(
            UrlParts {
                host: slice_to_vec(authority),
                port: if is_http { 80 } else { 443 },
                path_query,
            },
        ),
    }
}

/// The URL `scheme://host[:port]path`.
pub open spec fn compose_url(https: bool, host: Seq<u8>, port: Option<u16>, path: Seq<u8>) -> Seq<u8> {
    (if https {
        https_scheme()
    } else {
        http_scheme()
    }) + host + match port {
        Some(p) => seq![COLON] + decimal(p as nat),
        None => Seq::empty(),
    } + path
}

pub open spec fn lacks(s: Seq<u8>, b: u8) -> bool {
    forall|i: int| 0 <= i < s.len() ==> s[i] != b
}

/// A URL `scheme://host[:port]path` whose host holds no `:`, `/` or `#`, and
/// whose path is empty or starts with `/` and holds no `#`, gives back exactly
/// its host, its port (else the scheme's default) and its path (else `/`).
pub proof fn lemma_url_round_trip(https: bool, host: Seq<u8>, port: Option<u16>, path: Seq<u8>)
    requires
        lacks(host, COLON),
        lacks(host, SLASH),
        lacks(host, HASH),
        lacks(path, HASH),
        path.len() == 0 || path[0] == SLASH,
    ensures
        url_target(compose_url(https, host, port, path)) == Ok::<_, UrlError>((
            host,
            match port {
                Some(p) => p,
                None => if https {
                    443u16
                } else {
                    80u16
                },
            },
            if path.len() == 0 {
                seq![SLASH]
            } else {
                path
            },
        )),
{
    let u = compose_url(https, host, port, path);
    let scheme = if https {
        https_scheme()
    } else {
        http_scheme()
    };
    let port_part = match port {
        Some(p) => seq![COLON] + decimal(p as nat),
        None => Seq::<u8>::empty(),
    };
    if let Some(p) = port {
        lemma_decimal_parses(p as nat, 65535);
    }
    assert(lacks(port_part, HASH) && lacks(port_part, SLASH));
    let rest = host + port_part + path;
    assert(u =~= scheme + rest);
    assert(u.subrange(0, scheme.len() as int) =~= scheme);
    if https {
        assert(u[4] != http_scheme()[4]);
        assert(!has_prefix(u, http_scheme()));
    }
    assert(u.subrange(scheme.len() as int, u.len() as int) =~= rest);
    lemma_find_none(rest, HASH);
    let authority = host + port_part;
    if path.len() == 0 {
        assert(rest =~= authority);
        lemma_find_none(rest, SLASH);
    } else {
        assert(rest.subrange(0, authority.len() as int) =~= authority);
        assert(rest.subrange(authority.len() as int, rest.len() as int) =~= path);
        assert(rest[authority.len() as int] == SLASH);
        lemma_find_is(rest, SLASH, authority.len() as int);
    }
    assert(split_path(without_fragment(rest)) == (authority, if path.len() == 0 {
        seq![SLASH]
    } else {
        path
    }));
    match port {
        Some(p) => {
            assert(authority[host.len() as int] == COLON);
            lemma_find_is(authority, COLON, host.len() as int);
            assert(authority.subrange(0, host.len() as int) =~= host);
            assert(authority.subrange(host.len() + 1int, authority.len() as int) =~= decimal(p as nat));
        },
        None => {
            assert(authority =~= host);
            lemma_find_none(authority, COLON);
        },
    }
}

} // verus!
