//! Building the bytes of an HTTP/1.1 request.
use vstd::prelude::*;
use crate::bytes::{append, crlf, crlf_bytes, decimal, push_decimal, COLON, SPACE};

verus! {

/// ` HTTP/1.1`
pub open spec fn version_text() -> Seq<u8> {
    seq![32u8, 72u8, 84u8, 84u8, 80u8, 47u8, 49u8, 46u8, 49u8]
}

/// ` HTTP/1.1\r\n`, which ends the request line.
pub open spec fn version_line() -> Seq<u8> {
    version_text() + crlf()
}

fn version_line_bytes() -> (r: Vec<u8>)
    ensures
        r@ == version_line(),
{
    let r = vec![32u8, 72u8, 84u8, 84u8, 80u8, 47u8, 49u8, 46u8, 49u8, 13u8, 10u8];
    assert(r@ =~= version_line());
    r
}

/// `Host: `
pub open spec fn host_prefix() -> Seq<u8> {
    seq![72u8, 111u8, 115u8, 116u8, 58u8, 32u8]
}

fn host_prefix_bytes() -> (r: Vec<u8>)
    ensures
        r@ == host_prefix(),
{
    let r = vec![72u8, 111u8, 115u8, 116u8, 58u8, 32u8];
    assert(r@ =~= host_prefix());
    r
}

/// `User-Agent: curl/1.0`, the client identifier.
pub open spec fn agent_text() -> Seq<u8> {
    seq![85u8, 115u8, 101u8, 114u8, 45u8, 65u8, 103u8, 101u8, 110u8, 116u8, 58u8, 32u8, 99u8, 117u8, 114u8, 108u8, 47u8, 49u8, 46u8, 48u8]
}

pub open spec fn agent_line() -> Seq<u8> {
    agent_text() + crlf()
}

fn agent_line_bytes() -> (r: Vec<u8>)
    ensures
        r@ == agent_line(),
{
    let r = vec![85u8, 115u8, 101u8, 114u8, 45u8, 65u8, 103u8, 101u8, 110u8, 116u8, 58u8, 32u8, 99u8, 117u8, 114u8, 108u8, 47u8, 49u8, 46u8, 48u8, 13u8, 10u8];
    assert(r@ =~= agent_line());
    r
}

/// `Accept: */*`
pub open spec fn accept_text() -> Seq<u8> {
    seq![65u8, 99u8, 99u8, 101u8, 112u8, 116u8, 58u8, 32u8, 42u8, 47u8, 42u8]
}

pub open spec fn accept_line() -> Seq<u8> {
    accept_text() + crlf()
}

fn accept_line_bytes() -> (r: Vec<u8>)
    ensures
        r@ == accept_line(),
{
    let r = vec![65u8, 99u8, 99u8, 101u8, 112u8, 116u8, 58u8, 32u8, 42u8, 47u8, 42u8, 13u8, 10u8];
    assert(r@ =~= accept_line());
    r
}

/// `Content-Length: `
pub open spec fn length_prefix() -> Seq<u8> {
    seq![67u8, 111u8, 110u8, 116u8, 101u8, 110u8, 116u8, 45u8, 76u8, 101u8, 110u8, 103u8, 116u8, 104u8, 58u8, 32u8]
}

fn length_prefix_bytes() -> (r: Vec<u8>)
    ensures
        r@ == length_prefix(),
{
    let r = vec![67u8, 111u8, 110u8, 116u8, 101u8, 110u8, 116u8, 45u8, 76u8, 101u8, 110u8, 103u8, 116u8, 104u8, 58u8, 32u8];
    assert(r@ =~= length_prefix());
    r
}

/// `POST`
pub open spec fn post() -> Seq<u8> {
    seq![80u8, 79u8, 83u8, 84u8]
}

fn post_bytes() -> (r: Vec<u8>)
    ensures
        r@ == post(),
{
    let r = vec![80u8, 79u8, 83u8, 84u8];
    assert(r@ =~= post());
    r
}

/// `GET`
pub open spec fn get() -> Seq<u8> {
    seq![71u8, 69u8, 84u8]
}

fn get_bytes() -> (r: Vec<u8>)
    ensures
        r@ == get(),
{
    let r = vec![71u8, 69u8, 84u8];
    assert(r@ =~= get());
    r
}

/// What one request consists of.
pub struct RequestSpec {
    /// The method, used as given.
    pub method: Vec<u8>,
    pub host: Vec<u8>,
    pub port: u16,
    /// The path and query, beginning with `/`.
    pub path_query: Vec<u8>,
    /// Raw header lines, each sent as given and in this order.
    pub headers: Vec<Vec<u8>>,
    /// The body; empty where there is none.
    pub body: Vec<u8>,
}

/// The method sent: the one given, else `POST` where there is a body and `GET` where there is none.
pub open spec fn chosen_method(explicit: Option<Seq<u8>>, body: Seq<u8>) -> Seq<u8> {
    match explicit {
        Some(m) => m,
        None => if body.len() > 0 {
            post()
        } else {
            get()
        },
    }
}

/// The method to send, from the one given (if any) and the body.
pub fn effective_method(explicit: Option<Vec<u8>>, body: &[u8]) -> (r: Vec<u8>)
    ensures
        r@ == chosen_method(explicit.deep_view(), body@),
{
    match explicit {
        Some(m) => m,
        None => if body.len() > 0 {
            post_bytes()
        } else {
            get_bytes()
        },
    }
}

/// Ports 80 and 443 are implied and left out of the Host header, whatever the scheme.
pub open spec fn port_is_implied(port: u16) -> bool {
    port == 80 || port == 443
}

/// `{METHOD} {path_query} HTTP/1.1\r\n`
pub open spec fn request_line(method: Seq<u8>, path_query: Seq<u8>) -> Seq<u8> {
    method + seq![SPACE] + path_query + version_line()
}

/// `Host: {host}\r\n` for an implied port, else `Host: {host}:{port}\r\n`.
pub open spec fn host_line(host: Seq<u8>, port: u16) -> Seq<u8> {
    if port_is_implied(port) {
        host_prefix() + host + crlf()
    } else {
        host_prefix() + host + seq![COLON] + decimal(port as nat) + crlf()
    }
}

/// Each header line followed by `\r\n`, in order.
pub open spec fn header_lines(headers: Seq<Seq<u8>>) -> Seq<u8>
    decreases headers.len(),
{
    if headers.len() == 0 {
        Seq::empty()
    } else {
        header_lines(headers.drop_last()) + headers.last() + crlf()
    }
}

/// `Content-Length: {n}\r\n` for a body of `n > 0` bytes; nothing for an empty body.
pub open spec fn length_line(body: Seq<u8>) -> Seq<u8> {
    if body.len() == 0 {
        Seq::empty()
    } else {
        length_prefix() + decimal(body.len()) + crlf()
    }
}

/// The header block of a request, up to and including the blank line.
pub open spec fn request_head(
    method: Seq<u8>,
    host: Seq<u8>,
    port: u16,
    path_query: Seq<u8>,
    headers: Seq<Seq<u8>>,
    body: Seq<u8>,
) -> Seq<u8> {
    request_line(method, path_query) + host_line(host, port) + agent_line() + accept_line()
        + header_lines(headers) + length_line(body) + crlf()
}

impl RequestSpec {
    /// The bytes of the request.
    pub open spec fn wire(&self) -> Seq<u8> {
        request_head(
            self.method@,
            self.host@,
            self.port,
            self.path_query@,
            self.headers.deep_view(),
            self.body@,
        ) + self.body@
    }
}

/// Appends the Host header line for `host` and `port`.
pub fn push_host_line(out: &mut Vec<u8>, host: &[u8], port: u16)
    ensures
        final(out)@ == old(out)@ + host_line(host@, port),
{
    let ghost start = out@;
    append(out, host_prefix_bytes().as_slice());
    append(out, host);
    if !(port == 80 || port == 443) {
        out.push(COLON);
        push_decimal(out, port as u64);
    }
    append(out, crlf_bytes().as_slice());
    assert(out@ =~= start + host_line(host@, port));
}

/// The exact bytes to send for `spec`.
pub fn build_request(spec: &RequestSpec) -> (r: Vec<u8>)
    ensures
        r@ == spec.wire(),
{
    let mut out: Vec<u8> = Vec::new();
    append(&mut out, spec.method.as_slice());
    out.push(SPACE);
    append(&mut out, spec.path_query.as_slice());
    append(&mut out, version_line_bytes().as_slice());
    assert(out@ =~= request_line(spec.method@, spec.path_query@));
    push_host_line(&mut out, spec.host.as_slice(), spec.port);
    append(&mut out, agent_line_bytes().as_slice());
    append(&mut out, accept_line_bytes().as_slice());
    let ghost before_headers = out@;
    let mut i: usize = 0;
    while i < spec.headers.len()
        invariant
            i <= spec.headers@.len(),
            out@ == before_headers + header_lines(spec.headers.deep_view().subrange(0, i as int)),
        decreases spec.headers@.len() - i,
    {
        append(&mut out, spec.headers[i].as_slice());
        append(&mut out, crlf_bytes().as_slice());
        let ghost hs = spec.headers.deep_view().subrange(0, i + 1);
        assert(hs.drop_last() =~= spec.headers.deep_view().subrange(0, i as int));
        assert(hs.last() == spec.headers[i as int]@);
        i = i + 1;
        assert(out@ =~= before_headers + header_lines(spec.headers.deep_view().subrange(0, i as int)));
    }
    assert(spec.headers.deep_view().subrange(0, i as int) =~= spec.headers.deep_view());
    if spec.body.len() > 0 {
        append(&mut out, length_prefix_bytes().as_slice());
        push_decimal(&mut out, spec.body.len() as u64);
        append(&mut out, crlf_bytes().as_slice());
    }
    append(&mut out, crlf_bytes().as_slice());
    append(&mut out, spec.body.as_slice());
    assert(out@ =~= spec.wire());
    out
}

/// With a body and no method given the method is `POST`; a method that is
/// given is kept, body or not.
pub proof fn lemma_method_default(given: Seq<u8>, body: Seq<u8>)
    requires
        body.len() > 0,
    ensures
        chosen_method(None, body) == post(),
        chosen_method(Some(given), body) == given,
{
}

/// The Host header leaves the port out for 80 and 443, and writes it after a
/// colon for every other port.
pub proof fn lemma_port_omission(host: Seq<u8>, port: u16)
    ensures
        port_is_implied(port) ==> host_line(host, port) == host_prefix() + host + crlf(),
        !port_is_implied(port) ==> host_line(host, port) == host_prefix() + host + seq![COLON]
            + decimal(port as nat) + crlf(),
        !port_is_implied(port) ==> host_line(host, port).len() > host_prefix().len() + host.len() + 3,
{
    if !port_is_implied(port) {
        crate::bytes::lemma_decimal_parses(port as nat, 65535);
    }
}

/// The request's bytes, read back in order, are the request line, the Host
/// header, the fixed headers, the given header lines, the length header (only
/// for a non-empty body), the blank line and the body.
pub proof fn lemma_request_sections(spec: RequestSpec)
    ensures
        ({
            let w = spec.wire();
            let a = request_line(spec.method@, spec.path_query@);
            let b = a + host_line(spec.host@, spec.port);
            let c = b + agent_line() + accept_line();
            let d = c + header_lines(spec.headers.deep_view());
            let e = d + length_line(spec.body@);
            let f = e + crlf();
            &&& w.subrange(0, a.len() as int) == a
            &&& w.subrange(a.len() as int, b.len() as int) == host_line(spec.host@, spec.port)
            &&& w.subrange(b.len() as int, c.len() as int) == agent_line() + accept_line()
            &&& w.subrange(c.len() as int, d.len() as int) == header_lines(spec.headers.deep_view())
            &&& w.subrange(d.len() as int, e.len() as int) == length_line(spec.body@)
            &&& w.subrange(e.len() as int, f.len() as int) == crlf()
            &&& w.subrange(f.len() as int, w.len() as int) == spec.body@
            &&& (length_line(spec.body@).len() > 0 <==> spec.body@.len() > 0)
        }),
{
    let w = spec.wire();
    let a = request_line(spec.method@, spec.path_query@);
    let b = a + host_line(spec.host@, spec.port);
    let c = b + agent_line() + accept_line();
    let d = c + header_lines(spec.headers.deep_view());
    let e = d + length_line(spec.body@);
    let f = e + crlf();
    assert(w =~= f + spec.body@);
    assert(w.subrange(0, a.len() as int) =~= a);
    assert(w.subrange(a.len() as int, b.len() as int) =~= host_line(spec.host@, spec.port));
    assert(w.subrange(b.len() as int, c.len() as int) =~= agent_line() + accept_line());
    assert(w.subrange(c.len() as int, d.len() as int) =~= header_lines(spec.headers.deep_view()));
    assert(w.subrange(d.len() as int, e.len() as int) =~= length_line(spec.body@));
    assert(w.subrange(e.len() as int, f.len() as int) =~= crlf());
    assert(w.subrange(f.len() as int, w.len() as int) =~= spec.body@);
}

} // verus!
