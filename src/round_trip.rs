//! A request read back through the response framing: an echo of the request
//! bytes splits into exactly the header block and the body that were sent.
use vstd::prelude::*;
use crate::bytes::{
    crlf, decimal, is_digit, lemma_decimal_parses, lemma_find_is, lemma_find_none, COLON, CR, LF, SPACE,
};
use crate::request::{
    accept_line, accept_text, agent_line, agent_text, header_lines, host_line, host_prefix, length_line,
    length_prefix, port_is_implied, request_head, request_line, version_text, RequestSpec,
};
use crate::response::{
    body_part, content_length_name, content_length_value, declared_from, declared_length, ends_at,
    first_end, header_part, lemma_header_len_is, line_from, lower, names_content_length, trim, trim_end,
    trim_start,
};
use crate::url::lacks;

verus! {

/// Each line followed by `\r\n`, first line first.
pub open spec fn joined(ls: Seq<Seq<u8>>) -> Seq<u8>
    decreases ls.len(),
{
    if ls.len() == 0 {
        Seq::empty()
    } else {
        ls[0] + crlf() + joined(ls.subrange(1, ls.len() as int))
    }
}

/// A line of a header block: not empty, and free of `\r` and `\n`.
pub open spec fn is_plain_line(l: Seq<u8>) -> bool {
    l.len() > 0 && forall|i: int| 0 <= i < l.len() ==> #[trigger] l[i] != CR && l[i] != LF
}

pub open spec fn all_plain(ls: Seq<Seq<u8>>) -> bool {
    forall|k: int| 0 <= k < ls.len() ==> is_plain_line(#[trigger] ls[k])
}

proof fn lemma_joined_push(ls: Seq<Seq<u8>>, l: Seq<u8>)
    ensures
        joined(ls.push(l)) == joined(ls) + l + crlf(),
    decreases ls.len(),
{
    if ls.len() == 0 {
        assert(ls.push(l).subrange(1, 1) =~= Seq::<Seq<u8>>::empty());
        assert(joined(ls.push(l).subrange(1, 1)) =~= Seq::<u8>::empty());
        assert(ls.push(l)[0] == l);
        assert(joined(ls.push(l)) =~= l + crlf());
    } else {
        let rest = ls.subrange(1, ls.len() as int);
        lemma_joined_push(rest, l);
        assert(ls.push(l).subrange(1, ls.len() + 1int) =~= rest.push(l));
        assert(joined(ls.push(l)) =~= joined(ls) + l + crlf());
    }
}

proof fn lemma_header_lines_joined(hs: Seq<Seq<u8>>)
    ensures
        header_lines(hs) == joined(hs),
    decreases hs.len(),
{
    if hs.len() > 0 {
        lemma_header_lines_joined(hs.drop_last());
        lemma_joined_push(hs.drop_last(), hs.last());
        assert(hs.drop_last().push(hs.last()) =~= hs);
    }
}

proof fn lemma_joined_append(a: Seq<Seq<u8>>, b: Seq<Seq<u8>>)
    ensures
        joined(a + b) == joined(a) + joined(b),
    decreases a.len(),
{
    if a.len() == 0 {
        assert(a + b =~= b);
    } else {
        let rest = a.subrange(1, a.len() as int);
        lemma_joined_append(rest, b);
        assert((a + b).subrange(1, a.len() + b.len() as int) =~= rest + b);
        assert(joined(a + b) =~= joined(a) + joined(b));
    }
}

/// In joined plain lines every `\r` is followed by `\n` and then by the end or
/// by a byte other than `\r`.
proof fn lemma_cr_followed(ls: Seq<Seq<u8>>, p: int)
    requires
        all_plain(ls),
        0 <= p < joined(ls).len(),
        joined(ls)[p] == CR,
    ensures
        p + 1 < joined(ls).len(),
        joined(ls)[p + 1] == LF,
        p + 2 == joined(ls).len() || joined(ls)[p + 2] != CR,
    decreases ls.len(),
{
    let l0 = ls[0];
    let rest = ls.subrange(1, ls.len() as int);
    let j = joined(ls);
    assert(is_plain_line(l0));
    assert(j == l0 + crlf() + joined(rest));
    if p < l0.len() {
        assert(j[p] == l0[p]);
    } else if p == l0.len() {
        if rest.len() > 0 {
            assert(is_plain_line(rest[0]));
            assert(joined(rest) == rest[0] + crlf() + joined(rest.subrange(1, rest.len() as int)));
            assert(j[p + 2] == rest[0][0]);
        }
    } else {
        let q = p - l0.len() - 2;
        assert(j[p] == joined(rest)[q]);
        assert forall|k: int| 0 <= k < rest.len() implies is_plain_line(#[trigger] rest[k]) by {
            assert(rest[k] == ls[k + 1]);
        }
        lemma_cr_followed(rest, q);
    }
}

/// The first header terminator of `joined(ls) + "\r\n" + body` ends right
/// after the blank line.
pub proof fn lemma_blank_line_ends_head(ls: Seq<Seq<u8>>, body: Seq<u8>)
    requires
        ls.len() > 0,
        all_plain(ls),
    ensures
        ({
            let s = joined(ls) + crlf() + body;
            let n = joined(ls).len() + 2int;
            &&& ends_at(s, n)
            &&& forall|j: int| 0 <= j < n ==> !ends_at(s, j)
        }),
{
    let j = joined(ls);
    let s = j + crlf() + body;
    let n = j.len() + 2int;
    lemma_joined_push(ls.drop_last(), ls.last());
    assert(ls.drop_last().push(ls.last()) =~= ls);
    assert(s.subrange(n - 4, n) =~= seq![CR, LF, CR, LF]);
    assert forall|k: int| 0 <= k < n implies !ends_at(s, k) by {
        if ends_at(s, k) {
            assert(s.subrange(k - 4, k)[0] == CR);
            assert(s.subrange(k - 4, k)[2] == CR);
            assert(s[k - 4] == CR);
            assert(s[k - 2] == CR);
            assert(j[k - 4] == CR);
            lemma_cr_followed(ls, k - 4);
            assert(j[k - 2] == s[k - 2]);
        }
    }
}

proof fn lemma_line_names(l: Seq<u8>)
    ensures
        names_content_length(l + seq![CR]) == names_content_length(l),
{
    let t = l + seq![CR];
    if l.len() >= 15 {
        assert forall|i: int| 0 <= i < 15 implies t[i] == l[i] by {}
        if names_content_length(l) {
            assert forall|i: int| 0 <= i < 15 implies lower(#[trigger] t[i]) == content_length_name()[i] by {
                assert(t[i] == l[i]);
            }
        }
        if names_content_length(t) {
            assert forall|i: int| 0 <= i < 15 implies lower(#[trigger] l[i]) == content_length_name()[i] by {
                assert(t[i] == l[i]);
            }
        }
    } else if l.len() == 14 {
        assert(t[14] == CR);
        assert(lower(t[14]) != content_length_name()[14]);
    }
}

/// A line that starts with `a` and has a space right after it names
/// `content-length` only if `a` does.
proof fn lemma_space_after_names(a: Seq<u8>, b: Seq<u8>)
    requires
        !names_content_length(a),
        b.len() > 0,
        b[0] == SPACE,
    ensures
        !names_content_length(a + b),
{
    let t = a + b;
    if a.len() >= 15 {
        if names_content_length(t) {
            assert forall|i: int| 0 <= i < 15 implies lower(#[trigger] a[i]) == content_length_name()[i] by {
                assert(t[i] == a[i]);
            }
        }
    } else if t.len() >= 15 {
        let k = a.len() as int;
        assert(t[k] == SPACE);
        assert(lower(t[k]) != content_length_name()[k]);
    }
}

/// Walking the lines of a header block, the first line that names
/// `content-length` decides; where none does, no length is declared.
proof fn lemma_declared_walk(h: Seq<u8>, start: int, ls: Seq<Seq<u8>>)
    requires
        0 <= start <= h.len(),
        h.subrange(start, h.len() as int) == joined(ls) + crlf(),
        all_plain(ls),
        forall|k: int| 0 <= k < ls.len() - 1 ==> !names_content_length(#[trigger] ls[k]),
    ensures
        ls.len() == 0 || !names_content_length(ls.last()) ==> declared_from(h, start) is None,
        ls.len() > 0 && names_content_length(ls.last()) ==> declared_from(h, start)
            == content_length_value(ls.last() + seq![CR]),
    decreases ls.len(),
{
    let rest = h.subrange(start, h.len() as int);
    if ls.len() == 0 {
        assert(rest =~= seq![CR, LF]);
        assert(rest[1] == LF && rest[0] != LF);
        lemma_find_is(rest, LF, 1);
        assert(line_from(h, start) =~= seq![CR]);
        let next = h.subrange(start + 2, h.len() as int);
        assert(next =~= Seq::<u8>::empty());
        lemma_find_none(next, LF);
        assert(declared_from(h, start + 2) is None);
    } else {
        let l0 = ls[0];
        let tail = ls.subrange(1, ls.len() as int);
        assert(is_plain_line(l0));
        assert(rest =~= l0 + crlf() + (joined(tail) + crlf()));
        let m = l0.len() as int;
        assert(rest[m] == CR && rest[m + 1] == LF);
        assert forall|i: int| 0 <= i < m + 1 implies rest[i] != LF by {
            if i < m {
                assert(rest[i] == l0[i]);
            }
        }
        lemma_find_is(rest, LF, m + 1);
        assert(line_from(h, start) =~= l0 + seq![CR]);
        lemma_line_names(l0);
        if !names_content_length(l0) {
            assert(rest.subrange(m + 2, rest.len() as int) =~= joined(tail) + crlf());
            assert(h.subrange(start + m + 2, h.len() as int) =~= rest.subrange(m + 2, rest.len() as int));
            assert forall|k: int| 0 <= k < tail.len() implies is_plain_line(#[trigger] tail[k]) by {
                assert(tail[k] == ls[k + 1]);
            }
            assert forall|k: int| 0 <= k < tail.len() - 1 implies !names_content_length(#[trigger] tail[k]) by {
                assert(tail[k] == ls[k + 1]);
            }
            lemma_declared_walk(h, start + m + 2, tail);
            if tail.len() > 0 {
                assert(tail.last() == ls.last());
            }
        } else {
            assert(ls.len() == 1);
        }
    }
}

/// The length header line, `Content-Length: {n}`, without its line ending.
pub open spec fn length_text(n: nat) -> Seq<u8> {
    length_prefix() + decimal(n)
}

proof fn lemma_length_text(n: nat)
    requires
        n <= usize::MAX,
    ensures
        is_plain_line(length_text(n)),
        names_content_length(length_text(n)),
        content_length_value(length_text(n) + seq![CR]) == Some(n),
{
    lemma_decimal_parses(n, usize::MAX as nat);
    let d = decimal(n);
    let l = length_text(n);
    let t = l + seq![CR];
    assert forall|i: int| 0 <= i < l.len() implies #[trigger] l[i] != CR && l[i] != LF by {
        if i >= 16 {
            assert(l[i] == d[i - 16]);
            assert(is_digit(d[i - 16]));
        }
    }
    assert forall|i: int| 0 <= i < 15 implies lower(#[trigger] l[i]) == content_length_name()[i] by {}
    let after = t.subrange(15, t.len() as int);
    assert(after =~= seq![SPACE] + d + seq![CR]);
    assert forall|i: int| 0 <= i < after.len() implies after[i] != COLON by {
        if 1 <= i < after.len() - 1 {
            assert(after[i] == d[i - 1]);
            assert(is_digit(d[i - 1]));
        }
    }
    lemma_find_none(after, COLON);
    let dc = d + seq![CR];
    assert(after.subrange(1, after.len() as int) =~= dc);
    assert(trim_start(after) == trim_start(dc));
    assert(is_digit(dc[0]));
    assert(trim_start(dc) == dc);
    assert(dc.drop_last() =~= d);
    assert(trim_end(dc) == trim_end(d));
    assert(is_digit(d.last()));
    assert(trim_end(d) == d);
    assert(trim(after) == d);
}

/// The Host header line without its line ending.
pub open spec fn host_text(host: Seq<u8>, port: u16) -> Seq<u8> {
    if port_is_implied(port) {
        host_prefix() + host
    } else {
        host_prefix() + host + seq![COLON] + decimal(port as nat)
    }
}

/// The lines of the header block of a request, in order.
pub open spec fn request_lines(spec: RequestSpec) -> Seq<Seq<u8>> {
    seq![
        spec.method@ + seq![SPACE] + spec.path_query@ + version_text(),
        host_text(spec.host@, spec.port),
        agent_text(),
        accept_text(),
    ] + spec.headers.deep_view() + if spec.body@.len() > 0 {
        seq![length_text(spec.body@.len())]
    } else {
        Seq::empty()
    }
}

/// The requirements on a request under which its echo frames back exactly.
pub open spec fn frames_back(spec: RequestSpec) -> bool {
    &&& lacks(spec.method@, CR) && lacks(spec.method@, LF)
    &&& lacks(spec.path_query@, CR) && lacks(spec.path_query@, LF)
    &&& lacks(spec.host@, CR) && lacks(spec.host@, LF)
    &&& !names_content_length(spec.method@ + seq![SPACE] + spec.path_query@)
    &&& forall|k: int|
        0 <= k < spec.headers@.len() ==> is_plain_line(#[trigger] spec.headers@[k]@)
            && !names_content_length(spec.headers@[k]@)
    &&& spec.body@.len() <= usize::MAX
}

proof fn lemma_head_is_joined(spec: RequestSpec)
    requires
        spec.body@.len() <= usize::MAX,
    ensures
        request_head(spec.method@, spec.host@, spec.port, spec.path_query@, spec.headers.deep_view(), spec.body@)
            == joined(request_lines(spec)) + crlf(),
{
    let hs = spec.headers.deep_view();
    let body = spec.body@;
    let req = spec.method@ + seq![SPACE] + spec.path_query@ + version_text();
    let ht = host_text(spec.host@, spec.port);
    let fixed = seq![req, ht, agent_text(), accept_text()];
    let cl = if body.len() > 0 {
        seq![length_text(body.len())]
    } else {
        Seq::<Seq<u8>>::empty()
    };
    let ls = request_lines(spec);
    assert(ls == fixed + hs + cl);
    lemma_joined_append(fixed + hs, cl);
    lemma_joined_append(fixed, hs);
    lemma_header_lines_joined(hs);
    lemma_joined_push(seq![req, ht, agent_text()], accept_text());
    lemma_joined_push(seq![req, ht], agent_text());
    lemma_joined_push(seq![req], ht);
    lemma_joined_push(Seq::empty(), req);
    assert(seq![req, ht, agent_text()].push(accept_text()) =~= fixed);
    assert(seq![req, ht].push(agent_text()) =~= seq![req, ht, agent_text()]);
    assert(seq![req].push(ht) =~= seq![req, ht]);
    assert(Seq::<Seq<u8>>::empty().push(req) =~= seq![req]);
    assert(joined(Seq::<Seq<u8>>::empty()) =~= Seq::<u8>::empty());
    assert(request_line(spec.method@, spec.path_query@) =~= req + crlf());
    assert(host_line(spec.host@, spec.port) =~= ht + crlf());
    assert(agent_line() =~= agent_text() + crlf());
    assert(accept_line() =~= accept_text() + crlf());
    if body.len() > 0 {
        lemma_length_text(body.len());
        lemma_joined_push(Seq::empty(), length_text(body.len()));
        assert(Seq::<Seq<u8>>::empty().push(length_text(body.len())) =~= cl);
    } else {
        assert(joined(cl) =~= Seq::<u8>::empty());
    }
    assert(joined(cl) == length_line(body));
}

proof fn lemma_request_lines_plain(spec: RequestSpec)
    requires
        frames_back(spec),
    ensures
        all_plain(request_lines(spec)),
        request_lines(spec).len() >= 4,
{
    let hs = spec.headers.deep_view();
    let ls = request_lines(spec);
    let req = spec.method@ + seq![SPACE] + spec.path_query@ + version_text();
    assert forall|i: int| 0 <= i < req.len() implies #[trigger] req[i] != CR && req[i] != LF by {
        let m = spec.method@.len() as int;
        let p = spec.path_query@.len() as int;
        if i < m {
            assert(req[i] == spec.method@[i]);
        } else if i == m {
        } else if i < m + 1 + p {
            assert(req[i] == spec.path_query@[i - m - 1]);
        } else {
            assert(req[i] == version_text()[i - m - 1 - p]);
        }
    }
    let t = host_text(spec.host@, spec.port);
    let hl = spec.host@.len() as int;
    if !port_is_implied(spec.port) {
        lemma_decimal_parses(spec.port as nat, 65535);
    }
    assert forall|i: int| 0 <= i < t.len() implies #[trigger] t[i] != CR && t[i] != LF by {
        if i < 6 {
            assert(t[i] == host_prefix()[i]);
        } else if i < 6 + hl {
            assert(t[i] == spec.host@[i - 6]);
        } else if i > 6 + hl {
            assert(t[i] == decimal(spec.port as nat)[i - 7 - hl]);
            assert(is_digit(decimal(spec.port as nat)[i - 7 - hl]));
        }
    }
    assert(is_plain_line(agent_text()));
    assert(is_plain_line(accept_text()));
    if spec.body@.len() > 0 {
        lemma_length_text(spec.body@.len());
    }
    assert forall|k: int| 0 <= k < ls.len() implies is_plain_line(#[trigger] ls[k]) by {
        if 4 <= k < 4 + hs.len() {
            assert(ls[k] == hs[k - 4]);
            assert(hs[k - 4] == spec.headers@[k - 4]@);
        }
    }
}

proof fn lemma_request_lines_names(spec: RequestSpec)
    requires
        frames_back(spec),
    ensures
        forall|k: int|
            0 <= k < request_lines(spec).len() - 1 ==> !names_content_length(#[trigger] request_lines(spec)[k]),
        names_content_length(request_lines(spec).last()) <==> spec.body@.len() > 0,
        spec.body@.len() > 0 ==> request_lines(spec).last() == length_text(spec.body@.len()),
{
    let hs = spec.headers.deep_view();
    let ls = request_lines(spec);
    let first = spec.method@ + seq![SPACE] + spec.path_query@;
    lemma_space_after_names(first, version_text());
    let host_t = host_text(spec.host@, spec.port);
    assert(lower(host_t[0]) != content_length_name()[0]);
    assert(lower(agent_text()[0]) != content_length_name()[0]);
    assert(lower(accept_text()[0]) != content_length_name()[0]);
    assert(!names_content_length(host_t));
    assert(!names_content_length(agent_text()));
    assert(!names_content_length(accept_text()));
    assert forall|k: int| 0 <= k < ls.len() - 1 implies !names_content_length(#[trigger] ls[k]) by {
        if 4 <= k < 4 + hs.len() {
            assert(ls[k] == hs[k - 4]);
            assert(hs[k - 4] == spec.headers@[k - 4]@);
        }
    }
    if spec.body@.len() > 0 {
        lemma_length_text(spec.body@.len());
    } else if hs.len() > 0 {
        assert(ls.last() == hs[hs.len() - 1]);
        assert(hs[hs.len() - 1] == spec.headers@[hs.len() - 1]@);
    }
}

/// An echo of a request, framed as a response is, splits back into exactly
/// the header block and the body that were sent. This holds where the method,
/// path, host and header lines hold no line breaks, no header line is empty or
/// begins with `content-length:`, and neither does the request line.
pub proof fn lemma_request_frames_back(spec: RequestSpec)
    requires
        frames_back(spec),
    ensures
        header_part(spec.wire()) == request_head(
            spec.method@,
            spec.host@,
            spec.port,
            spec.path_query@,
            spec.headers.deep_view(),
            spec.body@,
        ),
        body_part(spec.wire()) == spec.body@,
{
    let body = spec.body@;
    let ls = request_lines(spec);
    let head = request_head(spec.method@, spec.host@, spec.port, spec.path_query@, spec.headers.deep_view(), body);
    lemma_head_is_joined(spec);
    lemma_request_lines_plain(spec);
    lemma_request_lines_names(spec);
    let w = spec.wire();
    assert(w =~= joined(ls) + crlf() + body);
    lemma_blank_line_ends_head(ls, body);
    let n = joined(ls).len() + 2int;
    assert(first_end(w, n));
    lemma_header_len_is(w, n);
    assert(header_part(w) =~= head);
    assert(head.subrange(0, head.len() as int) =~= joined(ls) + crlf());
    lemma_declared_walk(head, 0, ls);
    if body.len() > 0 {
        lemma_length_text(body.len());
        assert(declared_length(head) == Some(body.len()));
    } else {
        assert(declared_length(head) is None);
    }
    assert(w.subrange(n, w.len() as int) =~= body);
}

} // verus!
