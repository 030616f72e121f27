//! Framing of an HTTP/1.1 response read from a byte stream: the header block
//! up to the first blank line, then a body delimited by `Content-Length` or by
//! the end of the stream.
use vstd::prelude::*;
use vstd::slice::slice_subrange;
use crate::bytes::{append, find, find_byte, parse_decimal, parse_unsigned, COLON, CR, LF, SPACE};

verus! {

/// The header terminator `\r\n\r\n`.
pub open spec fn terminator() -> Seq<u8> {
    seq![CR, LF, CR, LF]
}

/// The first `i` bytes of `s` end with the header terminator.
pub open spec fn ends_at(s: Seq<u8>, i: int) -> bool {
    4 <= i <= s.len() && s.subrange(i - 4, i) == terminator()
}

/// The first header terminator of `s` ends at `i`.
pub open spec fn first_end(s: Seq<u8>, i: int) -> bool {
    ends_at(s, i) && forall|j: int| 0 <= j < i ==> !ends_at(s, j)
}

pub open spec fn has_terminator(s: Seq<u8>) -> bool {
    exists|i: int| first_end(s, i)
}

/// The length of the header block of `s`: up to and including the first
/// terminator, or all of `s` where there is none.
pub open spec fn header_len(s: Seq<u8>) -> int {
    if has_terminator(s) {
        choose|i: int| first_end(s, i)
    } else {
        s.len() as int
    }
}

pub proof fn lemma_header_len_is(s: Seq<u8>, i: int)
    requires
        first_end(s, i),
    ensures
        has_terminator(s),
        header_len(s) == i,
{
    let k = choose|k: int| first_end(s, k);
    assert(first_end(s, k));
    if k < i {
        assert(!ends_at(s, k));
    } else if i < k {
        assert(!ends_at(s, i));
    }
}

/// `ends_at` at `i` depends only on the first `i` bytes.
pub proof fn lemma_ends_at_prefix(s: Seq<u8>, t: Seq<u8>, i: int)
    requires
        i <= s.len(),
        s.len() <= t.len(),
        s == t.subrange(0, s.len() as int),
    ensures
        ends_at(s, i) == ends_at(t, i),
{
    if 4 <= i {
        assert(s.subrange(i - 4, i) =~= t.subrange(i - 4, i));
    }
}

/// Latin-1 white space, as `str::trim` sees header bytes read one per character.
pub open spec fn is_space(c: u8) -> bool {
    c == 9 || c == 10 || c == 11 || c == 12 || c == 13 || c == SPACE || c == 0x85 || c == 0xA0
}

pub fn is_space_byte(c: u8) -> (r: bool)
    ensures
        r == is_space(c),
{
    c == 9 || c == 10 || c == 11 || c == 12 || c == 13 || c == SPACE || c == 0x85 || c == 0xA0
}

pub open spec fn trim_start(s: Seq<u8>) -> Seq<u8>
    decreases s.len(),
{
    if s.len() > 0 && is_space(s[0]) {
        trim_start(s.subrange(1, s.len() as int))
    } else {
        s
    }
}

pub open spec fn trim_end(s: Seq<u8>) -> Seq<u8>
    decreases s.len(),
{
    if s.len() > 0 && is_space(s.last()) {
        trim_end(s.drop_last())
    } else {
        s
    }
}

/// `s` without leading and trailing white space.
pub open spec fn trim(s: Seq<u8>) -> Seq<u8> {
    trim_end(trim_start(s))
}

pub fn trim_bytes(s: &[u8]) -> (r: &[u8])
    ensures
        r@ == trim(s@),
{
    let mut lo: usize = 0;
    assert(s@.subrange(0, s@.len() as int) =~= s@);
    while lo < s.len() && is_space_byte(s[lo])
        invariant
            lo <= s@.len(),
            trim_start(s@) == trim_start(s@.subrange(lo as int, s@.len() as int)),
        decreases s@.len() - lo,
    {
        assert(s@.subrange(lo as int, s@.len() as int).subrange(1, s@.len() - lo)
            =~= s@.subrange(lo + 1, s@.len() as int));
        lo = lo + 1;
    }
    let t = slice_subrange(s, lo, s.len());
    assert(trim_start(s@) == t@);
    let mut hi: usize = t.len();
    assert(t@.subrange(0, t@.len() as int) =~= t@);
    while hi > 0 && is_space_byte(t[hi - 1])
        invariant
            hi <= t@.len(),
            trim_end(t@) == trim_end(t@.subrange(0, hi as int)),
        decreases hi,
    {
        assert(t@.subrange(0, hi as int).drop_last() =~= t@.subrange(0, hi - 1));
        hi = hi - 1;
    }
    let r = slice_subrange(t, 0, hi);
    r
}

/// `content-length:`, the lower-case prefix that names the length header.
pub open spec fn content_length_name() -> Seq<u8> {
    seq![99u8, 111u8, 110u8, 116u8, 101u8, 110u8, 116u8, 45u8, 108u8, 101u8, 110u8, 103u8, 116u8, 104u8, 58u8]
}

fn content_length_name_bytes() -> (r: Vec<u8>)
    ensures
        r@ == content_length_name(),
{
    let r = vec![99u8, 111u8, 110u8, 116u8, 101u8, 110u8, 116u8, 45u8, 108u8, 101u8, 110u8, 103u8, 116u8, 104u8, 58u8];
    assert(r@ =~= content_length_name());
    r
}

/// ASCII lower case of a byte.
pub open spec fn lower(c: u8) -> u8 {
    if 65 <= c <= 90 {
        (c + 32) as u8
    } else {
        c
    }
}

pub fn lower_byte(c: u8) -> (r: u8)
    ensures
        r == lower(c),
{
    if 65 <= c && c <= 90 {
        c + 32
    } else {
        c
    }
}

/// The line begins with `content-length:` in any mix of cases.
pub open spec fn names_content_length(line: Seq<u8>) -> bool {
    line.len() >= 15 && forall|i: int| 0 <= i < 15 ==> lower(#[trigger] line[i]) == content_length_name()[i]
}

/// The value of a `content-length:` line: the text after its colon, up to a
/// further colon, trimmed, read as a decimal number that fits in `usize`.
pub open spec fn content_length_value(line: Seq<u8>) -> Option<nat> {
    let after = line.subrange(15, line.len() as int);
    let field = match find(after, COLON) {
        Some(k) => after.subrange(0, k),
        None => after,
    };
    parse_unsigned(trim(field), usize::MAX as nat)
}

/// The line of `h` that begins at `start`, without its `\n`.
pub open spec fn line_from(h: Seq<u8>, start: int) -> Seq<u8> {
    let rest = h.subrange(start, h.len() as int);
    match find(rest, LF) {
        Some(k) => rest.subrange(0, k),
        None => rest,
    }
}

/// The declared length found in the lines of `h` from the one at `start` on:
/// the first line that names `content-length` decides.
pub open spec fn declared_from(h: Seq<u8>, start: int) -> Option<nat>
    decreases h.len() - start,
{
    if start < 0 || start > h.len() {
        None
    } else if names_content_length(line_from(h, start)) {
        content_length_value(line_from(h, start))
    } else {
        match find(h.subrange(start, h.len() as int), LF) {
            Some(k) => if k >= 0 {
                declared_from(h, start + k + 1)
            } else {
                None
            },
            None => None,
        }
    }
}

/// The body length that the header block `h` declares, if any.
pub open spec fn declared_length(h: Seq<u8>) -> Option<nat> {
    declared_from(h, 0)
}

fn names_content_length_exec(line: &[u8], name: &Vec<u8>) -> (r: bool)
    requires
        name@ == content_length_name(),
    ensures
        r == names_content_length(line@),
{
    if line.len() < 15 {
        return false;
    }
    let mut i: usize = 0;
    while i < 15
        invariant
            i <= 15,
            line@.len() >= 15,
            name@ == content_length_name(),
            forall|j: int| 0 <= j < i ==> lower(#[trigger] line@[j]) == content_length_name()[j],
        decreases 15 - i,
    {
        if lower_byte(line[i]) != name[i] {
            return false;
        }
        i = i + 1;
    }
    true
}

fn content_length_value_exec(line: &[u8]) -> (r: Option<usize>)
    requires
        line@.len() >= 15,
    ensures
        match r {
            Some(n) => content_length_value(line@) == Some(n as nat),
            None => content_length_value(line@) is None,
        },
{
    let after = slice_subrange(line, 15, line.len());
    let field = match find_byte(after, COLON) {
        Some(k) => slice_subrange(after, 0, k),
        None => after,
    };
    let trimmed = trim_bytes(field);
    match parse_decimal(trimmed, usize::MAX as u64) {
        Some(n) => Some(n as usize),
        None => None,
    }
}

/// The body length declared by the header block `header`: the value of its
/// first line that begins, in any case, with `content-length:`.
pub fn parse_content_length(header: &[u8]) -> (r: Option<usize>)
    ensures
        match r {
            Some(n) => declared_length(header@) == Some(n as nat),
            None => declared_length(header@) is None,
        },
{
    let name = content_length_name_bytes();
    let mut start: usize = 0;
    loop
        invariant
            start <= header@.len(),
            name@ == content_length_name(),
            declared_length(header@) == declared_from(header@, start as int),
        decreases header@.len() - start,
    {
        let rest = slice_subrange(header, start, header.len());
        let found = find_byte(rest, LF);
        let end: usize = match found {
            Some(k) => start + k,
            None => header.len(),
        };
        let line = slice_subrange(header, start, end);
        assert(line@ =~= line_from(header@, start as int));
        if names_content_length_exec(line, &name) {
            return content_length_value_exec(line);
        }
        match found {
            Some(k) => {
                start = start + k + 1;
            },
            None => {
                return None;
            },
        }
    }
}

/// The header block of a response read from the stream `s`.
pub open spec fn header_part(s: Seq<u8>) -> Seq<u8> {
    s.subrange(0, header_len(s))
}

/// The body of a response read from the stream `s`: nothing where the header
/// block never ends; else the bytes after it, cut to the declared length where
/// one is declared and the stream holds that many.
pub open spec fn body_part(s: Seq<u8>) -> Seq<u8> {
    if !has_terminator(s) {
        Seq::empty()
    } else {
        let rest = s.subrange(header_len(s), s.len() as int);
        match declared_length(header_part(s)) {
            Some(n) => if n < rest.len() {
                rest.subrange(0, n as int)
            } else {
                rest
            },
            None => rest,
        }
    }
}

/// A response as read from the stream: the header block, terminator included,
/// and the body.
pub struct RawResponse {
    pub header_bytes: Vec<u8>,
    pub body_bytes: Vec<u8>,
}

/// What the reader does next.
#[derive(Clone, Copy, Debug, PartialEq, Eq, Structural)]
pub enum ReadPhase {
    /// Reading the header block one byte at a time.
    Header,
    /// Reading a body of declared length; this many bytes are still owed.
    Sized(usize),
    /// Reading a body that ends where the stream ends.
    UntilClose,
}

/// The abstract state of a `ResponseReader`.
pub ghost struct ReaderView {
    pub header: Seq<u8>,
    pub body: Seq<u8>,
    pub phase: ReadPhase,
    pub closed: bool,
}

impl ReaderView {
    /// Every byte taken from the stream so far.
    pub open spec fn consumed(self) -> Seq<u8> {
        self.header + self.body
    }

    /// In the header phase no terminator has been seen; in a body phase the
    /// header block ends at its first terminator, and the phase follows its
    /// declared length.
    pub open spec fn wf(self) -> bool {
        match self.phase {
            ReadPhase::Header => self.body.len() == 0 && forall|j: int| !ends_at(self.header, j),
            ReadPhase::Sized(n) => first_end(self.header, self.header.len() as int)
                && declared_length(self.header) == Some((self.body.len() + n) as nat),
            ReadPhase::UntilClose => first_end(self.header, self.header.len() as int)
                && declared_length(self.header) is None,
        }
    }

    /// Nothing more is to be read: the stream has ended or the declared body is complete.
    pub open spec fn done(self) -> bool {
        self.closed || self.phase == ReadPhase::Sized(0)
    }

    /// The state after taking `chunk` from the stream: in the header phase the
    /// byte joins the header block, and on completing the terminator the phase
    /// becomes that of the declared length; in a body phase the bytes join the body.
    pub open spec fn after(self, chunk: Seq<u8>) -> ReaderView {
        match self.phase {
            ReadPhase::Header => {
                let h = self.header + chunk;
                if ends_at(h, h.len() as int) {
                    ReaderView {
                        header: h,
                        phase: match declared_length(h) {
                            Some(n) => ReadPhase::Sized(n as usize),
                            None => ReadPhase::UntilClose,
                        },
                        ..self
                    }
                } else {
                    ReaderView { header: h, ..self }
                }
            },
            ReadPhase::Sized(n) => ReaderView {
                body: self.body + chunk,
                phase: ReadPhase::Sized((n - chunk.len()) as usize),
                ..self
            },
            ReadPhase::UntilClose => ReaderView { body: self.body + chunk, ..self },
        }
    }

    /// How many bytes the next read may take at most.
    pub open spec fn allowance(self) -> nat {
        if self.done() {
            0
        } else {
            match self.phase {
                ReadPhase::Header => 1,
                ReadPhase::Sized(n) => n as nat,
                ReadPhase::UntilClose => usize::MAX as nat,
            }
        }
    }
}

/// An incremental reader of one response. The caller reads from the stream at
/// most `next_read_len` bytes at a time and hands them to `feed`, or calls
/// `end_of_stream` when the stream reports its end, until `is_done`.
pub struct ResponseReader {
    header: Vec<u8>,
    body: Vec<u8>,
    phase: ReadPhase,
    closed: bool,
}

impl View for ResponseReader {
    type V = ReaderView;

    closed spec fn view(&self) -> ReaderView {
        ReaderView { header: self.header@, body: self.body@, phase: self.phase, closed: self.closed }
    }
}

/// A finished reader holds the response framed from any stream that begins
/// with what it consumed (and is no longer, where the stream ended).
pub proof fn lemma_done_reader_frames(v: ReaderView, rest: Seq<u8>)
    requires
        v.wf(),
        v.done(),
        v.closed ==> rest.len() == 0,
    ensures
        v.header == header_part(v.consumed() + rest),
        v.body == body_part(v.consumed() + rest),
{
    let s = v.consumed() + rest;
    let h = v.header;
    match v.phase {
        ReadPhase::Header => {
            assert(s =~= h);
            assert(!has_terminator(s));
            assert(h.subrange(0, h.len() as int) =~= h);
        },
        _ => {
            assert forall|j: int| 0 <= j <= h.len() implies ends_at(h, j) == ends_at(s, j) by {
                assert(h =~= s.subrange(0, h.len() as int));
                lemma_ends_at_prefix(h, s, j);
            }
            assert(first_end(s, h.len() as int));
            lemma_header_len_is(s, h.len() as int);
            assert(s.subrange(0, h.len() as int) =~= h);
            assert(s.subrange(h.len() as int, s.len() as int) =~= v.body + rest);
            assert((v.body + rest).subrange(0, v.body.len() as int) =~= v.body);
            if v.closed {
                assert(v.body + rest =~= v.body);
            }
        },
    }
}

impl ResponseReader {
    pub fn new() -> (r: ResponseReader)
        ensures
            r@.wf(),
            r@.header.len() == 0,
            r@.body.len() == 0,
            r@.phase == ReadPhase::Header,
            !r@.closed,
    {
        ResponseReader { header: Vec::new(), body: Vec::new(), phase: ReadPhase::Header, closed: false }
    }

    pub fn is_done(&self) -> (r: bool)
        ensures
            r == self@.done(),
    {
        self.closed || self.phase == ReadPhase::Sized(0)
    }

    /// The most bytes the next read may take, for a read buffer of `cap` bytes.
    /// Zero once the reader is done.
    pub fn next_read_len(&self, cap: usize) -> (r: usize)
        requires
            cap > 0,
        ensures
            r == if cap < self@.allowance() { cap as nat } else { self@.allowance() },
            self@.done() <==> r == 0,
    {
        if self.closed {
            return 0;
        }
        match self.phase {
            ReadPhase::Header => 1,
            ReadPhase::Sized(n) => if n < cap { n } else { cap },
            ReadPhase::UntilClose => cap,
        }
    }

    /// Takes `chunk`, the bytes that the last read returned.
    pub fn feed(&mut self, chunk: &[u8])
        requires
            old(self)@.wf(),
            0 < chunk@.len() <= old(self)@.allowance(),
        ensures
            final(self)@ == old(self)@.after(chunk@),
            final(self)@.wf(),
            final(self)@.consumed() == old(self)@.consumed() + chunk@,
    {
        let ghost before = self@.consumed();
        match self.phase {
            ReadPhase::Header => {
                let ghost old_header = self.header@;
                assert(forall|j: int| !ends_at(old_header, j));
                self.header.push(chunk[0]);
                assert(chunk@ =~= seq![chunk@[0]]);
                assert(self.body@ =~= Seq::<u8>::empty());
                let len = self.header.len();
                let found = len >= 4 && self.header[len - 4] == CR && self.header[len - 3] == LF
                    && self.header[len - 2] == CR && self.header[len - 1] == LF;
                assert(found == ends_at(self.header@, len as int)) by {
                    if len >= 4 {
                        assert(found ==> self.header@.subrange(len - 4, len as int) =~= terminator());
                    }
                }
                assert forall|j: int| 0 <= j < len implies !ends_at(self.header@, j) by {
                    assert(old_header =~= self.header@.subrange(0, old_header.len() as int));
                    lemma_ends_at_prefix(old_header, self.header@, j);
                    assert(!ends_at(old_header, j));
                }
                if found {
                    assert(first_end(self.header@, len as int));
                    self.phase = match parse_content_length(self.header.as_slice()) {
                        Some(n) => ReadPhase::Sized(n),
                        None => ReadPhase::UntilClose,
                    };
                }
                assert(self@.consumed() =~= before + chunk@);
                assert(self@.wf());
                assert(self.header@ =~= old_header + chunk@);
            },
            ReadPhase::Sized(n) => {
                append(&mut self.body, chunk);
                self.phase = ReadPhase::Sized(n - chunk.len());
                assert(self@.consumed() =~= before + chunk@);
            },
            ReadPhase::UntilClose => {
                append(&mut self.body, chunk);
                assert(self@.consumed() =~= before + chunk@);
            },
        }
    }

    /// Records that the stream reported its end.
    pub fn end_of_stream(&mut self)
        requires
            old(self)@.wf(),
        ensures
            final(self)@ == (ReaderView { closed: true, ..old(self)@ }),
            final(self)@.wf(),
    {
        self.closed = true;
    }

    /// The response read so far.
    pub fn into_response(self) -> (r: RawResponse)
        ensures
            r.header_bytes@ == self@.header,
            r.body_bytes@ == self@.body,
    {
        RawResponse { header_bytes: self.header, body_bytes: self.body }
    }
}

/// Reads one response from `stream`, a stream that holds these bytes and then
/// ends, taking at most `cap` bytes per read.
pub fn read_response(stream: &[u8], cap: usize) -> (r: RawResponse)
    requires
        cap > 0,
    ensures
        r.header_bytes@ == header_part(stream@),
        r.body_bytes@ == body_part(stream@),
{
    let mut reader = ResponseReader::new();
    let mut pos: usize = 0;
    while !reader.is_done()
        invariant
            reader@.wf(),
            pos <= stream@.len(),
            reader@.consumed() == stream@.subrange(0, pos as int),
            reader@.closed ==> pos == stream@.len(),
            cap > 0,
        decreases stream@.len() - pos + (if reader@.closed { 0int } else { 1int }),
    {
        let want = reader.next_read_len(cap);
        let avail = stream.len() - pos;
        let n = if want < avail { want } else { avail };
        if n == 0 {
            reader.end_of_stream();
        } else {
            let chunk = slice_subrange(stream, pos, pos + n);
            reader.feed(chunk);
            pos = pos + n;
            assert(reader@.consumed() =~= stream@.subrange(0, pos as int));
        }
    }
    proof {
        let rest = stream@.subrange(pos as int, stream@.len() as int);
        assert(reader@.consumed() + rest =~= stream@);
        lemma_done_reader_frames(reader@, rest);
    }
    reader.into_response()
}

/// What is shown of the response `s`: all of it where the headers are wanted;
/// else what follows the first `\r\n\r\n`, or all of it where there is none.
pub open spec fn shown(s: Seq<u8>, include_headers: bool) -> Seq<u8> {
    if include_headers || !has_terminator(s) {
        s
    } else {
        s.subrange(header_len(s), s.len() as int)
    }
}

/// Finds where the first header terminator of `s` ends.
pub fn find_header_end(s: &[u8]) -> (r: Option<usize>)
    ensures
        match r {
            Some(i) => has_terminator(s@) && header_len(s@) == i,
            None => !has_terminator(s@),
        },
{
    if s.len() < 4 {
        return None;
    }
    let mut k: usize = 0;
    while k < s.len() - 3
        invariant
            s@.len() >= 4,
            k <= s@.len() - 3,
            forall|j: int| 0 <= j < k + 4 ==> !ends_at(s@, j),
        decreases s@.len() - k,
    {
        if s[k] == CR && s[k + 1] == LF && s[k + 2] == CR && s[k + 3] == LF {
            assert(s@.subrange(k as int, k + 4) =~= terminator());
            proof {
                lemma_header_len_is(s@, k + 4);
            }
            return Some(k + 4);
        }
        assert(!ends_at(s@, k + 4)) by {
            if ends_at(s@, k + 4) {
                assert(s@.subrange(k as int, k + 4)[0] == CR);
                assert(s@.subrange(k as int, k + 4)[1] == LF);
                assert(s@.subrange(k as int, k + 4)[2] == CR);
                assert(s@.subrange(k as int, k + 4)[3] == LF);
            }
        }
        k = k + 1;
    }
    None
}

/// The bytes to display of the response `response`.
pub fn format_output(response: &[u8], include_headers: bool) -> (r: Vec<u8>)
    ensures
        r@ == shown(response@, include_headers),
{
    if include_headers {
        return vstd::slice::slice_to_vec(response);
    }
    match find_header_end(response) {
        Some(i) => vstd::slice::slice_to_vec(slice_subrange(response, i, response.len())),
        None => vstd::slice::slice_to_vec(response),
    }
}

/// Where the header block ends and declares no length, the body is everything
/// after the block, and header and body together are the whole stream.
pub proof fn lemma_close_delimited_body(s: Seq<u8>)
    requires
        has_terminator(s),
        declared_length(header_part(s)) is None,
    ensures
        body_part(s) == s.subrange(header_len(s), s.len() as int),
        header_part(s) + body_part(s) == s,
{
    let i = header_len(s);
    assert(first_end(s, i));
    assert(header_part(s) + body_part(s) =~= s);
}

/// Where the declared length is more than the stream holds after the header
/// block, the body is what it holds: a short body, not a failure.
pub proof fn lemma_short_body(s: Seq<u8>, n: nat)
    requires
        has_terminator(s),
        declared_length(header_part(s)) == Some(n),
        n >= s.len() - header_len(s),
    ensures
        body_part(s) == s.subrange(header_len(s), s.len() as int),
        body_part(s).len() == s.len() - header_len(s),
{
    let i = header_len(s);
    assert(first_end(s, i));
}

/// Showing only the body of a response read from any stream whose header block
/// ends gives back exactly the body that was read.
pub proof fn lemma_shown_body(s: Seq<u8>)
    requires
        has_terminator(s),
    ensures
        shown(header_part(s) + body_part(s), false) == body_part(s),
{
    let i = header_len(s);
    assert(first_end(s, i));
    let h = header_part(s);
    let t = h + body_part(s);
    assert(h =~= t.subrange(0, h.len() as int));
    assert(h =~= s.subrange(0, h.len() as int));
    assert forall|j: int| 0 <= j <= i implies ends_at(t, j) == ends_at(s, j) by {
        lemma_ends_at_prefix(h, t, j);
        lemma_ends_at_prefix(h, s, j);
    }
    assert(first_end(t, i));
    lemma_header_len_is(t, i);
    assert(t.subrange(i, t.len() as int) =~= body_part(s));
}

} // verus!
