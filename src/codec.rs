use vstd::prelude::*;
use vstd::slice::slice_to_vec;
use vstd::string::StringSliceAdditionalSpecFns;

verus! {

pub const CR: u8 = 13;

pub const LF: u8 = 10;

pub const SP: u8 = 32;

pub const COLON: u8 = 58;

/// A header line: a name and a value, kept as the bytes that stood on the wire.
pub struct Header {
    pub name: Vec<u8>,
    pub value: Vec<u8>,
}

/// A decoded request: method token, path, the headers in the order they came, and a body.
pub struct Request<T> {
    pub method: Vec<u8>,
    pub path: Vec<u8>,
    pub headers: Vec<Header>,
    pub body: T,
}

/// A response: status code, headers in order, and a body.
pub struct Response<T> {
    pub status: u16,
    pub headers: Vec<Header>,
    pub body: T,
}

/// Why a request could not be decoded.
pub enum DecodeError {
    /// No empty line ends the header block.
    Incomplete,
    /// The request line or a header line does not have the expected shape.
    Malformed,
    /// The head was sound but the body could not be turned into the wanted type.
    Body(Vec<u8>),
}

pub open spec fn crlf() -> Seq<u8> {
    seq![CR, LF]
}

/// ` HTTP/1.1`, the space and protocol tag that end a request line.
pub open spec fn version_suffix() -> Seq<u8> {
    seq![SP, 72u8, 84u8, 84u8, 80u8, 47u8, 49u8, 46u8, 49u8]
}

/// `HTTP/1.1 `, what opens a status line.
pub open spec fn status_prefix() -> Seq<u8> {
    "HTTP/1.1 ".spec_bytes()
}

pub open spec fn header_view(h: Header) -> (Seq<u8>, Seq<u8>) {
    (h.name@, h.value@)
}

pub open spec fn headers_view(hs: Seq<Header>) -> Seq<(Seq<u8>, Seq<u8>)> {
    hs.map_values(|h: Header| header_view(h))
}

/// `<name>: <value>\r\n`
pub open spec fn header_line(h: (Seq<u8>, Seq<u8>)) -> Seq<u8> {
    h.0 + seq![COLON, SP] + h.1 + crlf()
}

pub open spec fn headers_bytes(hs: Seq<(Seq<u8>, Seq<u8>)>) -> Seq<u8>
    decreases hs.len(),
{
    if hs.len() == 0 {
        Seq::empty()
    } else {
        headers_bytes(hs.drop_last()) + header_line(hs.last())
    }
}

/// `<method> <path> HTTP/1.1\r\n`
pub open spec fn request_line(method: Seq<u8>, path: Seq<u8>) -> Seq<u8> {
    method + seq![SP] + path + version_suffix() + crlf()
}

/// The request line, the header lines and the empty line that ends them.
pub open spec fn request_head(
    method: Seq<u8>,
    path: Seq<u8>,
    headers: Seq<(Seq<u8>, Seq<u8>)>,
) -> Seq<u8> {
    request_line(method, path) + headers_bytes(headers) + crlf()
}

pub open spec fn is_separator(c: u8) -> bool {
    c == 40 || c == 41 || c == 60 || c == 62 || c == 64 || c == 44 || c == 59 || c == COLON
        || c == 92 || c == 34 || c == 47 || c == 91 || c == 93 || c == 63 || c == 61 || c == 123
        || c == 125
}

/// A byte that may stand in a method or a header name.
pub open spec fn is_token_byte(c: u8) -> bool {
    32 < c && c < 127 && !is_separator(c)
}

/// A byte that may stand in a path.
pub open spec fn is_path_byte(c: u8) -> bool {
    32 < c && c < 127
}

pub open spec fn is_token(s: Seq<u8>) -> bool {
    s.len() > 0 && forall|i: int| 0 <= i < s.len() ==> is_token_byte(#[trigger] s[i])
}

pub open spec fn is_path(s: Seq<u8>) -> bool {
    s.len() > 0 && forall|i: int| 0 <= i < s.len() ==> is_path_byte(#[trigger] s[i])
}

pub open spec fn is_field_value(s: Seq<u8>) -> bool {
    forall|i: int| 0 <= i < s.len() ==> #[trigger] s[i] != CR && s[i] != LF
}

pub open spec fn header_wf(h: (Seq<u8>, Seq<u8>)) -> bool {
    is_token(h.0) && is_field_value(h.1)
}

/// The fields of a request that its head can carry.
pub open spec fn request_wf<T>(r: Request<T>) -> bool {
    is_token(r.method@) && is_path(r.path@) && forall|i: int|
        0 <= i < r.headers@.len() ==> header_wf(#[trigger] header_view(r.headers@[i]))
}

/// The empty line that ends a header block starts at `i`.
pub open spec fn terminator_at(b: Seq<u8>, i: int) -> bool {
    0 <= i && i + 4 <= b.len() && b[i] == CR && b[i + 1] == LF && b[i + 2] == CR && b[i + 3] == LF
}

pub open spec fn has_terminator(b: Seq<u8>) -> bool {
    exists|i: int| terminator_at(b, i)
}

/// The first position in `from .. to` that holds `c`.
fn find_byte(b: &[u8], from: usize, to: usize, c: u8) -> (r: Option<usize>)
    requires
        from <= to <= b@.len(),
    ensures
        r matches Some(i) ==> from <= i < to && b@[i as int] == c && forall|j: int|
            from <= j < i ==> b@[j] != c,
        r is None ==> forall|j: int| from <= j < to ==> b@[j] != c,
{
    let mut i = from;
    while i < to
        invariant
            from <= i <= to <= b@.len(),
            forall|j: int| from <= j < i ==> b@[j] != c,
        decreases to - i,
    {
        if b[i] == c {
            return Some(i);
        }
        i = i + 1;
    }
    None
}

/// A line end, `\r\n`, starts at `i`.
pub open spec fn crlf_at(b: Seq<u8>, i: int) -> bool {
    0 <= i && i + 1 < b.len() && b[i] == CR && b[i + 1] == LF
}

/// The first line end at or after `from`.
fn find_crlf(b: &[u8], from: usize) -> (r: Option<usize>)
    requires
        from <= b@.len(),
    ensures
        r matches Some(i) ==> from <= i && crlf_at(b@, i as int) && forall|j: int|
            from <= j < i ==> !crlf_at(b@, j),
        r is None ==> forall|j: int| from <= j ==> !crlf_at(b@, j),
{
    let n = b.len();
    if n < 2 {
        return None;
    }
    let mut i = from;
    while i < n - 1
        invariant
            n == b@.len(),
            n >= 2,
            from <= i,
            forall|j: int| from <= j < i ==> !crlf_at(b@, j),
        decreases n - i,
    {
        if b[i] == CR && b[i + 1] == LF {
            return Some(i);
        }
        i = i + 1;
    }
    None
}

/// A copy of `b[from .. to]`.
fn copy_range(b: &[u8], from: usize, to: usize) -> (r: Vec<u8>)
    requires
        from <= to <= b@.len(),
    ensures
        r@ == b@.subrange(from as int, to as int),
{
    let mut r: Vec<u8> = Vec::new();
    let mut i = from;
    while i < to
        invariant
            from <= i <= to <= b@.len(),
            r@ == b@.subrange(from as int, i as int),
        decreases to - i,
    {
        r.push(b[i]);
        proof {
            assert(b@.subrange(from as int, i + 1) =~= b@.subrange(from as int, i as int).push(b@[i as int]));
        }
        i = i + 1;
    }
    r
}

fn all_token_bytes(b: &[u8], from: usize, to: usize) -> (r: bool)
    requires
        from <= to <= b@.len(),
    ensures
        r == is_token(b@.subrange(from as int, to as int)),
{
    if from == to {
        return false;
    }
    let mut i = from;
    while i < to
        invariant
            from <= i <= to <= b@.len(),
            forall|j: int| from <= j < i ==> is_token_byte(b@[j]),
        decreases to - i,
    {
        let c = b[i];
        if !(32 < c && c < 127 && !(c == 40 || c == 41 || c == 60 || c == 62 || c == 64 || c == 44
            || c == 59 || c == COLON || c == 92 || c == 34 || c == 47 || c == 91 || c == 93 || c
            == 63 || c == 61 || c == 123 || c == 125)) {
            proof {
                assert(!is_token_byte(b@.subrange(from as int, to as int)[i - from]));
            }
            return false;
        }
        i = i + 1;
    }
    proof {
        let s = b@.subrange(from as int, to as int);
        assert forall|k: int| 0 <= k < s.len() implies is_token_byte(#[trigger] s[k]) by {
            assert(s[k] == b@[from + k]);
        }
    }
    true
}

fn all_path_bytes(b: &[u8], from: usize, to: usize) -> (r: bool)
    requires
        from <= to <= b@.len(),
    ensures
        r == is_path(b@.subrange(from as int, to as int)),
{
    if from == to {
        return false;
    }
    let mut i = from;
    while i < to
        invariant
            from <= i <= to <= b@.len(),
            forall|j: int| from <= j < i ==> is_path_byte(b@[j]),
        decreases to - i,
    {
        let c = b[i];
        if !(32 < c && c < 127) {
            proof {
                assert(!is_path_byte(b@.subrange(from as int, to as int)[i - from]));
            }
            return false;
        }
        i = i + 1;
    }
    proof {
        let s = b@.subrange(from as int, to as int);
        assert forall|k: int| 0 <= k < s.len() implies is_path_byte(#[trigger] s[k]) by {
            assert(s[k] == b@[from + k]);
        }
    }
    true
}

fn all_value_bytes(b: &[u8], from: usize, to: usize) -> (r: bool)
    requires
        from <= to <= b@.len(),
    ensures
        r == is_field_value(b@.subrange(from as int, to as int)),
{
    let mut i = from;
    while i < to
        invariant
            from <= i <= to <= b@.len(),
            forall|j: int| from <= j < i ==> b@[j] != CR && b@[j] != LF,
        decreases to - i,
    {
        if b[i] == CR || b[i] == LF {
            proof {
                let s = b@.subrange(from as int, to as int);
                assert(s[i - from] == b@[i as int]);
            }
            return false;
        }
        i = i + 1;
    }
    proof {
        let s = b@.subrange(from as int, to as int);
        assert forall|k: int| 0 <= k < s.len() implies #[trigger] s[k] != CR && s[k] != LF by {
            assert(s[k] == b@[from + k]);
        }
    }
    true
}

/// `b` is the head of `r`, encoded, followed by its body.
pub open spec fn decodes_to(b: Seq<u8>, r: Request<Vec<u8>>) -> bool {
    request_wf(r) && b == request_head(r.method@, r.path@, headers_view(r.headers@)) + r.body@
}

proof fn lemma_headers_push(hs: Seq<(Seq<u8>, Seq<u8>)>, h: (Seq<u8>, Seq<u8>))
    ensures
        headers_bytes(hs.push(h)) == headers_bytes(hs) + header_line(h),
{
    assert(hs.push(h).drop_last() =~= hs);
}

proof fn lemma_headers_step(hs: Seq<(Seq<u8>, Seq<u8>)>, k: int)
    requires
        0 <= k < hs.len(),
    ensures
        headers_bytes(hs.subrange(0, k + 1)) == headers_bytes(hs.subrange(0, k)) + header_line(
            hs[k],
        ),
{
    assert(hs.subrange(0, k + 1).drop_last() =~= hs.subrange(0, k));
}

proof fn lemma_headers_prefix(hs: Seq<(Seq<u8>, Seq<u8>)>, k: int)
    requires
        0 <= k <= hs.len(),
    ensures
        headers_bytes(hs.subrange(0, k)).len() <= headers_bytes(hs).len(),
        forall|i: int|
            0 <= i < headers_bytes(hs.subrange(0, k)).len() ==> headers_bytes(hs)[i]
                == #[trigger] headers_bytes(hs.subrange(0, k))[i],
    decreases hs.len(),
{
    if k == hs.len() {
        assert(hs.subrange(0, k) =~= hs);
    } else {
        let d = hs.drop_last();
        lemma_headers_prefix(d, k);
        assert(hs.subrange(0, k) =~= d.subrange(0, k));
    }
}

/// Where the `k`-th header line stands in `pre + headers_bytes(hs) + tail`.
proof fn lemma_line_in(b: Seq<u8>, pre: Seq<u8>, hs: Seq<(Seq<u8>, Seq<u8>)>, tail: Seq<u8>, k: int)
    requires
        b == pre + headers_bytes(hs) + tail,
        0 <= k < hs.len(),
    ensures
        pre.len() + headers_bytes(hs.subrange(0, k)).len() + header_line(hs[k]).len() <= pre.len()
            + headers_bytes(hs).len(),
        forall|i: int|
            0 <= i < header_line(hs[k]).len() ==> b[pre.len() + headers_bytes(hs.subrange(0, k)).len()
                + i] == #[trigger] header_line(hs[k])[i],
{
    lemma_headers_prefix(hs, k + 1);
    lemma_headers_step(hs, k);
    let a = headers_bytes(hs.subrange(0, k));
    let l = header_line(hs[k]);
    assert forall|i: int| 0 <= i < l.len() implies b[pre.len() + a.len() + i] == #[trigger] l[i] by {
        assert(headers_bytes(hs.subrange(0, k + 1))[a.len() + i] == l[i]);
    }
}

proof fn lemma_header_line_shape(h: (Seq<u8>, Seq<u8>))
    requires
        header_wf(h),
    ensures
        header_line(h).len() == h.0.len() + h.1.len() + 4,
        forall|i: int| 0 <= i < header_line(h).len() - 2 ==> #[trigger] header_line(h)[i] != CR,
        forall|i: int| 0 <= i < h.0.len() ==> #[trigger] header_line(h)[i] != COLON,
        header_line(h)[h.0.len() as int] == COLON,
        header_line(h)[(h.0.len() + 1) as int] == SP,
        header_line(h)[header_line(h).len() - 2] == CR,
        header_line(h)[header_line(h).len() - 1] == LF,
{
    let l = header_line(h);
    assert forall|i: int| 0 <= i < l.len() - 2 implies #[trigger] l[i] != CR by {
        if i < h.0.len() {
            assert(is_token_byte(h.0[i]));
        } else if i >= h.0.len() + 2 {
            assert(l[i] == h.1[i - h.0.len() - 2]);
        }
    }
    assert forall|i: int| 0 <= i < h.0.len() implies #[trigger] l[i] != COLON by {
        assert(is_token_byte(h.0[i]));
    }
}

proof fn lemma_request_line_shape(m: Seq<u8>, p: Seq<u8>)
    requires
        is_token(m),
        is_path(p),
    ensures
        request_line(m, p).len() == m.len() + p.len() + 12,
        forall|i: int|
            0 <= i < request_line(m, p).len() - 2 ==> #[trigger] request_line(m, p)[i] != CR,
        forall|i: int| 0 <= i < m.len() ==> #[trigger] request_line(m, p)[i] != SP,
        forall|i: int|
            m.len() < i < m.len() + 1 + p.len() ==> #[trigger] request_line(m, p)[i] != SP,
        request_line(m, p)[m.len() as int] == SP,
        request_line(m, p)[(m.len() + 1 + p.len()) as int] == SP,
        request_line(m, p).subrange((m.len() + 1 + p.len()) as int, (m.len() + p.len() + 10) as int)
            == version_suffix(),
        request_line(m, p)[(m.len() + p.len() + 10) as int] == CR,
        request_line(m, p)[(m.len() + p.len() + 11) as int] == LF,
{
    let l = request_line(m, p);
    assert forall|i: int| 0 <= i < l.len() - 2 implies #[trigger] l[i] != CR by {
        if i < m.len() {
            assert(is_token_byte(m[i]));
        } else if m.len() < i < m.len() + 1 + p.len() {
            assert(l[i] == p[i - m.len() - 1]);
            assert(is_path_byte(p[i - m.len() - 1]));
        }
    }
    assert forall|i: int| 0 <= i < m.len() implies #[trigger] l[i] != SP by {
        assert(is_token_byte(m[i]));
    }
    assert forall|i: int| m.len() < i < m.len() + 1 + p.len() implies #[trigger] l[i] != SP by {
        assert(l[i] == p[i - m.len() - 1]);
        assert(is_path_byte(p[i - m.len() - 1]));
    }
    assert(l.subrange((m.len() + 1 + p.len()) as int, (m.len() + p.len() + 10) as int) =~= version_suffix());
}

/// Two well-formed header lists whose encodings, each followed by the empty line,
/// start the same bytes at the same place agree from the `k`-th header on.
proof fn lemma_headers_agree(
    b: Seq<u8>,
    pre: Seq<u8>,
    hs1: Seq<(Seq<u8>, Seq<u8>)>,
    t1: Seq<u8>,
    hs2: Seq<(Seq<u8>, Seq<u8>)>,
    t2: Seq<u8>,
    k: int,
)
    requires
        b == pre + headers_bytes(hs1) + (crlf() + t1),
        b == pre + headers_bytes(hs2) + (crlf() + t2),
        forall|i: int| 0 <= i < hs1.len() ==> header_wf(#[trigger] hs1[i]),
        forall|i: int| 0 <= i < hs2.len() ==> header_wf(#[trigger] hs2[i]),
        0 <= k <= hs1.len(),
        k <= hs2.len(),
        hs1.subrange(0, k) == hs2.subrange(0, k),
    ensures
        hs1 == hs2,
    decreases hs1.len() - k,
{
    let pos = (pre.len() + headers_bytes(hs1.subrange(0, k)).len()) as int;
    if k == hs1.len() && k == hs2.len() {
        assert(hs1 =~= hs1.subrange(0, k));
        assert(hs2 =~= hs2.subrange(0, k));
    } else if k == hs1.len() {
        assert(hs1.subrange(0, k) =~= hs1);
        lemma_line_in(b, pre, hs2, crlf() + t2, k);
        lemma_header_line_shape(hs2[k]);
        assert(b[pos] == header_line(hs2[k])[0]);
        assert(b[pos] == CR);
    } else if k == hs2.len() {
        assert(hs2.subrange(0, k) =~= hs2);
        lemma_line_in(b, pre, hs1, crlf() + t1, k);
        lemma_header_line_shape(hs1[k]);
        assert(b[pos] == header_line(hs1[k])[0]);
        assert(b[pos] == CR);
    } else {
        lemma_line_in(b, pre, hs1, crlf() + t1, k);
        lemma_line_in(b, pre, hs2, crlf() + t2, k);
        lemma_header_line_shape(hs1[k]);
        lemma_header_line_shape(hs2[k]);
        let l1 = header_line(hs1[k]);
        let l2 = header_line(hs2[k]);
        let n1 = hs1[k].0;
        let n2 = hs2[k].0;
        if n1.len() < n2.len() {
            assert(b[pos + n1.len() as int] == l1[n1.len() as int]);
            assert(b[pos + n1.len() as int] == l2[n1.len() as int]);
        }
        if n2.len() < n1.len() {
            assert(b[pos + n2.len() as int] == l1[n2.len() as int]);
            assert(b[pos + n2.len() as int] == l2[n2.len() as int]);
        }
        assert(n1.len() == n2.len());
        if l1.len() < l2.len() {
            assert(b[pos + l1.len() as int - 2] == l1[l1.len() - 2]);
            assert(b[pos + l1.len() as int - 2] == l2[l1.len() - 2]);
        }
        if l2.len() < l1.len() {
            assert(b[pos + l2.len() as int - 2] == l1[l2.len() - 2]);
            assert(b[pos + l2.len() as int - 2] == l2[l2.len() - 2]);
        }
        assert(l1.len() == l2.len());
        assert forall|i: int| 0 <= i < n1.len() implies n1[i] == n2[i] by {
            assert(b[pos + i] == l1[i]);
            assert(b[pos + i] == l2[i]);
        }
        assert(n1 =~= n2);
        let v1 = hs1[k].1;
        let v2 = hs2[k].1;
        assert forall|i: int| 0 <= i < v1.len() implies v1[i] == v2[i] by {
            assert(b[pos + n1.len() + 2 + i] == l1[n1.len() + 2 + i]);
            assert(b[pos + n1.len() + 2 + i] == l2[n1.len() + 2 + i]);
        }
        assert(v1 =~= v2);
        assert(hs1[k] == hs2[k]);
        lemma_headers_step(hs1, k);
        lemma_headers_step(hs2, k);
        assert(hs1.subrange(0, k + 1) =~= hs1.subrange(0, k).push(hs1[k]));
        assert(hs2.subrange(0, k + 1) =~= hs2.subrange(0, k).push(hs2[k]));
        lemma_headers_agree(b, pre, hs1, t1, hs2, t2, k + 1);
    }
}

/// Decoding is unambiguous: two requests whose heads, each followed by its body,
/// give the same bytes have the same method, path, headers and body. So a
/// request encoded and then decoded comes back with the fields it had.
pub proof fn lemma_decode_unambiguous(b: Seq<u8>, r1: Request<Vec<u8>>, r2: Request<Vec<u8>>)
    requires
        decodes_to(b, r1),
        decodes_to(b, r2),
    ensures
        r1.method@ == r2.method@,
        r1.path@ == r2.path@,
        headers_view(r1.headers@) == headers_view(r2.headers@),
        r1.body@ == r2.body@,
{
    let (m1, p1, m2, p2) = (r1.method@, r1.path@, r2.method@, r2.path@);
    lemma_request_line_shape(m1, p1);
    lemma_request_line_shape(m2, p2);
    let l1 = request_line(m1, p1);
    let l2 = request_line(m2, p2);
    let hs1 = headers_view(r1.headers@);
    let hs2 = headers_view(r2.headers@);
    assert(b == l1 + headers_bytes(hs1) + (crlf() + r1.body@));
    assert(b == l2 + headers_bytes(hs2) + (crlf() + r2.body@));
    assert forall|i: int| 0 <= i < l1.len() implies b[i] == #[trigger] l1[i] by {}
    assert forall|i: int| 0 <= i < l2.len() implies b[i] == #[trigger] l2[i] by {}
    if m1.len() < m2.len() {
        assert(b[m1.len() as int] == l1[m1.len() as int]);
        assert(b[m1.len() as int] == l2[m1.len() as int]);
    }
    if m2.len() < m1.len() {
        assert(b[m2.len() as int] == l1[m2.len() as int]);
        assert(b[m2.len() as int] == l2[m2.len() as int]);
    }
    assert(m1.len() == m2.len());
    let q1 = (m1.len() + 1 + p1.len()) as int;
    let q2 = (m2.len() + 1 + p2.len()) as int;
    if q1 < q2 {
        assert(b[q1] == l1[q1]);
        assert(b[q1] == l2[q1]);
    }
    if q2 < q1 {
        assert(b[q2] == l1[q2]);
        assert(b[q2] == l2[q2]);
    }
    assert(p1.len() == p2.len());
    assert forall|i: int| 0 <= i < m1.len() implies m1[i] == m2[i] by {
        assert(b[i] == l1[i]);
        assert(b[i] == l2[i]);
    }
    assert(m1 =~= m2);
    assert forall|i: int| 0 <= i < p1.len() implies p1[i] == p2[i] by {
        assert(b[m1.len() + 1 + i] == l1[m1.len() + 1 + i]);
        assert(b[m1.len() + 1 + i] == l2[m1.len() + 1 + i]);
    }
    assert(p1 =~= p2);
    assert(l1 == l2);
    assert forall|i: int| 0 <= i < hs1.len() implies header_wf(#[trigger] hs1[i]) by {
        assert(hs1[i] == header_view(r1.headers@[i]));
    }
    assert forall|i: int| 0 <= i < hs2.len() implies header_wf(#[trigger] hs2[i]) by {
        assert(hs2[i] == header_view(r2.headers@[i]));
    }
    assert(hs1.subrange(0, 0) =~= hs2.subrange(0, 0));
    lemma_headers_agree(b, l1, hs1, r1.body@, hs2, r2.body@, 0);
    let h = l1 + headers_bytes(hs1) + crlf();
    assert(b == h + r1.body@);
    assert(b == h + r2.body@);
    assert(r1.body@ =~= b.subrange(h.len() as int, b.len() as int));
    assert(r2.body@ =~= b.subrange(h.len() as int, b.len() as int));
}

/// Parses `<method> <path> HTTP/1.1\r\n`, header lines `<name>: <value>\r\n` and an
/// empty line; the bytes after the empty line are the body. It succeeds exactly on
/// the inputs that are the head of some request, encoded, followed by a body.
#[verifier::rlimit(80)]
pub fn decode_request(b: &[u8]) -> (r: Result<Request<Vec<u8>>, DecodeError>)
    ensures
        r is Ok <==> exists|r0: Request<Vec<u8>>| decodes_to(b@, r0),
        (r matches Err(DecodeError::Incomplete)) ==> !has_terminator(b@),
        !(r matches Err(DecodeError::Body(_))),
        r matches Ok(req) ==> decodes_to(b@, req),
{
    let ghost good = exists|r0: Request<Vec<u8>>| decodes_to(b@, r0);
    let ghost r0 = choose|r0: Request<Vec<u8>>| decodes_to(b@, r0);
    let ghost m0 = r0.method@;
    let ghost p0 = r0.path@;
    let ghost hs0 = headers_view(r0.headers@);
    let ghost line0 = request_line(m0, p0);
    proof {
        if good {
            lemma_request_line_shape(m0, p0);
            assert(b@ == line0 + headers_bytes(hs0) + (crlf() + r0.body@));
            assert forall|i: int| 0 <= i < line0.len() implies b@[i] == #[trigger] line0[i] by {}
            assert forall|k: int| 0 <= k < hs0.len() implies header_wf(#[trigger] hs0[k]) by {
                assert(hs0[k] == header_view(r0.headers@[k]));
            }
        }
    }
    let n = b.len();
    let e = match find_crlf(b, 0) {
        None => {
            proof {
                assert forall|j: int| !terminator_at(b@, j) by {
                    if terminator_at(b@, j) {
                        assert(crlf_at(b@, j));
                    }
                }
                if good {
                    assert(crlf_at(b@, line0.len() - 2));
                }
            }
            return Err(DecodeError::Incomplete);
        },
        Some(e) => e,
    };
    proof {
        if good {
            assert(crlf_at(b@, line0.len() - 2));
            if e < line0.len() - 2 {
                assert(b@[e as int] == line0[e as int]);
            }
            assert(e == line0.len() - 2);
        }
    }
    let sp1 = match find_byte(b, 0, e, SP) {
        None => {
            proof {
                if good {
                    assert(b@[m0.len() as int] == SP);
                }
            }
            return Err(DecodeError::Malformed);
        },
        Some(x) => x,
    };
    proof {
        if good {
            if sp1 < m0.len() {
                assert(b@[sp1 as int] == line0[sp1 as int]);
            }
            assert(b@[m0.len() as int] == SP);
            assert(sp1 == m0.len());
            assert(b@.subrange(0, sp1 as int) =~= m0);
        }
    }
    if !all_token_bytes(b, 0, sp1) {
        return Err(DecodeError::Malformed);
    }
    let sp2 = match find_byte(b, sp1 + 1, e, SP) {
        None => {
            proof {
                if good {
                    assert(b@[(m0.len() + 1 + p0.len()) as int] == SP);
                }
            }
            return Err(DecodeError::Malformed);
        },
        Some(x) => x,
    };
    proof {
        if good {
            if sp2 < m0.len() + 1 + p0.len() {
                assert(b@[sp2 as int] == line0[sp2 as int]);
            }
            assert(b@[(m0.len() + 1 + p0.len()) as int] == SP);
            assert(sp2 == m0.len() + 1 + p0.len());
            assert(b@.subrange(sp1 + 1, sp2 as int) =~= p0);
            assert(b@.subrange(sp2 as int, e as int) =~= line0.subrange(sp2 as int, e as int));
        }
    }
    if !all_path_bytes(b, sp1 + 1, sp2) {
        return Err(DecodeError::Malformed);
    }
    if !(e - sp2 == 9 && b[sp2 + 1] == 72 && b[sp2 + 2] == 84 && b[sp2 + 3] == 84 && b[sp2 + 4]
        == 80 && b[sp2 + 5] == 47 && b[sp2 + 6] == 49 && b[sp2 + 7] == 46 && b[sp2 + 8] == 49) {
        proof {
            if good {
                assert(b@.subrange(sp2 as int, e as int)[1] == 72);
            }
        }
        return Err(DecodeError::Malformed);
    }
    let method = copy_range(b, 0, sp1);
    let path = copy_range(b, sp1 + 1, sp2);
    proof {
        assert(b@.subrange(sp2 as int, e as int) =~= version_suffix());
        assert(b@.subrange(0, e + 2) =~= request_line(method@, path@));
        assert(request_line(method@, path@) + headers_bytes(Seq::empty()) =~= request_line(
            method@,
            path@,
        ));
        assert(headers_view(Seq::<Header>::empty()) =~= Seq::empty());
        assert forall|j: int| 0 <= j < e implies !terminator_at(b@, j) by {
            if terminator_at(b@, j) {
                assert(crlf_at(b@, j));
            }
        }
        if good {
            assert(hs0.subrange(0, 0) =~= Seq::<(Seq<u8>, Seq<u8>)>::empty());
        }
    }
    let mut headers: Vec<Header> = Vec::new();
    let mut pos = e + 2;
    let ghost mut k: int = 0;
    loop
        invariant
            e + 2 <= pos <= n,
            n == b@.len(),
            crlf_at(b@, pos - 2),
            forall|j: int| 0 <= j < pos - 2 ==> !terminator_at(b@, j),
            is_token(method@),
            is_path(path@),
            b@.subrange(0, pos as int) == request_line(method@, path@) + headers_bytes(
                headers_view(headers@),
            ),
            forall|i: int|
                0 <= i < headers@.len() ==> header_wf(#[trigger] header_view(headers@[i])),
            good == exists|r1: Request<Vec<u8>>| decodes_to(b@, r1),
            good ==> {
                &&& b@ == line0 + headers_bytes(hs0) + (crlf() + r0.body@)
                &&& forall|i: int| 0 <= i < hs0.len() ==> header_wf(#[trigger] hs0[i])
                &&& 0 <= k <= hs0.len()
                &&& pos == line0.len() + headers_bytes(hs0.subrange(0, k)).len()
            },
        decreases n - pos,
    {
        proof {
            if good {
                if k < hs0.len() {
                    lemma_line_in(b@, line0, hs0, crlf() + r0.body@, k);
                    lemma_header_line_shape(hs0[k]);
                } else {
                    assert(hs0.subrange(0, k) =~= hs0);
                    assert(b@[pos as int] == CR && b@[pos + 1] == LF);
                }
            }
        }
        let le = match find_crlf(b, pos) {
            None => {
                proof {
                    assert forall|j: int| !terminator_at(b@, j) by {
                        if terminator_at(b@, j) && j >= pos - 2 {
                            if j >= pos {
                                assert(crlf_at(b@, j));
                            } else if j == pos - 2 {
                                assert(crlf_at(b@, pos as int));
                            }
                        }
                    }
                    if good {
                        if k < hs0.len() {
                            let l = header_line(hs0[k]);
                            assert(l[l.len() - 2] == CR);
                            assert(b@[pos + l.len() - 2] == l[l.len() - 2]);
                            assert(b@[pos + l.len() - 1] == l[l.len() - 1]);
                            assert(crlf_at(b@, pos + l.len() - 2));
                            assert(false);
                        } else {
                            assert(crlf_at(b@, pos as int));
                            assert(false);
                        }
                    }
                }
                return Err(DecodeError::Incomplete);
            },
            Some(x) => x,
        };
        if le == pos {
            let body = copy_range(b, pos + 2, n);
            let req = Request { method, path, headers, body };
            proof {
                assert(b@.subrange(pos as int, pos + 2) =~= crlf());
                assert(b@ =~= b@.subrange(0, pos as int) + b@.subrange(pos as int, pos + 2)
                    + b@.subrange(pos + 2, n as int));
                assert(decodes_to(b@, req));
            }
            return Ok(req);
        }
        proof {
            if good {
                if k == hs0.len() {
                    assert(crlf_at(b@, pos as int));
                }
                let l = header_line(hs0[k]);
                let nm = hs0[k].0;
                if le < pos + l.len() - 2 {
                    assert(b@[le as int] == l[le - pos]);
                }
                assert(l[l.len() - 2] == CR);
                assert(b@[pos + l.len() - 2] == l[l.len() - 2]);
                assert(b@[pos + l.len() - 1] == l[l.len() - 1]);
                assert(crlf_at(b@, pos + l.len() - 2));
                assert(le == pos + l.len() - 2);
                assert(b@[pos + nm.len() as int] == l[nm.len() as int]);
            }
        }
        let colon = match find_byte(b, pos, le, COLON) {
            None => {
                proof {
                    if good {
                        let nm = hs0[k].0;
                        assert(b@[pos + nm.len() as int] == COLON);
                        assert(false);
                    }
                }
                return Err(DecodeError::Malformed);
            },
            Some(x) => x,
        };
        proof {
            if good {
                let l = header_line(hs0[k]);
                let nm = hs0[k].0;
                if colon < pos + nm.len() {
                    assert(b@[colon as int] == l[colon - pos]);
                }
                assert(colon == pos + nm.len());
                assert forall|i: int| 0 <= i < nm.len() implies b@.subrange(
                    pos as int,
                    colon as int,
                )[i] == nm[i] by {
                    assert(b@[pos + i] == l[i]);
                }
                assert(b@.subrange(pos as int, colon as int) =~= nm);
                assert(b@[colon + 1] == l[(nm.len() + 1) as int]);
                let v = hs0[k].1;
                assert forall|i: int| 0 <= i < v.len() implies b@.subrange(
                    colon + 2,
                    le as int,
                )[i] == v[i] by {
                    assert(b@[pos + nm.len() + 2 + i] == l[nm.len() + 2 + i]);
                }
                assert(b@.subrange(colon + 2, le as int) =~= v);
            }
        }
        if !all_token_bytes(b, pos, colon) {
            return Err(DecodeError::Malformed);
        }
        if colon + 1 >= le || b[colon + 1] != SP {
            return Err(DecodeError::Malformed);
        }
        if !all_value_bytes(b, colon + 2, le) {
            return Err(DecodeError::Malformed);
        }
        let name = copy_range(b, pos, colon);
        let value = copy_range(b, colon + 2, le);
        let h = Header { name, value };
        let ghost hv = headers_view(headers@);
        let ghost old_headers = headers@;
        headers.push(h);
        proof {
            assert(b@.subrange(pos as int, le + 2) =~= header_line(header_view(h)));
            assert(headers_view(headers@) =~= hv.push(header_view(h)));
            lemma_headers_push(hv, header_view(h));
            assert(b@.subrange(0, le + 2) =~= b@.subrange(0, pos as int) + b@.subrange(
                pos as int,
                le + 2,
            ));
            assert forall|i: int| 0 <= i < headers@.len() implies header_wf(
                #[trigger] header_view(headers@[i]),
            ) by {
                if i < old_headers.len() {
                    assert(headers@[i] == old_headers[i]);
                }
            }
            assert forall|j: int| 0 <= j < le implies !terminator_at(b@, j) by {
                if terminator_at(b@, j) && j >= pos - 2 {
                    if j >= pos {
                        assert(crlf_at(b@, j));
                    } else if j == pos - 2 {
                        assert(crlf_at(b@, pos as int));
                    }
                }
            }
            if good {
                lemma_headers_step(hs0, k);
                k = k + 1;
            }
        }
        pos = le + 2;
    }
}

/// Appends `s` to `out`.
fn append(out: &mut Vec<u8>, s: &[u8])
    ensures
        final(out)@ == old(out)@ + s@,
{
    let mut i: usize = 0;
    while i < s.len()
        invariant
            i <= s@.len(),
            out@ == old(out)@ + s@.subrange(0, i as int),
        decreases s@.len() - i,
    {
        out.push(s[i]);
        proof {
            assert(s@.subrange(0, i + 1) =~= s@.subrange(0, i as int).push(s@[i as int]));
        }
        i = i + 1;
    }
    proof {
        assert(s@.subrange(0, s@.len() as int) =~= s@);
    }
}

/// Appends the header lines of `hs`, in order.
fn append_headers(out: &mut Vec<u8>, hs: &Vec<Header>)
    ensures
        final(out)@ == old(out)@ + headers_bytes(headers_view(hs@)),
{
    let mut i: usize = 0;
    while i < hs.len()
        invariant
            i <= hs@.len(),
            out@ == old(out)@ + headers_bytes(headers_view(hs@.subrange(0, i as int))),
        decreases hs@.len() - i,
    {
        let ghost before = out@;
        append(out, hs[i].name.as_slice());
        out.push(COLON);
        out.push(SP);
        append(out, hs[i].value.as_slice());
        out.push(CR);
        out.push(LF);
        proof {
            let prev = headers_view(hs@.subrange(0, i as int));
            assert(headers_view(hs@.subrange(0, i + 1)) =~= prev.push(header_view(hs@[i as int])));
            lemma_headers_push(prev, header_view(hs@[i as int]));
            assert(out@ =~= before + header_line(header_view(hs@[i as int])));
        }
        i = i + 1;
    }
    proof {
        assert(hs@.subrange(0, hs@.len() as int) =~= hs@);
    }
}

/// Writes the request line, the header lines and the empty line of `r`.
pub fn encode_request_head<T>(r: &Request<T>) -> (out: Vec<u8>)
    ensures
        out@ == request_head(r.method@, r.path@, headers_view(r.headers@)),
{
    let mut out: Vec<u8> = Vec::new();
    append(&mut out, r.method.as_slice());
    out.push(SP);
    append(&mut out, r.path.as_slice());
    out.push(SP);
    out.push(72);
    out.push(84);
    out.push(84);
    out.push(80);
    out.push(47);
    out.push(49);
    out.push(46);
    out.push(49);
    out.push(CR);
    out.push(LF);
    proof {
        assert(out@ =~= request_line(r.method@, r.path@));
    }
    append_headers(&mut out, &r.headers);
    out.push(CR);
    out.push(LF);
    proof {
        assert(out@ =~= request_head(r.method@, r.path@, headers_view(r.headers@)));
    }
    out
}

/// Decoding and then encoding the head again gives back the bytes that were
/// decoded: the re-encoded request line and header lines are the input's first
/// bytes, byte for byte, and the body is all that follows them.
pub proof fn lemma_decode_then_encode(b: Seq<u8>, r: Request<Vec<u8>>)
    requires
        decodes_to(b, r),
    ensures
        b.subrange(0, request_head(r.method@, r.path@, headers_view(r.headers@)).len() as int)
            == request_head(r.method@, r.path@, headers_view(r.headers@)),
        b.subrange(
            request_head(r.method@, r.path@, headers_view(r.headers@)).len() as int,
            b.len() as int,
        ) == r.body@,
{
    let h = request_head(r.method@, r.path@, headers_view(r.headers@));
    assert(b.subrange(0, h.len() as int) =~= h);
    assert(b.subrange(h.len() as int, b.len() as int) =~= r.body@);
}

/// Status code of a failure response.
pub const INTERNAL_ERROR: u16 = 500;

/// Status code of a successful response.
pub const OK: u16 = 200;

/// The digits of `n` in base ten, most significant first.
pub open spec fn decimal(n: nat) -> Seq<u8>
    decreases n,
{
    if n < 10 {
        seq![(48 + n) as u8]
    } else {
        decimal(n / 10).push((48 + n % 10) as u8)
    }
}

/// The standard phrase that goes with a status code, where it has one.
pub uninterp spec fn canonical_reason_of(code: u16) -> Option<Seq<u8>>;

/// Relies on http's `StatusCode::canonical_reason`: the phrase that the crate's
/// status table gives for `code`, or `None`. `StatusCode::from_u16` only turns the
/// number into the crate's type and refuses codes outside `100 ..= 999`, which
/// have no phrase. The table gives `OK` for 200 and `Internal Server Error` for 500.
#[verifier::external_body]
fn canonical_reason(code: u16) -> (r: Option<Vec<u8>>)
    ensures
        r matches Some(p) ==> canonical_reason_of(code) == Some(p@),
        r is None ==> canonical_reason_of(code) is None,
        code == 200 ==> r is Some && r->Some_0@ == "OK".spec_bytes(),
        code == 500 ==> r is Some && r->Some_0@ == "Internal Server Error".spec_bytes(),
{
    match http::StatusCode::from_u16(code) {
        Ok(status) => status.canonical_reason().map(|p| p.as_bytes().to_vec()),
        Err(_) => None,
    }
}

/// The phrase written after the status code: the standard one, or `UNKNOWN`.
pub open spec fn reason_text(code: u16) -> Seq<u8> {
    match canonical_reason_of(code) {
        Some(p) => p,
        None => "UNKNOWN".spec_bytes(),
    }
}

pub open spec fn ascii_lower(c: u8) -> u8 {
    if 65 <= c <= 90 {
        (c + 32) as u8
    } else {
        c
    }
}

/// `a` and `b` are the same name when ASCII case is ignored.
pub open spec fn same_name(a: Seq<u8>, b: Seq<u8>) -> bool {
    a.len() == b.len() && forall|i: int| 0 <= i < a.len() ==> ascii_lower(#[trigger] a[i]) == ascii_lower(b[i])
}

pub open spec fn content_length_name() -> Seq<u8> {
    "content-length".spec_bytes()
}

pub open spec fn has_content_length(hs: Seq<(Seq<u8>, Seq<u8>)>) -> bool {
    exists|i: int| 0 <= i < hs.len() && same_name(#[trigger] hs[i].0, content_length_name())
}

/// The headers as written: a `content-length` header with the body's length is
/// added at the end when none is there.
pub open spec fn with_length(hs: Seq<(Seq<u8>, Seq<u8>)>, body_len: nat) -> Seq<(Seq<u8>, Seq<u8>)> {
    if has_content_length(hs) {
        hs
    } else {
        hs.push((content_length_name(), decimal(body_len)))
    }
}

/// `HTTP/1.1 <code> <reason>\r\n`, the header lines, an empty line, the body and a
/// final line end.
pub open spec fn response_bytes(
    status: u16,
    headers: Seq<(Seq<u8>, Seq<u8>)>,
    body: Seq<u8>,
) -> Seq<u8> {
    status_line(status) + headers_bytes(with_length(headers, body.len())) + crlf() + body + crlf()
}

/// `HTTP/1.1 <code> <reason>\r\n`
pub open spec fn status_line(status: u16) -> Seq<u8> {
    status_prefix() + decimal(status as nat) + seq![SP] + reason_text(status) + crlf()
}

/// `ERROR: `, what opens the body of a failure response.
pub open spec fn error_prefix() -> Seq<u8> {
    "ERROR: ".spec_bytes()
}

pub open spec fn decode_error_text(e: DecodeError) -> Seq<u8> {
    match e {
        DecodeError::Incomplete => "incomplete request head".spec_bytes(),
        DecodeError::Malformed => "malformed request head".spec_bytes(),
        DecodeError::Body(m) => m@,
    }
}

/// The bytes of a string literal.
fn literal(s: &str) -> (r: Vec<u8>)
    ensures
        r@ == s.spec_bytes(),
{
    slice_to_vec(s.as_bytes())
}

fn push_decimal(out: &mut Vec<u8>, n: usize)
    ensures
        final(out)@ == old(out)@ + decimal(n as nat),
    decreases n,
{
    if n >= 10 {
        push_decimal(out, n / 10);
    }
    out.push(48 + (n % 10) as u8);
    proof {
        assert(out@ =~= old(out)@ + decimal(n as nat));
    }
}

/// Writes `n` in base ten.
pub fn decimal_bytes(n: usize) -> (r: Vec<u8>)
    ensures
        r@ == decimal(n as nat),
{
    let mut r: Vec<u8> = Vec::new();
    push_decimal(&mut r, n);
    proof {
        assert(r@ =~= decimal(n as nat));
    }
    r
}

fn is_content_length(name: &[u8]) -> (r: bool)
    ensures
        r == same_name(name@, content_length_name()),
{
    let target = literal("content-length");
    if name.len() != target.len() {
        return false;
    }
    let mut i: usize = 0;
    while i < name.len()
        invariant
            i <= name@.len() == target@.len(),
            target@ == content_length_name(),
            forall|j: int| 0 <= j < i ==> ascii_lower(#[trigger] name@[j]) == ascii_lower(target@[j]),
        decreases name@.len() - i,
    {
        let a = name[i];
        let b = target[i];
        let la = if 65 <= a && a <= 90 { a + 32 } else { a };
        let lb = if 65 <= b && b <= 90 { b + 32 } else { b };
        if la != lb {
            return false;
        }
        i = i + 1;
    }
    true
}

fn find_content_length(hs: &Vec<Header>) -> (r: bool)
    ensures
        r == has_content_length(headers_view(hs@)),
{
    let mut i: usize = 0;
    while i < hs.len()
        invariant
            i <= hs@.len(),
            forall|j: int| 0 <= j < i ==> !same_name(#[trigger] hs@[j].name@, content_length_name()),
        decreases hs@.len() - i,
    {
        if is_content_length(hs[i].name.as_slice()) {
            proof {
                assert(headers_view(hs@)[i as int].0 == hs@[i as int].name@);
            }
            return true;
        }
        i = i + 1;
    }
    proof {
        let v = headers_view(hs@);
        assert forall|j: int| 0 <= j < v.len() implies !same_name(#[trigger] v[j].0, content_length_name()) by {
            assert(v[j].0 == hs@[j].name@);
        }
    }
    false
}

/// Writes a response with an already encoded body.
#[verifier::rlimit(40)]
pub fn encode_response_bytes(status: u16, headers: &Vec<Header>, body: &[u8]) -> (out: Vec<u8>)
    ensures
        out@ == response_bytes(status, headers_view(headers@), body@),
{
    let mut out = literal("HTTP/1.1 ");
    push_decimal(&mut out, status as usize);
    out.push(SP);
    match canonical_reason(status) {
        Some(p) => append(&mut out, p.as_slice()),
        None => {
            let u = literal("UNKNOWN");
            append(&mut out, u.as_slice());
        },
    }
    out.push(CR);
    out.push(LF);
    let ghost line = out@;
    assert(line =~= status_line(status));
    append_headers(&mut out, headers);
    if !find_content_length(headers) {
        let name = literal("content-length");
        append(&mut out, name.as_slice());
        out.push(COLON);
        out.push(SP);
        let ghost before = out@;
        push_decimal(&mut out, body.len());
        out.push(CR);
        out.push(LF);
        proof {
            let hv = headers_view(headers@);
            lemma_headers_push(hv, (content_length_name(), decimal(body@.len())));
            assert(out@ =~= line + headers_bytes(with_length(hv, body@.len())));
        }
    }
    let ghost head = out@;
    assert(head == status_line(status) + headers_bytes(with_length(headers_view(headers@), body@.len())));
    out.push(CR);
    out.push(LF);
    append(&mut out, body);
    out.push(CR);
    out.push(LF);
    proof {
        assert(out@ =~= response_bytes(status, headers_view(headers@), body@));
    }
    out
}

/// The response that reports a failure: the internal-error status, no headers of
/// its own, and `ERROR: ` followed by the cause as its body.
pub fn failure_response(cause: &[u8]) -> (r: Response<Vec<u8>>)
    ensures
        r.status == INTERNAL_ERROR,
        r.headers@.len() == 0,
        r.body@ == error_prefix() + cause@,
{
    let mut body = literal("ERROR: ");
    append(&mut body, cause);
    Response { status: INTERNAL_ERROR, headers: Vec::new(), body }
}

impl DecodeError {
    /// What went wrong, as text.
    pub fn message(&self) -> (r: Vec<u8>)
        ensures
            r@ == decode_error_text(*self),
    {
        match self {
            DecodeError::Incomplete => literal("incomplete request head"),
            DecodeError::Malformed => literal("malformed request head"),
            DecodeError::Body(m) => m.clone(),
        }
    }
}

} // verus!
