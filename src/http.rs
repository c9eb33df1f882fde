use vstd::prelude::*;
use vstd::slice::slice_to_vec;
use vstd::utf8::encode_utf8;
use crate::text::{
    chars_of, decimal, eq_ignore_ascii_case, equal_ignoring_case, find, find_from,
    lemma_find_from_range, push_decimal, starts_with, starts_with_at, string_of, substring,
};

verus! {

#[derive(Debug, Clone, Copy, PartialEq, Eq, Structural)]
pub enum HttpMethod {
    GET,
    POST,
    PUT,
    DELETE,
    OPTIONS,
    OTHER,
}

/// Header lines, in order; a key appears at most once when built by `set_pair`.
pub type HeaderList = Seq<(Seq<char>, Seq<char>)>;

pub open spec fn pair_views(v: Seq<(String, String)>) -> HeaderList {
    v.map_values(|p: (String, String)| (p.0@, p.1@))
}

/// Where key `k` first stands in `hs`, searching from `i`.
pub open spec fn key_index(hs: HeaderList, k: Seq<char>, i: int) -> Option<int>
    decreases hs.len() - i,
{
    if i < 0 || i >= hs.len() {
        None
    } else if hs[i].0 == k {
        Some(i)
    } else {
        key_index(hs, k, i + 1)
    }
}

pub proof fn lemma_key_index_range(hs: HeaderList, k: Seq<char>, i: int)
    ensures
        key_index(hs, k, i) matches Some(j) ==> i <= j < hs.len() && hs[j].0 == k,
    decreases hs.len() - i,
{
    if 0 <= i < hs.len() && hs[i].0 != k {
        lemma_key_index_range(hs, k, i + 1);
    }
}

/// The value of `k` in `hs`, if present.
pub open spec fn lookup(hs: HeaderList, k: Seq<char>) -> Option<Seq<char>> {
    match key_index(hs, k, 0) {
        Some(i) => Some(hs[i].1),
        None => None,
    }
}

/// Sets `k` to `v`: in place where `k` is present (last write wins), else at the end.
pub open spec fn set_pair(hs: HeaderList, k: Seq<char>, v: Seq<char>) -> HeaderList {
    match key_index(hs, k, 0) {
        Some(i) => hs.update(i, (k, v)),
        None => hs.push((k, v)),
    }
}

pub open spec fn sp() -> Seq<char> {
    seq![' ']
}

pub open spec fn crlf() -> Seq<char> {
    seq!['\r', '\n']
}

pub open spec fn blank_line() -> Seq<char> {
    seq!['\r', '\n', '\r', '\n']
}

pub open spec fn colon_sp() -> Seq<char> {
    seq![':', ' ']
}

/// The method named at the very start of the text.
pub open spec fn method_of(c: Seq<char>) -> Option<HttpMethod> {
    if starts_with(c, seq!['G', 'E', 'T']) {
        Some(HttpMethod::GET)
    } else if starts_with(c, seq!['P', 'O', 'S', 'T']) {
        Some(HttpMethod::POST)
    } else if starts_with(c, seq!['P', 'U', 'T']) {
        Some(HttpMethod::PUT)
    } else if starts_with(c, seq!['D', 'E', 'L', 'E', 'T', 'E']) {
        Some(HttpMethod::DELETE)
    } else if starts_with(c, seq!['O', 'P', 'T', 'I', 'O', 'N', 'S']) {
        Some(HttpMethod::OPTIONS)
    } else {
        None
    }
}

/// Adds the header on line `c[lo..hi]`, split at its first ": ", if it has one.
pub open spec fn with_line(hs: HeaderList, c: Seq<char>, lo: int, hi: int) -> HeaderList {
    match find_from(c.subrange(0, hi), colon_sp(), lo) {
        Some(j) => set_pair(hs, c.subrange(lo, j), c.subrange(j + 2, hi)),
        None => hs,
    }
}

/// The headers on the lines of `c[pos..end]`, added to `hs`.
pub open spec fn header_lines(hs: HeaderList, c: Seq<char>, pos: int, end: int) -> HeaderList
    decreases end - pos,
{
    if pos > end || end > c.len() || pos < 0 {
        hs
    } else {
        match find_from(c.subrange(0, end), crlf(), pos) {
            Some(i) => if pos <= i && i + 2 <= end {
                header_lines(with_line(hs, c, pos, i), c, i + 2, end)
            } else {
                hs
            },
            None => with_line(hs, c, pos, end),
        }
    }
}

pub ghost struct RequestModel {
    pub method: HttpMethod,
    pub version: Seq<char>,
    pub path: Seq<char>,
    pub headers: HeaderList,
}

/// The request that the text `c` spells. Its first line, up to the first CRLF, is
/// `METHOD SP path SP version`; header lines follow up to the first blank line (none
/// when there is no blank line).
pub open spec fn request_of(c: Seq<char>) -> Option<RequestModel> {
    match method_of(c) {
        None => None,
        Some(method) => match find_from(c, crlf(), 0) {
            None => None,
            Some(eol) => {
                let line = c.subrange(0, eol);
                match find_from(line, sp(), 0) {
                    None => None,
                    Some(i1) => match find_from(line, sp(), i1 + 1) {
                        None => None,
                        Some(i2) => {
                            let hs = eol + 2;
                            let he = match find_from(c, blank_line(), hs) {
                                Some(e) => e,
                                None => hs,
                            };
                            Some(
                                RequestModel {
                                    method,
                                    path: c.subrange(i1 + 1, i2),
                                    version: c.subrange(i2 + 1, eol),
                                    headers: header_lines(Seq::empty(), c, hs, he),
                                },
                            )
                        },
                    },
                }
            },
        },
    }
}

pub open spec fn is_handshake(hs: HeaderList) -> bool {
    exists|i: int|
        0 <= i < hs.len() && eq_ignore_ascii_case(hs[i].0, "upgrade"@) && eq_ignore_ascii_case(
            hs[i].1,
            "websocket"@,
        )
}

#[derive(Debug)]
pub struct HttpRequest {
    pub method: HttpMethod,
    pub version: String,
    pub path: String,
    /// Header lines in arrival order, each key once; a repeated key keeps its last value.
    pub headers: Vec<(String, String)>,
}

impl View for HttpRequest {
    type V = RequestModel;

    open spec fn view(&self) -> RequestModel {
        RequestModel {
            method: self.method,
            version: self.version@,
            path: self.path@,
            headers: pair_views(self.headers@),
        }
    }
}

/// Where `k` stands in `hs`.
fn index_of_key(hs: &Vec<(String, String)>, k: &String) -> (r: Option<usize>)
    ensures
        match r {
            Some(i) => key_index(pair_views(hs@), k@, 0) == Some(i as int),
            None => key_index(pair_views(hs@), k@, 0).is_none(),
        },
{
    let ghost v = pair_views(hs@);
    proof { lemma_key_index_range(v, k@, 0); }
    let mut i: usize = 0;
    while i < hs.len()
        invariant
            i <= hs.len(),
            v == pair_views(hs@),
            key_index(v, k@, 0) == key_index(v, k@, i as int),
        decreases hs.len() - i,
    {
        if hs[i].0 == *k {
            return Some(i);
        }
        i += 1;
    }
    None
}

/// Sets header `k` to `v`, keeping the place of an earlier line with the same key.
pub fn set_header(hs: &mut Vec<(String, String)>, k: String, v: String)
    ensures
        pair_views(final(hs)@) == set_pair(pair_views(old(hs)@), k@, v@),
{
    proof { lemma_key_index_range(pair_views(hs@), k@, 0); }
    match index_of_key(hs, &k) {
        Some(i) => {
            hs.set(i, (k, v));
        },
        None => {
            hs.push((k, v));
        },
    }
    assert(pair_views(hs@) =~= set_pair(pair_views(old(hs)@), k@, v@));
}

fn method_from(c: &Vec<char>) -> (r: Option<HttpMethod>)
    ensures
        r == method_of(c@),
{
    if starts_with_at(c, &vec!['G', 'E', 'T']) {
        Some(HttpMethod::GET)
    } else if starts_with_at(c, &vec!['P', 'O', 'S', 'T']) {
        Some(HttpMethod::POST)
    } else if starts_with_at(c, &vec!['P', 'U', 'T']) {
        Some(HttpMethod::PUT)
    } else if starts_with_at(c, &vec!['D', 'E', 'L', 'E', 'T', 'E']) {
        Some(HttpMethod::DELETE)
    } else if starts_with_at(c, &vec!['O', 'P', 'T', 'I', 'O', 'N', 'S']) {
        Some(HttpMethod::OPTIONS)
    } else {
        None
    }
}

impl std::str::FromStr for HttpMethod {
    type Err = &'static str;

    fn from_str(s: &str) -> (r: Result<HttpMethod, &'static str>)
        ensures
            match method_of(s@) {
                Some(m) => r == Ok::<HttpMethod, &'static str>(m),
                None => r.is_err(),
            },
    {
        match HttpMethod::from_text(s) {
            Some(m) => Ok(m),
            None => Err("not an HTTP method"),
        }
    }
}

impl HttpMethod {
    /// The method that the text starts with.
    pub fn from_text(s: &str) -> (r: Option<HttpMethod>)
        ensures
            r == method_of(s@),
    {
        method_from(&chars_of(s))
    }
}

fn add_line(hs: &mut Vec<(String, String)>, c: &Vec<char>, lo: usize, hi: usize)
    requires
        lo <= hi <= c.len(),
    ensures
        pair_views(final(hs)@) == with_line(pair_views(old(hs)@), c@, lo as int, hi as int),
{
    let pat = vec![':', ' '];
    assert(pat@ =~= colon_sp());
    match find(c, lo, hi, &pat) {
        Some(j) => {
            proof {
                lemma_find_from_range(c@.subrange(0, hi as int), colon_sp(), lo as int);
            }
            let k = substring(c, lo, j);
            let v = substring(c, j + 2, hi);
            set_header(hs, k, v);
        },
        None => {},
    }
}

fn add_lines(hs: &mut Vec<(String, String)>, c: &Vec<char>, start: usize, end: usize)
    requires
        start <= end <= c.len(),
    ensures
        pair_views(final(hs)@) == header_lines(pair_views(old(hs)@), c@, start as int, end as int),
{
    let mut pos = start;
    while pos <= end
        invariant
            start <= pos <= end + 2,
            end <= c.len(),
            pos <= end ==> header_lines(pair_views(hs@), c@, pos as int, end as int) == header_lines(
                pair_views(old(hs)@),
                c@,
                start as int,
                end as int,
            ),
            pos > end ==> pair_views(hs@) == header_lines(pair_views(old(hs)@), c@, start as int, end as int),
        decreases end + 1 - pos,
    {
        let pat = vec!['\r', '\n'];
        assert(pat@ =~= crlf());
        match find(c, pos, end, &pat) {
            Some(i) => {
                proof {
                    lemma_find_from_range(c@.subrange(0, end as int), crlf(), pos as int);
                }
                add_line(hs, c, pos, i);
                pos = i + 2;
                if pos > end {
                    // the last line ended right at `end`: nothing follows it
                    return;
                }
            },
            None => {
                add_line(hs, c, pos, end);
                return;
            },
        }
    }
}

/// Parses the text of an HTTP request head.
pub fn parse_request(c: &Vec<char>) -> (r: Option<HttpRequest>)
    ensures
        match request_of(c@) {
            Some(m) => r matches Some(req) && req@ == m,
            None => r.is_none(),
        },
{
    let n = c.len();
    assert(c@.subrange(0, n as int) =~= c@);
    let method = match method_from(c) {
        Some(m) => m,
        None => return None,
    };
    let space = vec![' '];
    assert(space@ =~= sp());
    let eol_pat = vec!['\r', '\n'];
    assert(eol_pat@ =~= crlf());
    let blank = vec!['\r', '\n', '\r', '\n'];
    assert(blank@ =~= blank_line());
    let eol = match find(c, 0, n, &eol_pat) {
        Some(i) => i,
        None => return None,
    };
    proof { lemma_find_from_range(c@, crlf(), 0); }
    let i1 = match find(c, 0, eol, &space) {
        Some(i) => i,
        None => return None,
    };
    proof { lemma_find_from_range(c@.subrange(0, eol as int), sp(), 0); }
    let i2 = match find(c, i1 + 1, eol, &space) {
        Some(i) => i,
        None => return None,
    };
    proof { lemma_find_from_range(c@.subrange(0, eol as int), sp(), i1 + 1); }
    let i3 = eol;
    let hs = i3 + 2;
    let he = match find(c, hs, n, &blank) {
        Some(e) => e,
        None => hs,
    };
    proof { lemma_find_from_range(c@, blank_line(), hs as int); }
    let mut headers: Vec<(String, String)> = Vec::new();
    assert(pair_views(headers@) =~= Seq::empty());
    add_lines(&mut headers, c, hs, he);
    Some(
        HttpRequest {
            method,
            path: substring(c, i1 + 1, i2),
            version: substring(c, i2 + 1, i3),
            headers,
        },
    )
}

impl HttpRequest {
    /// A request carrying `Upgrade: websocket`, in any letter case.
    pub fn is_websocket_handshake(&self) -> (r: bool)
        ensures
            r == is_handshake(self@.headers),
    {
        let upgrade = chars_of("upgrade");
        let websocket = chars_of("websocket");
        let mut i: usize = 0;
        while i < self.headers.len()
            invariant
                i <= self.headers.len(),
                upgrade@ == "upgrade"@,
                websocket@ == "websocket"@,
                forall|j: int|
                    0 <= j < i ==> !(eq_ignore_ascii_case(pair_views(self.headers@)[j].0, "upgrade"@)
                        && eq_ignore_ascii_case(pair_views(self.headers@)[j].1, "websocket"@)),
            decreases self.headers.len() - i,
        {
            let k = chars_of(self.headers[i].0.as_str());
            let v = chars_of(self.headers[i].1.as_str());
            if equal_ignoring_case(&k, &upgrade) && equal_ignoring_case(&v, &websocket) {
                assert(pair_views(self.headers@)[i as int] == (k@, v@));
                return true;
            }
            i += 1;
        }
        false
    }

    /// The value of header `name`, matched exactly.
    pub fn header(&self, name: &str) -> (r: Option<String>)
        ensures
            match lookup(self@.headers, name@) {
                Some(v) => r matches Some(s) && s@ == v,
                None => r.is_none(),
            },
    {
        let c = chars_of(name);
        let k = string_of(c.as_slice());
        assert(k@ == name@);
        proof { lemma_key_index_range(self@.headers, name@, 0); }
        match index_of_key(&self.headers, &k) {
            Some(i) => {
                let v = self.headers[i].1.clone();
                assert(self@.headers[i as int].1 == self.headers@[i as int].1@);
                Some(v)
            },
            None => None,
        }
    }
}


/// The byte-level form of a response.
pub ghost struct ResponseModel {
    pub version: Seq<char>,
    pub code: u16,
    pub reason: Seq<char>,
    pub headers: HeaderList,
    pub body: Option<Seq<u8>>,
}

pub open spec fn header_line(h: (Seq<char>, Seq<char>)) -> Seq<char> {
    h.0 + colon_sp() + h.1
}

/// The header lines joined by CRLF.
pub open spec fn header_block(hs: HeaderList) -> Seq<char>
    decreases hs.len(),
{
    if hs.len() == 0 {
        Seq::empty()
    } else if hs.len() == 1 {
        header_line(hs[0])
    } else {
        header_block(hs.drop_last()) + crlf() + header_line(hs.last())
    }
}

/// Status line, header lines, blank line.
pub open spec fn head_text(m: ResponseModel) -> Seq<char> {
    m.version + sp() + decimal(m.code as nat) + sp() + m.reason + crlf() + header_block(m.headers) + crlf()
        + crlf()
}

pub open spec fn response_bytes(m: ResponseModel) -> Seq<u8> {
    encode_utf8(head_text(m)) + match m.body {
        Some(b) => b,
        None => Seq::empty(),
    }
}

pub open spec fn default_header_list() -> HeaderList {
    seq![
        ("Server"@, "rust-001"@),
        ("Cross-Origin-Opener-Policy"@, "same-origin"@),
        ("Cross-Origin-Embedder-Policy"@, "require-corp"@),
    ]
}

/// What follows the last '.' of a path; the whole path when it has none.
pub open spec fn extension(p: Seq<char>) -> Seq<char>
    decreases p.len(),
{
    if p.len() == 0 {
        p
    } else if p.last() == '.' {
        Seq::empty()
    } else {
        extension(p.drop_last()).push(p.last())
    }
}

pub open spec fn content_type_of(path: Seq<char>) -> Seq<char> {
    let ext = extension(path);
    if eq_ignore_ascii_case(ext, "js"@) {
        "text/javascript"@
    } else if eq_ignore_ascii_case(ext, "html"@) {
        "text/html"@
    } else if eq_ignore_ascii_case(ext, "css"@) {
        "text/css"@
    } else {
        "application/octet-stream"@
    }
}

pub open spec fn not_found_model() -> ResponseModel {
    ResponseModel {
        version: "HTTP/1.1"@,
        code: 404,
        reason: "Not Found"@,
        headers: set_pair(default_header_list(), "content-length"@, decimal(0)),
        body: None,
    }
}

pub open spec fn file_model(path: Seq<char>, body: Seq<u8>) -> ResponseModel {
    ResponseModel {
        version: "HTTP/1.1"@,
        code: 200,
        reason: "OK"@,
        headers: set_pair(
            set_pair(default_header_list(), "content-length"@, decimal(body.len())),
            "content-type"@,
            content_type_of(path),
        ),
        body: Some(body),
    }
}

pub open spec fn handshake_model(accept: Seq<char>) -> ResponseModel {
    ResponseModel {
        version: "HTTP/1.1"@,
        code: 101,
        reason: "Switching Protocols"@,
        headers: seq![
            ("Sec-Websocket-Accept"@, accept),
            ("Connection"@, "upgrade"@),
            ("Upgrade"@, "websocket"@),
        ],
        body: None,
    }
}

/// The GUID that RFC 6455 appends to a client's key.
pub const WEBSOCKET_GUID: &'static str = "258EAFA5-E914-47DA-95CA-C5AB0DC85B11";

/// The SHA-1 digest of some bytes.
pub uninterp spec fn sha1_of(data: Seq<u8>) -> Seq<u8>;

/// The standard, padded base64 text of some bytes.
pub uninterp spec fn base64_of(data: Seq<u8>) -> Seq<char>;

/// Relies on `sha1::Sha1::digest`: the 20-byte SHA-1 digest of the input.
#[verifier::external_body]
fn sha1_digest(data: &[u8]) -> (r: Vec<u8>)
    ensures
        r@ == sha1_of(data@),
        r@.len() == 20,
{
    <sha1::Sha1 as sha1::Digest>::digest(data).to_vec()
}

/// Relies on `base64`'s `STANDARD` engine `encode`: padded base64 of the input. It
/// panics only when the output length overflows `usize`.
#[verifier::external_body]
fn base64_encode(data: &[u8]) -> (r: String)
    requires
        data@.len() <= 0x1000_0000,
    ensures
        r@ == base64_of(data@),
{
    base64::Engine::encode(&base64::engine::general_purpose::STANDARD, data)
}

/// The accept token for a client key: base64 of the SHA-1 of the key's bytes followed by
/// the GUID's bytes.
pub open spec fn accept_token(key: Seq<char>) -> Seq<char> {
    base64_of(sha1_of(encode_utf8(key) + encode_utf8(WEBSOCKET_GUID@)))
}

pub fn websocket_accept_key(key: &str) -> (r: String)
    ensures
        r@ == accept_token(key@),
{
    let mut data = slice_to_vec(key.as_bytes());
    let guid = slice_to_vec(WEBSOCKET_GUID.as_bytes());
    data.append(&mut guid.clone());
    let digest = sha1_digest(data.as_slice());
    base64_encode(digest.as_slice())
}

pub struct HttpResponse {
    pub protocol_version: String,
    pub status_code: u16,
    pub status_msg: String,
    /// Header lines in the order they are written, each key once.
    pub headers: Vec<(String, String)>,
    pub body: Option<Vec<u8>>,
}

impl View for HttpResponse {
    type V = ResponseModel;

    open spec fn view(&self) -> ResponseModel {
        ResponseModel {
            version: self.protocol_version@,
            code: self.status_code,
            reason: self.status_msg@,
            headers: pair_views(self.headers@),
            body: match self.body {
                Some(b) => Some(b@),
                None => None,
            },
        }
    }
}

pub fn push_all(out: &mut Vec<char>, s: &Vec<char>)
    ensures
        final(out)@ == old(out)@ + s@,
{
    let mut i: usize = 0;
    while i < s.len()
        invariant
            i <= s.len(),
            out@ == old(out)@ + s@.subrange(0, i as int),
        decreases s.len() - i,
    {
        out.push(s[i]);
        i += 1;
        assert(out@ =~= old(out)@ + s@.subrange(0, i as int));
    }
    assert(s@.subrange(0, s.len() as int) =~= s@);
}

/// The index just after the last '.' of `p`, or 0.
fn extension_start(p: &Vec<char>) -> (r: usize)
    ensures
        r <= p.len(),
        extension(p@) == p@.subrange(r as int, p.len() as int),
{
    let mut i = p.len();
    assert(p@.take(i as int) =~= p@);
    assert(p@.subrange(i as int, i as int) =~= Seq::<char>::empty());
    while i > 0 && p[i - 1] != '.'
        invariant
            i <= p.len(),
            extension(p@) == extension(p@.take(i as int)) + p@.subrange(i as int, p.len() as int),
        decreases i,
    {
        assert(p@.take(i as int).drop_last() =~= p@.take(i - 1));
        assert(p@.subrange(i - 1, p.len() as int) =~= seq![p@[i - 1]] + p@.subrange(i as int, p.len() as int));
        i -= 1;
    }
    i
}

impl HttpResponse {
    fn default_headers() -> (r: Vec<(String, String)>)
        ensures
            pair_views(r@) == default_header_list(),
    {
        let mut ret: Vec<(String, String)> = Vec::new();
        ret.push(("Server".to_owned(), "rust-001".to_owned()));
        ret.push(("Cross-Origin-Opener-Policy".to_owned(), "same-origin".to_owned()));
        ret.push(("Cross-Origin-Embedder-Policy".to_owned(), "require-corp".to_owned()));
        assert(pair_views(ret@) =~= default_header_list());
        ret
    }

    fn with_content_length(self, size: usize) -> (r: Self)
        ensures
            r@ == (ResponseModel {
                headers: set_pair(self@.headers, "content-length"@, decimal(size as nat)),
                ..self@
            }),
    {
        let mut res = self;
        let mut digits: Vec<char> = Vec::new();
        push_decimal(&mut digits, size as u64);
        assert(digits@ =~= decimal(size as nat));
        set_header(&mut res.headers, "content-length".to_owned(), string_of(digits.as_slice()));
        res
    }

    fn with_content_type(self, content_type: &str) -> (r: Self)
        ensures
            r@ == (ResponseModel { headers: set_pair(self@.headers, "content-type"@, content_type@), ..self@ }),
    {
        let mut res = self;
        set_header(&mut res.headers, "content-type".to_owned(), content_type.to_owned());
        res
    }

    pub fn not_found() -> (r: HttpResponse)
        ensures
            r@ == not_found_model(),
    {
        HttpResponse {
            protocol_version: "HTTP/1.1".to_owned(),
            status_code: 404,
            status_msg: "Not Found".to_owned(),
            headers: Self::default_headers(),
            body: None,
        }.with_content_length(0)
    }

    /// The response for a static file: its contents, or `None` where it could not be read.
    pub fn file_content(filepath: &str, contents: Option<Vec<u8>>) -> (r: HttpResponse)
        ensures
            r@ == match contents {
                Some(b) => file_model(filepath@, b@),
                None => not_found_model(),
            },
    {
        match contents {
            None => Self::not_found(),
            Some(payload) => {
                let len = payload.len();
                let path = chars_of(filepath);
                let start = extension_start(&path);
                let mut ext: Vec<char> = Vec::new();
                let mut i = start;
                while i < path.len()
                    invariant
                        start <= i <= path.len(),
                        ext@ == path@.subrange(start as int, i as int),
                    decreases path.len() - i,
                {
                    ext.push(path[i]);
                    i += 1;
                    assert(ext@ =~= path@.subrange(start as int, i as int));
                }
                let content_type = if equal_ignoring_case(&ext, &chars_of("js")) {
                    "text/javascript"
                } else if equal_ignoring_case(&ext, &chars_of("html")) {
                    "text/html"
                } else if equal_ignoring_case(&ext, &chars_of("css")) {
                    "text/css"
                } else {
                    "application/octet-stream"
                };
                HttpResponse {
                    protocol_version: "HTTP/1.1".to_owned(),
                    status_code: 200,
                    status_msg: "OK".to_owned(),
                    headers: Self::default_headers(),
                    body: Some(payload),
                }.with_content_length(len).with_content_type(content_type)
            },
        }
    }

    /// The 101 response that completes a handshake with the given accept token.
    pub fn handshake_response(accept_key: String) -> (r: HttpResponse)
        ensures
            r@ == handshake_model(accept_key@),
    {
        let mut headers: Vec<(String, String)> = Vec::new();
        headers.push(("Sec-Websocket-Accept".to_owned(), accept_key));
        headers.push(("Connection".to_owned(), "upgrade".to_owned()));
        headers.push(("Upgrade".to_owned(), "websocket".to_owned()));
        let r = HttpResponse {
            protocol_version: "HTTP/1.1".to_owned(),
            status_code: 101,
            status_msg: "Switching Protocols".to_owned(),
            headers,
            body: None,
        };
        assert(r@.headers =~= handshake_model(accept_key@).headers);
        r
    }

    /// The handshake response for `req`, or `None` where it carries no
    /// `Sec-WebSocket-Key` header.
    pub fn websocket_handshake(req: &HttpRequest) -> (r: Option<HttpResponse>)
        ensures
            match lookup(req@.headers, "Sec-WebSocket-Key"@) {
                Some(k) => r matches Some(res) && res@ == handshake_model(accept_token(k)),
                None => r.is_none(),
            },
    {
        match req.header("Sec-WebSocket-Key") {
            Some(key) => Some(Self::handshake_response(websocket_accept_key(key.as_str()))),
            None => None,
        }
    }

    /// The response as sent on the wire.
    pub fn as_bytes(&self) -> (r: Vec<u8>)
        ensures
            r@ == response_bytes(self@),
    {
        let mut head: Vec<char> = Vec::new();
        push_all(&mut head, &chars_of(self.protocol_version.as_str()));
        head.push(' ');
        push_decimal(&mut head, self.status_code as u64);
        head.push(' ');
        push_all(&mut head, &chars_of(self.status_msg.as_str()));
        head.push('\r');
        head.push('\n');
        let ghost start = head@;
        let ghost hs = pair_views(self.headers@);
        let mut i: usize = 0;
        assert(hs.take(0) =~= Seq::<(Seq<char>, Seq<char>)>::empty());
        assert(start =~= start + header_block(hs.take(0)));
        while i < self.headers.len()
            invariant
                i <= self.headers.len(),
                hs == pair_views(self.headers@),
                head@ == start + header_block(hs.take(i as int)),
            decreases self.headers.len() - i,
        {
            if i > 0 {
                head.push('\r');
                head.push('\n');
            }
            push_all(&mut head, &chars_of(self.headers[i].0.as_str()));
            head.push(':');
            head.push(' ');
            push_all(&mut head, &chars_of(self.headers[i].1.as_str()));
            proof {
                let t = hs.take(i + 1);
                assert(t.drop_last() =~= hs.take(i as int));
                assert(t.last() == hs[i as int]);
            }
            i += 1;
            assert(head@ =~= start + header_block(hs.take(i as int)));
        }
        head.push('\r');
        head.push('\n');
        head.push('\r');
        head.push('\n');
        assert(hs.take(self.headers.len() as int) =~= hs);
        assert(head@ =~= head_text(self@));
        let text = string_of(head.as_slice());
        let mut result = slice_to_vec(text.as_str().as_bytes());
        match &self.body {
            Some(b) => {
                let mut tail = b.clone();
                result.append(&mut tail);
            },
            None => {},
        }
        assert(result@ =~= response_bytes(self@));
        result
    }
}

} // verus!
