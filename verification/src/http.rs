//! The HTTP side of the classifier server: reading a request head, routing it, and
//! writing the replies.

use vstd::prelude::*;
use vstd::string::StringSliceAdditionalSpecFns;
use vstd::utf8::{decode_utf8, encode_utf8, is_ascii_chars, valid_utf8};
use crate::numbers::{
    IntErrorKind, decimal_digits, lemma_decimal_round_trip, parse_decimal, parse_usize, push_decimal,
};

verus! {

/// Room for header fields given to the HTTP parser.
pub const MAX_HEADERS: usize = 32;

/// The error type of `httparse`.
#[verifier::external_type_specification]
#[verifier::external_body]
pub struct ExHttparseError(httparse::Error);

/// What `httparse::Request::parse` leaves behind for the buffer `buf` with room for
/// `max_headers` header fields: `None` where it returns an error; otherwise the method and
/// the path it found, and the name and value held by each of the `max_headers` slots.
pub uninterp spec fn httparse_request(buf: Seq<u8>, max_headers: nat) -> Option<
    (Option<Seq<char>>, Option<Seq<char>>, Seq<(Seq<char>, Seq<u8>)>),
>;

/// The Unicode upper-case mapping of `s`, as `str::to_uppercase` computes it.
pub uninterp spec fn uppercase(s: Seq<char>) -> Seq<char>;

/// Which rule of HTTP syntax a request head breaks (the variants of `httparse::Error`).
#[derive(Clone, Copy, PartialEq, Eq, Debug)]
pub enum HttpErrorKind {
    /// Invalid byte in header name.
    HeaderName,
    /// Invalid byte in header value.
    HeaderValue,
    /// Invalid byte in new line.
    NewLine,
    /// Invalid byte in response status.
    Status,
    /// Invalid byte where token is required.
    Token,
    /// More header fields than there is room for.
    TooManyHeaders,
    /// Invalid byte in HTTP version.
    Version,
}

/// What the HTTP parser found in a request head, as owned values.
pub struct RawHead {
    /// The method, where the parser got that far.
    pub method: Option<String>,
    /// The path, where the parser got that far.
    pub path: Option<String>,
    /// Name and value of every header slot, empty names for unused slots.
    pub fields: Vec<(String, Vec<u8>)>,
}

impl RawHead {
    /// The parse as plain values.
    pub open spec fn parsed(&self) -> (Option<Seq<char>>, Option<Seq<char>>, Seq<(Seq<char>, Seq<u8>)>) {
        (
            match self.method {
                Some(m) => Some(m@),
                None => None,
            },
            match self.path {
                Some(p) => Some(p@),
                None => None,
            },
            self.fields@.map_values(|f: (String, Vec<u8>)| (f.0@, f.1@)),
        )
    }
}

/// Parses a request head with `httparse::Request::parse`, giving it `max_headers` empty
/// header slots, and copies out what it found. Claims that the outcome is the named
/// result `httparse_request` of the buffer and the number of slots: an error exactly where
/// the name has none, and otherwise the method, path and slot contents the name gives.
#[verifier::external_body]
fn httparse_parse_request(buf: &[u8], max_headers: usize) -> (r: Result<RawHead, httparse::Error>)
    ensures
        r is Ok <==> httparse_request(buf@, max_headers as nat) is Some,
        r matches Ok(h) ==> httparse_request(buf@, max_headers as nat) == Some(h.parsed()),
{
    let mut slots = vec![httparse::EMPTY_HEADER; max_headers];
    let mut req = httparse::Request::new(&mut slots);
    req.parse(buf)?;
    let method = req.method.map(|m| m.to_string());
    let path = req.path.map(|p| p.to_string());
    let fields = slots.iter().map(|h| (h.name.to_string(), h.value.to_vec())).collect();
    Ok(RawHead { method, path, fields })
}

/// Tells the variants of `httparse::Error` apart. Nothing is claimed of the result.
#[verifier::external_body]
fn http_error_kind(e: &httparse::Error) -> (k: HttpErrorKind) {
    match e {
        httparse::Error::HeaderName => HttpErrorKind::HeaderName,
        httparse::Error::HeaderValue => HttpErrorKind::HeaderValue,
        httparse::Error::NewLine => HttpErrorKind::NewLine,
        httparse::Error::Status => HttpErrorKind::Status,
        httparse::Error::Token => HttpErrorKind::Token,
        httparse::Error::TooManyHeaders => HttpErrorKind::TooManyHeaders,
        httparse::Error::Version => HttpErrorKind::Version,
    }
}

/// ASCII upper-casing: `a` to `z` become `A` to `Z`, every other character stays.
pub open spec fn ascii_upper(s: Seq<char>) -> Seq<char> {
    s.map_values(|c: char| if 'a' <= c <= 'z' {
        ((c as u32) - 32) as char
    } else {
        c
    })
}

/// Upper-cases `s` with `str::to_uppercase`. Claims that the result is the named mapping
/// `uppercase` of `s`, and, for ASCII text, the ASCII upper-casing that the Unicode case
/// mapping gives there.
#[verifier::external_body]
fn to_upper(s: &str) -> (r: String)
    ensures
        r@ == uppercase(s@),
        is_ascii_chars(s@) ==> r@ == ascii_upper(s@),
{
    s.to_uppercase()
}

/// Reads `bytes` as text with `std::str::from_utf8`. Claims what std documents: text
/// exactly where the bytes are well-formed UTF-8, and then the characters they encode.
#[verifier::external_body]
fn utf8_to_string(bytes: &[u8]) -> (r: Option<String>)
    ensures
        r is Some <==> valid_utf8(bytes@),
        r matches Some(s) ==> s@ == decode_utf8(bytes@),
{
    match std::str::from_utf8(bytes) {
        Ok(s) => Some(s.to_string()),
        Err(_) => None,
    }
}

/// The header fields of a request, by name: a later field replaces an earlier one with
/// the same name.
pub struct Headers {
    entries: Vec<(String, String)>,
}

/// The map held by a list of name and value pairs whose names are distinct.
pub open spec fn pairs_map(s: Seq<(String, String)>) -> Map<Seq<char>, Seq<char>> {
    Map::new(
        |k: Seq<char>| exists|i: int| 0 <= i < s.len() && #[trigger] s[i].0@ == k,
        |k: Seq<char>| s[choose|i: int| 0 <= i < s.len() && #[trigger] s[i].0@ == k].1@,
    )
}

/// No two pairs of `s` have the same name.
pub open spec fn names_distinct(s: Seq<(String, String)>) -> bool {
    forall|i: int, j: int| 0 <= i < j < s.len() ==> #[trigger] s[i].0@ != #[trigger] s[j].0@
}

impl View for Headers {
    type V = Map<Seq<char>, Seq<char>>;

    closed spec fn view(&self) -> Map<Seq<char>, Seq<char>> {
        pairs_map(self.entries@)
    }
}

impl Headers {
    #[verifier::type_invariant]
    closed spec fn names_are_distinct(&self) -> bool {
        names_distinct(self.entries@)
    }

    /// No header fields.
    pub fn new() -> (r: Headers)
        ensures
            r@ == Map::<Seq<char>, Seq<char>>::empty(),
    {
        let r = Headers { entries: Vec::new() };
        assert(r@ =~= Map::<Seq<char>, Seq<char>>::empty());
        r
    }

    /// Number of distinct names.
    pub fn len(&self) -> (r: usize)
        ensures
            r == self@.len(),
    {
        proof {
            use_type_invariant(self);
            lemma_pairs_map_len(self.entries@);
        }
        self.entries.len()
    }

    /// Position of the field named `name`, if any.
    fn position(&self, name: &String) -> (r: Option<usize>)
        ensures
            match r {
                Some(i) => i < self.entries@.len() && self.entries@[i as int].0@ == name@,
                None => !self@.contains_key(name@),
            },
    {
        let n = self.entries.len();
        for i in 0..n
            invariant
                n == self.entries@.len(),
                forall|j: int| 0 <= j < i ==> self.entries@[j].0@ != name@,
        {
            if self.entries[i].0 == *name {
                return Some(i);
            }
        }
        None
    }

    /// The value of the field named `name`, if any.
    pub fn get(&self, name: &String) -> (r: Option<&String>)
        ensures
            match r {
                Some(v) => self@.contains_key(name@) && v@ == self@[name@],
                None => !self@.contains_key(name@),
            },
    {
        proof {
            use_type_invariant(self);
        }
        match self.position(name) {
            Some(i) => {
                proof {
                    let s = self.entries@;
                    let k = name@;
                    assert(s[i as int].0@ == k);
                    let c = choose|j: int| 0 <= j < s.len() && #[trigger] s[j].0@ == k;
                    assert(c == i);
                }
                Some(&self.entries[i].1)
            },
            None => None,
        }
    }

    /// Sets the field `name` to `value`, replacing any earlier value.
    pub fn insert(&mut self, name: String, value: String)
        ensures
            final(self)@ == old(self)@.insert(name@, value@),
    {
        proof {
            use_type_invariant(&*self);
        }
        let ghost old_entries = self.entries@;
        let ghost k = name@;
        let ghost v = value@;
        match self.position(&name) {
            Some(i) => {
                let mut entries: Vec<(String, String)> = Vec::new();
                std::mem::swap(&mut entries, &mut self.entries);
                entries.set(i, (name, value));
                proof {
                    let s = entries@;
                    assert(s =~= old_entries.update(i as int, s[i as int]));
                    assert(names_distinct(s));
                    assert(pairs_map(s) =~= pairs_map(old_entries).insert(k, v)) by {
                        assert forall|key: Seq<char>| #[trigger] pairs_map(s).contains_key(key)
                            == pairs_map(old_entries).insert(k, v).contains_key(key) by {
                            if key != k && pairs_map(old_entries).contains_key(key) {
                                let j = choose|j: int| 0 <= j < old_entries.len() && #[trigger] old_entries[j].0@ == key;
                                assert(s[j].0@ == key);
                            }
                            if pairs_map(s).contains_key(key) && key != k {
                                let j = choose|j: int| 0 <= j < s.len() && #[trigger] s[j].0@ == key;
                                assert(old_entries[j].0@ == key);
                            }
                            if key == k {
                                assert(s[i as int].0@ == key);
                            }
                        }
                        assert forall|key: Seq<char>| #[trigger] pairs_map(s).contains_key(key)
                            implies pairs_map(s)[key] == pairs_map(old_entries).insert(k, v)[key] by {
                            let j = choose|j: int| 0 <= j < s.len() && #[trigger] s[j].0@ == key;
                            if key == k {
                                assert(s[i as int].0@ == key);
                                assert(j == i);
                            } else {
                                assert(old_entries[j].0@ == key);
                                let j2 = choose|j2: int| 0 <= j2 < old_entries.len() && #[trigger] old_entries[j2].0@ == key;
                                assert(j2 == j);
                            }
                        }
                    }
                }
                self.entries = entries;
            },
            None => {
                let mut entries: Vec<(String, String)> = Vec::new();
                std::mem::swap(&mut entries, &mut self.entries);
                entries.push((name, value));
                proof {
                    let s = entries@;
                    let n = old_entries.len() as int;
                    assert(s[n].0@ == k);
                    assert(names_distinct(s)) by {
                        assert forall|a: int, b: int| 0 <= a < b < s.len() implies #[trigger] s[a].0@ != #[trigger] s[b].0@ by {
                            if b == n {
                                assert(old_entries[a].0@ == s[a].0@);
                                if s[a].0@ == k {
                                    assert(pairs_map(old_entries).contains_key(k));
                                }
                            } else {
                                assert(old_entries[a] == s[a] && old_entries[b] == s[b]);
                            }
                        }
                    }
                    assert(pairs_map(s) =~= pairs_map(old_entries).insert(k, v)) by {
                        assert forall|key: Seq<char>| #[trigger] pairs_map(s).contains_key(key)
                            == pairs_map(old_entries).insert(k, v).contains_key(key) by {
                            if key != k && pairs_map(old_entries).contains_key(key) {
                                let j = choose|j: int| 0 <= j < old_entries.len() && #[trigger] old_entries[j].0@ == key;
                                assert(s[j].0@ == key);
                            }
                            if pairs_map(s).contains_key(key) && key != k {
                                let j = choose|j: int| 0 <= j < s.len() && #[trigger] s[j].0@ == key;
                                assert(j != n);
                                assert(old_entries[j].0@ == key);
                            }
                        }
                        assert forall|key: Seq<char>| #[trigger] pairs_map(s).contains_key(key)
                            implies pairs_map(s)[key] == pairs_map(old_entries).insert(k, v)[key] by {
                            let j = choose|j: int| 0 <= j < s.len() && #[trigger] s[j].0@ == key;
                            if key == k {
                                assert(j == n);
                            } else {
                                assert(j != n);
                                assert(old_entries[j].0@ == key);
                                let j2 = choose|j2: int| 0 <= j2 < old_entries.len() && #[trigger] old_entries[j2].0@ == key;
                                assert(j2 == j);
                            }
                        }
                    }
                }
                self.entries = entries;
            },
        }
    }
}

proof fn lemma_pairs_map_len(s: Seq<(String, String)>)
    requires
        names_distinct(s),
    ensures
        pairs_map(s).dom().finite(),
        pairs_map(s).len() == s.len(),
    decreases s.len(),
{
    let keys = s.map_values(|p: (String, String)| p.0@);
    assert(pairs_map(s).dom() =~= keys.to_set()) by {
        assert forall|k: Seq<char>| #[trigger] pairs_map(s).dom().contains(k) implies keys.to_set().contains(k) by {
            let i = choose|i: int| 0 <= i < s.len() && #[trigger] s[i].0@ == k;
            assert(keys[i] == k);
        }
        assert forall|k: Seq<char>| keys.to_set().contains(k) implies #[trigger] pairs_map(s).dom().contains(k) by {
            let i = choose|i: int| 0 <= i < keys.len() && keys[i] == k;
            assert(s[i].0@ == k);
        }
    }
    assert(keys.no_duplicates()) by {
        assert forall|i: int, j: int| 0 <= i < keys.len() && 0 <= j < keys.len() && i != j implies keys[i] != keys[j] by {
            if i < j {
                assert(s[i].0@ != s[j].0@);
            } else {
                assert(s[j].0@ != s[i].0@);
            }
        }
    }
    keys.unique_seq_to_set();
}


/// The header map built from the parser's slots: each slot with a non-empty name, in slot
/// order, sets its upper-cased name to its value read as UTF-8.
pub open spec fn header_fields_map(fields: Seq<(Seq<char>, Seq<u8>)>) -> Map<Seq<char>, Seq<char>>
    decreases fields.len(),
{
    if fields.len() == 0 {
        Map::empty()
    } else {
        let m = header_fields_map(fields.drop_last());
        let f = fields.last();
        if f.0.len() > 0 {
            m.insert(uppercase(f.0), decode_utf8(f.1))
        } else {
            m
        }
    }
}

/// Every slot with a non-empty name holds a well-formed UTF-8 value.
pub open spec fn header_values_utf8(fields: Seq<(Seq<char>, Seq<u8>)>) -> bool {
    forall|i: int| 0 <= i < fields.len() && (#[trigger] fields[i]).0.len() > 0 ==> valid_utf8(fields[i].1)
}

/// The name under which the body length is looked up.
pub open spec fn content_length_name() -> Seq<char> {
    "CONTENT-LENGTH"@
}

/// The body length a header map announces: 0 without a `CONTENT-LENGTH` field, else its
/// value read as a `usize`.
pub open spec fn content_length(headers: Map<Seq<char>, Seq<char>>) -> Result<int, IntErrorKind> {
    if headers.contains_key(content_length_name()) {
        parse_decimal(encode_utf8(headers[content_length_name()]), 0, usize::MAX as int)
    } else {
        Ok(0)
    }
}

/// Why a request head cannot be used.
#[derive(Clone, Copy, PartialEq, Eq, Debug)]
pub enum RequestError {
    /// The head breaks HTTP syntax.
    Malformed(HttpErrorKind),
    /// The head ends before its method.
    NoMethod,
    /// The head ends before its path.
    NoPath,
    /// A header value is not UTF-8.
    HeaderNotUtf8,
    /// The `Content-Length` value is not a `usize`.
    BadContentLength(IntErrorKind),
}

/// The request head made of what the parser found: upper-cased method, path, header map
/// and body length.
pub open spec fn head_of_parse(
    p: (Option<Seq<char>>, Option<Seq<char>>, Seq<(Seq<char>, Seq<u8>)>),
) -> Result<(Seq<char>, Seq<char>, Map<Seq<char>, Seq<char>>, int), RequestError> {
    match p.0 {
        None => Err(RequestError::NoMethod),
        Some(m) => match p.1 {
            None => Err(RequestError::NoPath),
            Some(path) => if !header_values_utf8(p.2) {
                Err(RequestError::HeaderNotUtf8)
            } else {
                let h = header_fields_map(p.2);
                match content_length(h) {
                    Err(e) => Err(RequestError::BadContentLength(e)),
                    Ok(n) => Ok((uppercase(m), path, h, n)),
                }
            },
        },
    }
}

/// The head of a request: everything before its body.
pub struct RequestHead {
    /// The method, upper-cased.
    pub method: String,
    /// The path.
    pub path: String,
    /// The header fields, names upper-cased.
    pub headers: Headers,
    /// The number of body bytes that follow the head.
    pub content_length: usize,
}

impl RequestHead {
    /// The head as plain values.
    pub open spec fn parts(&self) -> (Seq<char>, Seq<char>, Map<Seq<char>, Seq<char>>, int) {
        (self.method@, self.path@, self.headers@, self.content_length as int)
    }
}

/// Builds the request head from what the HTTP parser found: the method upper-cased, the
/// path, the header fields of the slots with a non-empty name (names upper-cased, a later
/// field replacing an earlier one) and the body length announced by `CONTENT-LENGTH`.
pub fn request_head_from_parse(raw: &RawHead) -> (r: Result<RequestHead, RequestError>)
    ensures
        r matches Ok(h) ==> match raw.parsed().0 {
            Some(m) => is_ascii_chars(m) ==> h.method@ == ascii_upper(m),
            None => true,
        },
        match r {
            Ok(h) => head_of_parse(raw.parsed()) == Ok::<
                (Seq<char>, Seq<char>, Map<Seq<char>, Seq<char>>, int),
                RequestError,
            >(h.parts()),
            Err(e) => head_of_parse(raw.parsed()) == Err::<
                (Seq<char>, Seq<char>, Map<Seq<char>, Seq<char>>, int),
                RequestError,
            >(e),
        },
{
    let ghost p = raw.parsed();
    let method = match &raw.method {
        Some(m) => to_upper(m.as_str()),
        None => {
            return Err(RequestError::NoMethod);
        },
    };
    let path = match &raw.path {
        Some(path) => path.clone(),
        None => {
            return Err(RequestError::NoPath);
        },
    };
    let mut headers = Headers::new();
    let n = raw.fields.len();
    for i in 0..n
        invariant
            n == raw.fields@.len(),
            p == raw.parsed(),
            p.0 is Some,
            p.1 is Some,
            headers@ == header_fields_map(p.2.take(i as int)),
            header_values_utf8(p.2.take(i as int)),
    {
        let ghost f = p.2[i as int];
        assert(p.2.take(i + 1).drop_last() =~= p.2.take(i as int));
        assert(p.2.take(i + 1).last() == f);
        let name = &raw.fields[i].0;
        if !name.as_str().is_empty() {
            match utf8_to_string(raw.fields[i].1.as_slice()) {
                Some(value) => {
                    let upper = to_upper(name.as_str());
                    headers.insert(upper, value);
                },
                None => {
                    assert(p.2[i as int].0.len() > 0 && !valid_utf8(p.2[i as int].1));
                    assert(!header_values_utf8(p.2));
                    return Err(RequestError::HeaderNotUtf8);
                },
            }
        }
        assert(header_values_utf8(p.2.take(i + 1))) by {
            assert forall|j: int| 0 <= j < i + 1 && (#[trigger] p.2.take(i + 1)[j]).0.len() > 0
                implies valid_utf8(p.2.take(i + 1)[j].1) by {
                if j < i {
                    assert(p.2.take(i + 1)[j] == p.2.take(i as int)[j]);
                }
            }
        }
    }
    assert(p.2.take(n as int) =~= p.2);
    let key = "CONTENT-LENGTH".to_owned();
    let content_length = match headers.get(&key) {
        Some(v) => match parse_usize(v.as_str()) {
            Ok(len) => len,
            Err(e) => {
                return Err(RequestError::BadContentLength(e));
            },
        },
        None => 0,
    };
    Ok(RequestHead { method, path, headers, content_length })
}

/// Reads the head of a request from `buf`, the bytes up to and including the blank line.
pub fn parse_request_head(buf: &[u8]) -> (r: Result<RequestHead, RequestError>)
    ensures
        r matches Ok(h) ==> match httparse_request(buf@, MAX_HEADERS as nat) {
            Some(p) => match p.0 {
                Some(m) => is_ascii_chars(m) ==> h.method@ == ascii_upper(m),
                None => true,
            },
            None => true,
        },
        match httparse_request(buf@, MAX_HEADERS as nat) {
            None => r matches Err(RequestError::Malformed(_)),
            Some(p) => match r {
                Ok(h) => head_of_parse(p) == Ok::<
                    (Seq<char>, Seq<char>, Map<Seq<char>, Seq<char>>, int),
                    RequestError,
                >(h.parts()),
                Err(e) => head_of_parse(p) == Err::<
                    (Seq<char>, Seq<char>, Map<Seq<char>, Seq<char>>, int),
                    RequestError,
                >(e),
            },
        },
{
    match httparse_parse_request(buf, MAX_HEADERS) {
        Ok(raw) => request_head_from_parse(&raw),
        Err(e) => Err(RequestError::Malformed(http_error_kind(&e))),
    }
}

/// A request as the server handles it.
pub struct Request {
    /// The method, upper-cased.
    pub method: String,
    /// The path.
    pub path: String,
    /// The header fields, names upper-cased.
    pub headers: Headers,
    /// The body.
    pub body: Vec<u8>,
}

/// Tells whether the line of `n` bytes just appended to `buf` is the blank line that ends
/// a request head: exactly a carriage return and a line feed.
pub fn head_complete(buf: &[u8], n: usize) -> (r: bool)
    requires
        n <= buf.len(),
    ensures
        r == (n == 2 && buf@[buf.len() - 2] == 13),
{
    n == 2 && buf[buf.len() - 2] == 13
}

/// What the server does with a request.
#[derive(Clone, Copy, PartialEq, Eq, Debug)]
pub enum Route {
    /// `GET /`: send the index page.
    Index,
    /// `POST /ocr`: classify the body as an image and send the digit.
    Ocr,
    /// Anything else: send 404.
    NotFound,
}

/// The route of a request with this method and path.
pub open spec fn route_of(method: Seq<char>, path: Seq<char>) -> Route {
    if method == "GET"@ && path == "/"@ {
        Route::Index
    } else if method == "POST"@ && path == "/ocr"@ {
        Route::Ocr
    } else {
        Route::NotFound
    }
}

/// Chooses what to do with a request with this method and path.
pub fn route(method: &String, path: &String) -> (r: Route)
    ensures
        r == route_of(method@, path@),
{
    if *method == "GET".to_owned() && *path == "/".to_owned() {
        Route::Index
    } else if *method == "POST".to_owned() && *path == "/ocr".to_owned() {
        Route::Ocr
    } else {
        Route::NotFound
    }
}

/// The bytes of an ASCII text.
pub open spec fn ascii_bytes(s: Seq<char>) -> Seq<u8> {
    s.map_values(|c: char| c as u8)
}

/// Appends the ASCII text `s` to `out`.
fn push_ascii(out: &mut Vec<u8>, s: &str)
    requires
        vstd::string::is_ascii(s),
    ensures
        final(out)@ == old(out)@ + ascii_bytes(s@),
{
    proof {
        vstd::string::is_ascii_spec_bytes(s);
    }
    out.extend_from_slice(s.as_bytes());
    assert(final(out)@ =~= old(out)@ + ascii_bytes(s@));
}

/// The reply that carries the index page `page`.
pub open spec fn index_reply(page: Seq<u8>) -> Seq<u8> {
    ascii_bytes("HTTP/1.1 200 OK\r\nContent-Length: "@) + decimal_digits(page.len()) + ascii_bytes(
        "\r\n\r\n"@,
    ) + page
}

/// Builds the reply that carries the index page `page`, with its length.
pub fn index_response(page: &[u8]) -> (r: Vec<u8>)
    ensures
        r@ == index_reply(page@),
{
    let mut out: Vec<u8> = Vec::new();
    proof {
        reveal_strlit("HTTP/1.1 200 OK\r\nContent-Length: ");
        reveal_strlit("\r\n\r\n");
    }
    push_ascii(&mut out, "HTTP/1.1 200 OK\r\nContent-Length: ");
    push_decimal(&mut out, page.len());
    push_ascii(&mut out, "\r\n\r\n");
    out.extend_from_slice(page);
    assert(out@ =~= index_reply(page@));
    out
}

/// The reply that carries the digit `label` recognised in a posted image. Its
/// `Content-Length` is 3 whatever the label: one digit and the line end.
pub open spec fn ocr_reply(label: u8) -> Seq<u8> {
    ascii_bytes("HTTP/1.1 200 OK\r\nContent-Type: text/plain\r\nContent-Length: 3\r\n\r\n"@)
        + decimal_digits(label as nat) + ascii_bytes("\r\n"@)
}

/// Builds the reply that carries the recognised digit `label`.
pub fn ocr_response(label: u8) -> (r: Vec<u8>)
    ensures
        r@ == ocr_reply(label),
{
    let mut out: Vec<u8> = Vec::new();
    proof {
        reveal_strlit("HTTP/1.1 200 OK\r\nContent-Type: text/plain\r\nContent-Length: 3\r\n\r\n");
        reveal_strlit("\r\n");
    }
    push_ascii(&mut out, "HTTP/1.1 200 OK\r\nContent-Type: text/plain\r\nContent-Length: 3\r\n\r\n");
    push_decimal(&mut out, label as usize);
    push_ascii(&mut out, "\r\n");
    assert(out@ =~= ocr_reply(label));
    out
}

/// The reply to a request for anything else.
pub open spec fn not_found_reply() -> Seq<u8> {
    ascii_bytes("HTTP/1.1 404 NOT FOUND\r\n"@)
}

/// Builds the reply to a request for anything else.
pub fn not_found_response() -> (r: Vec<u8>)
    ensures
        r@ == not_found_reply(),
{
    let mut out: Vec<u8> = Vec::new();
    proof {
        reveal_strlit("HTTP/1.1 404 NOT FOUND\r\n");
    }
    push_ascii(&mut out, "HTTP/1.1 404 NOT FOUND\r\n");
    assert(out@ =~= not_found_reply());
    out
}


/// The index reply announces the length of the page it carries: the digits after
/// `Content-Length: ` read back, as a `usize`, to the page length.
pub proof fn lemma_index_reply_announces_length(page: Seq<u8>)
    requires
        page.len() <= usize::MAX,
    ensures
        index_reply(page) == ascii_bytes("HTTP/1.1 200 OK\r\nContent-Length: "@) + decimal_digits(
            page.len(),
        ) + ascii_bytes("\r\n\r\n"@) + page,
        parse_decimal(decimal_digits(page.len()), 0, usize::MAX as int) == Ok::<int, IntErrorKind>(
            page.len() as int,
        ),
{
    lemma_decimal_round_trip(page.len(), 0, usize::MAX as int);
}

/// For a label below 10, the digit reply's body (the digit and a line end) is the 3 bytes
/// its `Content-Length` announces.
pub proof fn lemma_ocr_reply_length(label: u8)
    requires
        label < 10,
    ensures
        ocr_reply(label) == ascii_bytes(
            "HTTP/1.1 200 OK\r\nContent-Type: text/plain\r\nContent-Length: 3\r\n\r\n"@,
        ) + (decimal_digits(label as nat) + ascii_bytes("\r\n"@)),
        (decimal_digits(label as nat) + ascii_bytes("\r\n"@)).len() == 3,
{
    reveal_strlit("\r\n");
    assert(ocr_reply(label) =~= ascii_bytes(
        "HTTP/1.1 200 OK\r\nContent-Type: text/plain\r\nContent-Length: 3\r\n\r\n"@,
    ) + (decimal_digits(label as nat) + ascii_bytes("\r\n"@)));
}


/// A head whose method is written `get` in lower case reads as `GET`, and so routes to
/// the index page for the path `/`.
pub proof fn lemma_lowercase_get_routes_to_index()
    ensures
        is_ascii_chars("get"@),
        ascii_upper("get"@) == "GET"@,
        route_of(ascii_upper("get"@), "/"@) == Route::Index,
{
    reveal_strlit("get");
    reveal_strlit("GET");
    assert(ascii_upper("get"@) =~= "GET"@);
}


/// Every slot with a non-empty name that no later such slot overrides (by having the same
/// upper-cased name) is in the header map, under its upper-cased name, with its value.
pub proof fn lemma_header_fields_map_holds_slot(fields: Seq<(Seq<char>, Seq<u8>)>, j: int)
    requires
        0 <= j < fields.len(),
        fields[j].0.len() > 0,
        forall|k: int|
            j < k < fields.len() && (#[trigger] fields[k]).0.len() > 0 ==> uppercase(fields[k].0)
                != uppercase(fields[j].0),
    ensures
        header_fields_map(fields).contains_key(uppercase(fields[j].0)),
        header_fields_map(fields)[uppercase(fields[j].0)] == decode_utf8(fields[j].1),
    decreases fields.len(),
{
    let last = fields.len() - 1;
    if j < last {
        let init = fields.drop_last();
        assert forall|k: int|
            j < k < init.len() && (#[trigger] init[k]).0.len() > 0 implies uppercase(init[k].0)
            != uppercase(init[j].0) by {
            assert(init[k] == fields[k]);
        }
        lemma_header_fields_map_holds_slot(init, j);
        assert(fields[last] == fields.last());
    }
}

/// The names in the header map are exactly the upper-cased names of the slots whose name
/// is not empty.
pub proof fn lemma_header_fields_map_names(fields: Seq<(Seq<char>, Seq<u8>)>, name: Seq<char>)
    ensures
        header_fields_map(fields).contains_key(name) <==> exists|j: int|
            0 <= j < fields.len() && (#[trigger] fields[j]).0.len() > 0 && uppercase(fields[j].0)
                == name,
    decreases fields.len(),
{
    if fields.len() > 0 {
        let init = fields.drop_last();
        lemma_header_fields_map_names(init, name);
        let last = fields.len() - 1;
        if header_fields_map(fields).contains_key(name) {
            if header_fields_map(init).contains_key(name) {
                let j = choose|j: int|
                    0 <= j < init.len() && (#[trigger] init[j]).0.len() > 0 && uppercase(init[j].0)
                        == name;
                assert(fields[j] == init[j]);
            } else {
                assert(fields[last].0.len() > 0 && uppercase(fields[last].0) == name);
            }
        }
        if exists|j: int|
            0 <= j < fields.len() && (#[trigger] fields[j]).0.len() > 0 && uppercase(fields[j].0)
                == name {
            let j = choose|j: int|
                0 <= j < fields.len() && (#[trigger] fields[j]).0.len() > 0 && uppercase(fields[j].0)
                    == name;
            if j < last {
                assert(init[j] == fields[j]);
            }
        }
    }
}

/// A request goes to the index page exactly for method `GET` and path `/`, to the
/// classifier exactly for method `POST` and path `/ocr`, and gets 404 otherwise.
pub proof fn lemma_route_cases(method: Seq<char>, path: Seq<char>)
    ensures
        (route_of(method, path) == Route::Index) <==> (method == "GET"@ && path == "/"@),
        (route_of(method, path) == Route::Ocr) <==> (method == "POST"@ && path == "/ocr"@),
        (route_of(method, path) == Route::NotFound) <==> !(method == "GET"@ && path == "/"@) && !(
        method == "POST"@ && path == "/ocr"@),
{
    reveal_strlit("GET");
    reveal_strlit("POST");
    assert("GET"@ != "POST"@) by {
        assert("GET"@.len() != "POST"@.len());
    }
}


/// The body length is read from the last slot named `Content-Length` (in any case), wherever
/// it stands among the header slots.
pub proof fn lemma_content_length_from_slot(fields: Seq<(Seq<char>, Seq<u8>)>, j: int)
    requires
        0 <= j < fields.len(),
        fields[j].0.len() > 0,
        uppercase(fields[j].0) == content_length_name(),
        forall|k: int|
            j < k < fields.len() && (#[trigger] fields[k]).0.len() > 0 ==> uppercase(fields[k].0)
                != content_length_name(),
    ensures
        content_length(header_fields_map(fields)) == parse_decimal(
            encode_utf8(decode_utf8(fields[j].1)),
            0,
            usize::MAX as int,
        ),
{
    lemma_header_fields_map_holds_slot(fields, j);
}

} // verus!
