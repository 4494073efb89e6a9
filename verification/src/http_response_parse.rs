//! A parser for HTTP responses: the status line, the header lines up to the
//! first line that is not a header, and a body as long as `Content-Length`
//! says, each part stated as a function on the response's bytes.
use vstd::prelude::*;
use vstd::slice::slice_subrange;
use crate::keyword::equals_word;
use crate::text::{
    chars_of, int_decimal, law_decimal_roundtrip, nat_digits, occurs_at, parse_i64_spec, parse_unsigned, parse_unsigned_chars, push_digits, string_from_chars, trim_spec,
    trim_string,
};
use vstd::slice::slice_to_vec;
use vstd::utf8::{decode_utf8, valid_utf8};

verus! {

/// What `String::from_utf8_lossy` gives for `bytes`: the decoded characters,
/// with U+FFFD in place of each ill-formed sequence.
pub uninterp spec fn utf8_lossy(bytes: Seq<u8>) -> Seq<char>;

/// `bytes` decoded as UTF-8 with ill-formed sequences replaced (std's
/// `String::from_utf8_lossy`). The contract names the result, and states that
/// valid UTF-8 is decoded as it is, as std documents.
#[verifier::external_body]
fn lossy_string(bytes: &[u8]) -> (s: String)
    ensures
        s@ == utf8_lossy(bytes@),
        valid_utf8(bytes@) ==> s@ == decode_utf8(bytes@),
{
    String::from_utf8_lossy(bytes).into_owned()
}

/// Why a response could not be parsed.
#[derive(Debug, PartialEq, Eq, Structural)]
pub enum ParseFailure {
    /// The bytes do not have the form of a response.
    Malformed,
    /// The status code does not fit in 16 bits.
    StatusOutOfRange,
}

/// The byte classes that the parser takes runs of.
pub enum ByteRun {
    /// ASCII digits.
    Digits,
    /// Spaces.
    Spaces,
    /// Anything but a carriage return or a line feed.
    Line,
    /// Anything but a colon.
    Name,
}

pub open spec fn in_run(b: u8, k: ByteRun) -> bool {
    match k {
        ByteRun::Digits => 48 <= b && b <= 57,
        ByteRun::Spaces => b == 32,
        ByteRun::Line => b != 13 && b != 10,
        ByteRun::Name => b != 58,
    }
}

/// The length of the longest prefix of `s` whose bytes are all of class `k`.
pub open spec fn run_len(s: Seq<u8>, k: ByteRun) -> nat
    decreases s.len(),
{
    if s.len() > 0 && in_run(s[0], k) {
        1 + run_len(s.drop_first(), k)
    } else {
        0
    }
}

/// The bytes of `HTTP/`.
pub open spec fn http_prefix() -> Seq<u8> {
    seq![72u8, 84u8, 84u8, 80u8, 47u8]
}

/// A status line at the start of `s`: `HTTP/`, digits, `.`, digits, spaces,
/// the status digits, a message of one or more bytes other than CR and LF,
/// and CR LF. Gives the bytes it takes, the status digits and the message.
pub open spec fn status_line_spec(s: Seq<u8>) -> Option<(nat, Seq<u8>, Seq<u8>)> {
    if !(s.len() >= 5 && s.take(5) == http_prefix()) {
        None
    } else {
        let a: int = 5 + run_len(s.skip(5), ByteRun::Digits) as int;
        if a == 5 || a >= s.len() || s[a] != 46u8 {
            None
        } else {
            let b: int = a + 1 + run_len(s.skip(a + 1), ByteRun::Digits);
            let c: int = b + run_len(s.skip(b), ByteRun::Spaces);
            let d: int = c + run_len(s.skip(c), ByteRun::Digits);
            let e: int = d + run_len(s.skip(d), ByteRun::Line);
            if b == a + 1 || c == b || d == c || e == d || e + 2 > s.len() || s[e] != 13u8 || s[e + 1]
                != 10u8 {
                None
            } else {
                Some(((e + 2) as nat, s.subrange(c, d), s.subrange(d, e)))
            }
        }
    }
}

/// A header line at the start of `s`: a name of one or more bytes other than
/// `:`, then `:`, a value of one or more bytes other than CR and LF, and CR LF.
/// Gives the bytes it takes, the name and the value.
pub open spec fn header_spec(s: Seq<u8>) -> Option<(nat, Seq<u8>, Seq<u8>)> {
    let n: int = run_len(s, ByteRun::Name) as int;
    if n == 0 || n >= s.len() {
        None
    } else {
        let e: int = n + 1 + run_len(s.skip(n + 1), ByteRun::Line);
        if e == n + 1 || e + 2 > s.len() || s[e] != 13u8 || s[e + 1] != 10u8 {
            None
        } else {
            Some(((e + 2) as nat, s.take(n), s.subrange(n + 1, e)))
        }
    }
}

/// The header lines at the start of `s`, as many as there are: the bytes they
/// take and each (name, value).
pub open spec fn headers_spec(s: Seq<u8>) -> (nat, Seq<(Seq<u8>, Seq<u8>)>)
    decreases s.len(),
{
    match header_spec(s) {
        Some((c, name, value)) => {
            if 0 < c <= s.len() {
                let rest = headers_spec(s.skip(c as int));
                (c + rest.0, seq![(name, value)] + rest.1)
            } else {
                (0, Seq::<(Seq<u8>, Seq<u8>)>::empty())
            }
        },
        None => (0, Seq::<(Seq<u8>, Seq<u8>)>::empty()),
    }
}

/// The characters of ASCII bytes.
pub open spec fn ascii_chars(s: Seq<u8>) -> Seq<char> {
    s.map_values(|b: u8| (b as u32) as char)
}

/// How a header name or value reads: decoded, then trimmed.
pub open spec fn text_of(b: Seq<u8>) -> Seq<char> {
    trim_spec(utf8_lossy(b))
}

pub open spec fn word_content_length() -> Seq<char> {
    seq!['C', 'o', 'n', 't', 'e', 'n', 't', '-', 'L', 'e', 'n', 'g', 't', 'h']
}

/// The body length that the first `Content-Length` header gives: its value
/// read as a `usize`, or zero where it does not read as one or where there is
/// no such header.
pub open spec fn content_length(hs: Seq<(Seq<char>, Seq<char>)>) -> nat
    decreases hs.len(),
{
    if hs.len() == 0 {
        0
    } else if hs[0].0 == word_content_length() {
        match parse_unsigned(hs[0].1, usize::MAX as nat) {
            Some(v) => v,
            None => 0,
        }
    } else {
        content_length(hs.drop_first())
    }
}

pub struct StatusLine {
    pub status: u16,
    pub msg: String,
}

pub struct HttpResponse {
    pub status_line: StatusLine,
    pub headers: Vec<(String, String)>,
    pub body: Vec<u8>,
}

/// A parsed response as the contracts see it.
pub struct ResponseView {
    pub status: u16,
    pub msg: Seq<char>,
    pub headers: Seq<(Seq<char>, Seq<char>)>,
    pub body: Seq<u8>,
}

pub open spec fn headers_view(hs: Seq<(String, String)>) -> Seq<(Seq<char>, Seq<char>)> {
    hs.map_values(|h: (String, String)| (h.0@, h.1@))
}

impl HttpResponse {
    pub open spec fn view_resp(&self) -> ResponseView {
        ResponseView {
            status: self.status_line.status,
            msg: self.status_line.msg@,
            headers: headers_view(self.headers@),
            body: self.body@,
        }
    }
}

/// What parsing `s` as a response gives.
pub open spec fn response_spec(s: Seq<u8>) -> Result<ResponseView, ParseFailure> {
    match status_line_spec(s) {
        None => Err(ParseFailure::Malformed),
        Some((c, st, msg)) => match parse_unsigned(ascii_chars(st), 65535) {
            None => Err(ParseFailure::StatusOutOfRange),
            Some(status) => {
                let rest = s.skip(c as int);
                let (hc, hs) = headers_spec(rest);
                let after = rest.skip(hc as int);
                let headers = hs.map_values(|h: (Seq<u8>, Seq<u8>)| (text_of(h.0), text_of(h.1)));
                let len = content_length(headers);
                if after.len() >= 2 && after[0] == 13u8 && after[1] == 10u8 && after.len() - 2 >= len {
                    Ok(
                        ResponseView {
                            status: status as u16,
                            msg: text_of(msg),
                            headers: headers,
                            body: after.subrange(2, 2 + len as int),
                        },
                    )
                } else {
                    Err(ParseFailure::Malformed)
                }
            },
        },
    }
}

proof fn lemma_run_step(s: Seq<u8>, i: int, k: ByteRun)
    requires
        0 <= i < s.len(),
        in_run(s[i], k),
    ensures
        run_len(s.skip(i), k) == 1 + run_len(s.skip(i + 1), k),
{
    assert(s.skip(i).drop_first() == s.skip(i + 1));
}

fn byte_in_run(b: u8, k: &ByteRun) -> (r: bool)
    ensures
        r == in_run(b, *k),
{
    match k {
        ByteRun::Digits => 48 <= b && b <= 57,
        ByteRun::Spaces => b == 32,
        ByteRun::Line => b != 13 && b != 10,
        ByteRun::Name => b != 58,
    }
}

/// The end of the run of bytes of class `k` that starts at `from`.
fn run_end(input: &[u8], from: usize, k: ByteRun) -> (e: usize)
    requires
        from <= input@.len(),
    ensures
        e == from + run_len(input@.skip(from as int), k),
        e <= input@.len(),
{
    let mut i = from;
    while i < input.len() && byte_in_run(input[i], &k)
        invariant
            from <= i <= input@.len(),
            run_len(input@.skip(from as int), k) == (i - from) + run_len(input@.skip(i as int), k),
        decreases input@.len() - i,
    {
        proof {
            lemma_run_step(input@, i as int, k);
        }
        i = i + 1;
    }
    i
}


/// The value of the first header named `name`, if there is one.
pub open spec fn header_lookup(hs: Seq<(Seq<char>, Seq<char>)>, name: Seq<char>) -> Option<Seq<char>>
    decreases hs.len(),
{
    if hs.len() == 0 {
        None
    } else if hs[0].0 == name {
        Some(hs[0].1)
    } else {
        header_lookup(hs.drop_first(), name)
    }
}

impl HttpResponse {
    /// The value of the first header whose name is `name`.
    pub fn get_header(&self, name: &str) -> (r: Option<&str>)
        ensures
            match header_lookup(headers_view(self.headers@), name@) {
                Some(v) => r matches Some(x) && x@ == v,
                None => r is None,
            },
    {
        let ghost hv = headers_view(self.headers@);
        let mut i: usize = 0;
        assert(hv.skip(0) == hv);
        while i < self.headers.len()
            invariant
                i <= self.headers.len(),
                hv == headers_view(self.headers@),
                header_lookup(hv, name@) == header_lookup(hv.skip(i as int), name@),
            decreases self.headers.len() - i,
        {
            let ghost rest = hv.skip(i as int);
            assert(rest[0] == hv[i as int]);
            assert(rest.drop_first() == hv.skip(i + 1));
            let n = &self.headers[i].0;
            let nv = chars_of(n.as_str());
            let wv = chars_of(name);
            if same_chars(&nv, &wv) {
                return Some(self.headers[i].1.as_str());
            }
            i = i + 1;
        }
        None
    }
}

/// Whether two character vectors are equal.
fn same_chars(a: &Vec<char>, b: &Vec<char>) -> (r: bool)
    ensures
        r == (a@ == b@),
{
    if a.len() != b.len() {
        return false;
    }
    let mut i: usize = 0;
    while i < a.len()
        invariant
            a.len() == b.len(),
            i <= a.len(),
            forall|j: int| 0 <= j < i ==> a@[j] == b@[j],
        decreases a.len() - i,
    {
        if a[i] != b[i] {
            assert(a@[i as int] != b@[i as int]);
            return false;
        }
        i = i + 1;
    }
    assert(a@ == b@);
    true
}

/// The positions of the parts of the status line at the start of `input`:
/// (end, status start, status end, message end); the message starts where the
/// status ends.
fn scan_status_line(input: &[u8]) -> (r: Option<(usize, usize, usize, usize)>)
    ensures
        match r {
            None => status_line_spec(input@) is None,
            Some((end, c, d, e)) => c <= d <= e <= end <= input@.len() && status_line_spec(input@) == Some(
                (end as nat, input@.subrange(c as int, d as int), input@.subrange(d as int, e as int)),
            ),
        },
{
    let s = input;
    if s.len() < 5 || !(s[0] == 72 && s[1] == 84 && s[2] == 84 && s[3] == 80 && s[4] == 47) {
        proof {
            if s@.len() >= 5 && s@.take(5) == http_prefix() {
                assert(s@.take(5)[0] == s@[0]);
                assert(s@.take(5)[1] == s@[1]);
                assert(s@.take(5)[2] == s@[2]);
                assert(s@.take(5)[3] == s@[3]);
                assert(s@.take(5)[4] == s@[4]);
            }
        }
        return None;
    }
    assert(s@.take(5) =~= http_prefix());
    let a = run_end(s, 5, ByteRun::Digits);
    if a == 5 || a >= s.len() || s[a] != 46 {
        return None;
    }
    let b = run_end(s, a + 1, ByteRun::Digits);
    let c = run_end(s, b, ByteRun::Spaces);
    let d = run_end(s, c, ByteRun::Digits);
    let e = run_end(s, d, ByteRun::Line);
    if b == a + 1 || c == b || d == c || e == d || e > s.len() - 2 || s[e] != 13 || s[e + 1] != 10 {
        return None;
    }
    Some((e + 2, c, d, e))
}

/// The characters of ASCII bytes.
fn ascii_to_chars(b: &[u8]) -> (v: Vec<char>)
    ensures
        v@ == ascii_chars(b@),
{
    let mut v: Vec<char> = Vec::new();
    let mut i: usize = 0;
    while i < b.len()
        invariant
            i <= b.len(),
            v@ == ascii_chars(b@).take(i as int),
        decreases b.len() - i,
    {
        v.push(b[i] as char);
        assert(ascii_chars(b@).take(i + 1) == ascii_chars(b@).take(i as int).push(((b@[i as int] as u32) as char)));
        i = i + 1;
    }
    assert(ascii_chars(b@).take(i as int) == ascii_chars(b@));
    v
}

/// Parses the status line at the start of `input`: gives the bytes after it,
/// the status code and the trimmed message.
pub fn parse_status_line(input: &[u8]) -> (r: Result<(&[u8], StatusLine), ParseFailure>)
    ensures
        match status_line_spec(input@) {
            None => r matches Err(e) && e == ParseFailure::Malformed,
            Some((c, st, msg)) => match parse_unsigned(ascii_chars(st), 65535) {
                None => r matches Err(e) && e == ParseFailure::StatusOutOfRange,
                Some(v) => r matches Ok((rest, line)) && rest@ == input@.skip(c as int) && line.status
                    == v && line.msg@ == text_of(msg),
            },
        },
{
    match scan_status_line(input) {
        None => Err(ParseFailure::Malformed),
        Some((end, c, d, e)) => {
            let digits = ascii_to_chars(slice_subrange(input, c, d));
            match parse_unsigned_chars(&digits, 65535) {
                None => Err(ParseFailure::StatusOutOfRange),
                Some(v) => {
                    let raw = lossy_string(slice_subrange(input, d, e));
                    let msg = trim_string(raw.as_str());
                    let rest = slice_subrange(input, end, input.len());
                    assert(rest@ == input@.skip(end as int));
                    Ok((rest, StatusLine { status: v as u16, msg }))
                },
            }
        },
    }
}

/// The positions of the parts of the header line at `pos`: (end, name end,
/// value end); the value starts one after the name ends.
fn scan_header(input: &[u8], pos: usize) -> (r: Option<(usize, usize, usize)>)
    requires
        pos <= input@.len(),
    ensures
        match r {
            None => header_spec(input@.skip(pos as int)) is None,
            Some((end, n, e)) => pos < n < e <= end <= input@.len() && end - pos >= 4 && header_spec(
                input@.skip(pos as int),
            ) == Some(
                (
                    (end - pos) as nat,
                    input@.subrange(pos as int, n as int),
                    input@.subrange(n + 1, e as int),
                ),
            ),
        },
{
    let ghost s = input@.skip(pos as int);
    let n = run_end(input, pos, ByteRun::Name);
    if n == pos || n >= input.len() {
        return None;
    }
    let e = run_end(input, n + 1, ByteRun::Line);
    assert(input@.skip(n + 1) == s.skip(n + 1 - pos));
    if e == n + 1 || e > input.len() - 2 || input[e] != 13 || input[e + 1] != 10 {
        proof {
            if e + 1 < input@.len() {
                assert(s[e - pos] == input@[e as int]);
                assert(s[e + 1 - pos] == input@[e + 1]);
            }
        }
        return None;
    }
    proof {
        assert(s[e - pos] == input@[e as int]);
        assert(s[e + 1 - pos] == input@[e + 1]);
        assert(s.take(n - pos) == input@.subrange(pos as int, n as int));
        assert(s.subrange(n + 1 - pos, e - pos) == input@.subrange(n + 1, e as int));
    }
    Some((e + 2, n, e))
}

/// How header lines read: each (name, value) decoded and trimmed.
pub open spec fn headers_text(hs: Seq<(Seq<u8>, Seq<u8>)>) -> Seq<(Seq<char>, Seq<char>)> {
    hs.map_values(|h: (Seq<u8>, Seq<u8>)| (text_of(h.0), text_of(h.1)))
}

proof fn lemma_headers_len(s: Seq<u8>)
    ensures
        headers_spec(s).0 <= s.len(),
    decreases s.len(),
{
    if let Some((c, name, value)) = header_spec(s) {
        if 0 < c <= s.len() {
            lemma_headers_len(s.skip(c as int));
        }
    }
}

proof fn lemma_headers_step(s: Seq<u8>, c: nat, name: Seq<u8>, value: Seq<u8>)
    requires
        header_spec(s) == Some((c, name, value)),
        0 < c <= s.len(),
    ensures
        headers_spec(s).0 == c + headers_spec(s.skip(c as int)).0,
        headers_text(headers_spec(s).1) == seq![(text_of(name), text_of(value))] + headers_text(
            headers_spec(s.skip(c as int)).1,
        ),
{
    let tail = headers_spec(s.skip(c as int));
    assert(headers_spec(s) == (c + tail.0, seq![(name, value)] + tail.1));
    assert(headers_text(seq![(name, value)] + tail.1) =~= seq![(text_of(name), text_of(value))]
        + headers_text(tail.1));
}

/// Parses the header lines at the start of `input`, as many as there are:
/// gives the bytes after them and each (name, value), decoded and trimmed.
fn parse_response_header(input: &[u8]) -> (r: (&[u8], Vec<(String, String)>))
    ensures
        headers_spec(input@).0 <= input@.len(),
        r.0@ == input@.skip(headers_spec(input@).0 as int),
        headers_view(r.1@) == headers_text(headers_spec(input@).1),
{
    let mut pos: usize = 0;
    let mut hs: Vec<(String, String)> = Vec::new();
    assert(input@.skip(0) == input@);
    proof {
        lemma_headers_len(input@);
    }
    loop
        invariant
            pos <= input@.len(),
            headers_spec(input@).0 == pos + headers_spec(input@.skip(pos as int)).0,
            headers_text(headers_spec(input@).1) == headers_view(hs@) + headers_text(
                headers_spec(input@.skip(pos as int)).1,
            ),
            pos + headers_spec(input@.skip(pos as int)).0 <= input@.len(),
        decreases input@.len() - pos,
    {
        let ghost s = input@.skip(pos as int);
        match scan_header(input, pos) {
            None => {
                assert(headers_spec(s).1 =~= Seq::<(Seq<u8>, Seq<u8>)>::empty());
                assert(headers_text(headers_spec(s).1) =~= Seq::<(Seq<char>, Seq<char>)>::empty());
                assert(headers_view(hs@) + Seq::<(Seq<char>, Seq<char>)>::empty() == headers_view(hs@));
                let rest = slice_subrange(input, pos, input.len());
                assert(rest@ == input@.skip(pos as int));
                return (rest, hs);
            },
            Some((end, n, e)) => {
                let name = trim_string(lossy_string(slice_subrange(input, pos, n)).as_str());
                let value = trim_string(lossy_string(slice_subrange(input, n + 1, e)).as_str());
                let ghost hv0 = headers_view(hs@);
                proof {
                    lemma_headers_step(
                        s,
                        (end - pos) as nat,
                        input@.subrange(pos as int, n as int),
                        input@.subrange(n + 1, e as int),
                    );
                    assert(s.skip(end - pos) == input@.skip(end as int));
                }
                hs.push((name, value));
                proof {
                    let tail = headers_text(headers_spec(input@.skip(end as int)).1);
                    assert(headers_view(hs@) =~= hv0.push((name@, value@)));
                    assert(hv0 + (seq![(name@, value@)] + tail) =~= hv0.push((name@, value@)) + tail);
                }
                pos = end;
            },
        }
    }
}

/// Takes CR LF and then `len` bytes at the start of `input`: gives the bytes
/// after them and the `len` bytes.
fn parse_response_body(input: &[u8], len: usize) -> (r: Result<(&[u8], &[u8]), ParseFailure>)
    ensures
        if input@.len() >= 2 && input@[0] == 13u8 && input@[1] == 10u8 && input@.len() - 2 >= len {
            r matches Ok((rest, body)) && body@ == input@.subrange(2, 2 + len) && rest@ == input@.skip(
                2 + len,
            )
        } else {
            r matches Err(e) && e == ParseFailure::Malformed
        },
{
    if input.len() >= 2 && input[0] == 13 && input[1] == 10 && input.len() - 2 >= len {
        let body = slice_subrange(input, 2, 2 + len);
        let rest = slice_subrange(input, 2 + len, input.len());
        assert(rest@ == input@.skip(2 + len));
        Ok((rest, body))
    } else {
        Err(ParseFailure::Malformed)
    }
}

/// The body length that the first `Content-Length` header gives.
fn content_length_of(hs: &Vec<(String, String)>) -> (n: usize)
    ensures
        n == content_length(headers_view(hs@)),
{
    let ghost hv = headers_view(hs@);
    proof {
        reveal_strlit("Content-Length");
        assert("Content-Length"@ =~= word_content_length());
    }
    let mut i: usize = 0;
    assert(hv.skip(0) == hv);
    while i < hs.len()
        invariant
            i <= hs.len(),
            hv == headers_view(hs@),
            content_length(hv) == content_length(hv.skip(i as int)),
            "Content-Length"@ == word_content_length(),
        decreases hs.len() - i,
    {
        let ghost rest = hv.skip(i as int);
        assert(rest[0] == hv[i as int]);
        assert(rest.drop_first() == hv.skip(i + 1));
        if equals_word(&hs[i].0, "Content-Length") {
            let v = chars_of(hs[i].1.as_str());
            return match parse_unsigned_chars(&v, usize::MAX as u64) {
                Some(x) => x as usize,
                None => 0,
            };
        }
        i = i + 1;
    }
    0
}

/// Parses a whole response: the status line, the header lines, then CR LF and
/// a body of the length that `Content-Length` gives (zero without it).
pub fn parse_response(input: &[u8]) -> (r: Result<HttpResponse, ParseFailure>)
    ensures
        match response_spec(input@) {
            Ok(v) => r matches Ok(resp) && resp.view_resp() == v,
            Err(e) => r matches Err(e2) && e2 == e,
        },
{
    let (input2, status_line) = match parse_status_line(input) {
        Ok(x) => x,
        Err(e) => return Err(e),
    };
    let (input3, headers) = parse_response_header(input2);
    let content_length = content_length_of(&headers);
    let (_rest, body) = match parse_response_body(input3, content_length) {
        Ok(x) => x,
        Err(e) => return Err(e),
    };
    proof {
        let (c, st, msg) = status_line_spec(input@).unwrap();
        let hc = headers_spec(input@.skip(c as int)).0;
        assert(input3@ == input@.skip(c as int).skip(hc as int));
    }
    Ok(HttpResponse { status_line, headers, body: slice_to_vec(body) })
}


/// The characters of CR LF CR LF, which end the header of a response.
pub open spec fn blank_line() -> Seq<char> {
    seq!['\r', '\n', '\r', '\n']
}

/// The first index at which `p` occurs in `s`, if it does.
#[verifier::opaque]
pub open spec fn first_occurrence(s: Seq<char>, p: Seq<char>) -> Option<int> {
    if exists|i: int| occurs_at(s, p, i) {
        Some(choose|i: int| occurs_at(s, p, i) && forall|j: int| 0 <= j < i ==> !occurs_at(s, p, j))
    } else {
        None
    }
}

/// The request fields of a response read whole as text, with its status code:
/// `RESPONSE_STATUS` with the code in decimal, then, where CR LF CR LF occurs,
/// `RESPONSE_HEADER` with what comes before its first occurrence and
/// `RESPONSE_BODY` with the rest (the blank line included), and otherwise
/// `RESPONSE_HEADER` with the whole response.
pub open spec fn response_fields_spec(response: Seq<char>, status: u16) -> Seq<(Seq<char>, Seq<char>)> {
    let st = (word_response_status(), nat_digits(status as nat));
    match first_occurrence(response, blank_line()) {
        Some(i) => seq![
            st,
            (word_response_header(), response.take(i)),
            (word_response_body(), response.skip(i)),
        ],
        None => seq![st, (word_response_header(), response)],
    }
}

#[verifier::opaque]
pub open spec fn word_response_status() -> Seq<char> {
    seq!['R', 'E', 'S', 'P', 'O', 'N', 'S', 'E', '_', 'S', 'T', 'A', 'T', 'U', 'S']
}

#[verifier::opaque]
pub open spec fn word_response_header() -> Seq<char> {
    seq!['R', 'E', 'S', 'P', 'O', 'N', 'S', 'E', '_', 'H', 'E', 'A', 'D', 'E', 'R']
}

#[verifier::opaque]
pub open spec fn word_response_body() -> Seq<char> {
    seq!['R', 'E', 'S', 'P', 'O', 'N', 'S', 'E', '_', 'B', 'O', 'D', 'Y']
}

/// The characters `v[from..to]`.
fn chars_between(v: &Vec<char>, from: usize, to: usize) -> (r: Vec<char>)
    requires
        from <= to <= v.len(),
    ensures
        r@ == v@.subrange(from as int, to as int),
{
    let mut r: Vec<char> = Vec::new();
    let mut i = from;
    while i < to
        invariant
            from <= i <= to <= v.len(),
            r@ == v@.subrange(from as int, i as int),
        decreases to - i,
    {
        r.push(v[i]);
        i = i + 1;
    }
    r
}

/// Where CR LF CR LF first occurs in `v`, if it does.
fn find_blank_line(v: &Vec<char>) -> (r: Option<usize>)
    ensures
        match r {
            Some(i) => occurs_at(v@, blank_line(), i as int)
                && forall|j: int| 0 <= j < i ==> !occurs_at(v@, blank_line(), j),
            None => forall|j: int| !occurs_at(v@, blank_line(), j),
        },
{
    let mut i: usize = 0;
    while i < v.len() && v.len() - i >= 4
        invariant
            i <= v.len(),
            forall|j: int| 0 <= j < i ==> !occurs_at(v@, blank_line(), j),
        decreases v.len() - i,
    {
        if v[i] == '\r' && v[i + 1] == '\n' && v[i + 2] == '\r' && v[i + 3] == '\n' {
            assert(v@.subrange(i as int, i + 4) =~= blank_line());
            return Some(i);
        }
        assert(!occurs_at(v@, blank_line(), i as int)) by {
            if occurs_at(v@, blank_line(), i as int) {
                assert(v@.subrange(i as int, i + 4)[0] == v@[i as int]);
                assert(v@.subrange(i as int, i + 4)[1] == v@[i + 1]);
                assert(v@.subrange(i as int, i + 4)[2] == v@[i + 2]);
                assert(v@.subrange(i as int, i + 4)[3] == v@[i + 3]);
            }
        }
        i = i + 1;
    }
    None
}

/// The first occurrence of CR LF CR LF, as `find_blank_line` reports it.
proof fn lemma_first_occurrence(s: Seq<char>, i: int)
    requires
        occurs_at(s, blank_line(), i),
        forall|j: int| 0 <= j < i ==> !occurs_at(s, blank_line(), j),
    ensures
        first_occurrence(s, blank_line()) == Some(i),
{
    reveal(first_occurrence);
    let c = choose|c: int| occurs_at(s, blank_line(), c) && forall|j: int| 0 <= j < c ==> !occurs_at(s, blank_line(), j);
    assert(occurs_at(s, blank_line(), c));
    if c < i {
    } else if c > i {
        assert(!occurs_at(s, blank_line(), i));
    }
}

/// The fields that a response read whole as text gives, with its status code.
pub fn response_fields(response: &str, status: u16) -> (r: Vec<(String, String)>)
    ensures
        r@.map_values(|p: (String, String)| (p.0@, p.1@)) == response_fields_spec(response@, status),
{
    proof {
        reveal_strlit("RESPONSE_STATUS");
        reveal_strlit("RESPONSE_HEADER");
        reveal_strlit("RESPONSE_BODY");
        reveal(word_response_status);
        reveal(word_response_header);
        reveal(word_response_body);
        assert("RESPONSE_STATUS"@ =~= word_response_status());
        assert("RESPONSE_HEADER"@ =~= word_response_header());
        assert("RESPONSE_BODY"@ =~= word_response_body());
    }
    let v = chars_of(response);
    let mut st = String::new();
    push_digits(&mut st, status as u64);
    assert(Seq::<char>::empty() + nat_digits(status as nat) == nat_digits(status as nat));
    let found = find_blank_line(&v);
    let mut r: Vec<(String, String)> = Vec::new();
    r.push(("RESPONSE_STATUS".to_string(), st));
    match found {
        Some(idx) => {
            proof {
                lemma_first_occurrence(v@, idx as int);
            }
            let head = chars_between(&v, 0, idx);
            let body = chars_between(&v, idx, v.len());
            r.push(("RESPONSE_HEADER".to_string(), string_from_chars(&head)));
            r.push(("RESPONSE_BODY".to_string(), string_from_chars(&body)));
        },
        None => {
            proof {
                reveal(first_occurrence);
            }
            r.push(("RESPONSE_HEADER".to_string(), response.to_string()));
        },
    }
    r
}

/// Where `p` occurs in `s`, it has a first occurrence.
proof fn lemma_first_exists(s: Seq<char>, p: Seq<char>, k: int)
    requires
        occurs_at(s, p, k),
    ensures
        exists|i: int| occurs_at(s, p, i) && forall|j: int| 0 <= j < i ==> !occurs_at(s, p, j),
    decreases k,
{
    if exists|j: int| 0 <= j < k && occurs_at(s, p, j) {
        let j = choose|j: int| 0 <= j < k && occurs_at(s, p, j);
        lemma_first_exists(s, p, j);
    } else {
        assert(forall|j: int| 0 <= j < k ==> !occurs_at(s, p, j));
    }
}

/// The first occurrence of `p` in `s`, where there is one, is an occurrence.
proof fn lemma_first_occurs(s: Seq<char>, p: Seq<char>)
    ensures
        first_occurrence(s, p) matches Some(i) ==> occurs_at(s, p, i),
{
    reveal(first_occurrence);
    if exists|k: int| occurs_at(s, p, k) {
        let k = choose|k: int| occurs_at(s, p, k);
        lemma_first_exists(s, p, k);
    }
}

/// The header and body fields of a response split it.
proof fn lemma_fields_split(response: Seq<char>, status: u16)
    ensures
        response_fields_spec(response, status).len() == 3 ==> response_fields_spec(response, status)[1].1
            + response_fields_spec(response, status)[2].1 == response,
        response_fields_spec(response, status).len() == 2 ==> response_fields_spec(response, status)[1].1
            == response,
{
    let fo = first_occurrence(response, blank_line());
    lemma_first_occurs(response, blank_line());
    if fo is Some {
        let i = fo->0;
        assert(occurs_at(response, blank_line(), i));
        assert(0 <= i <= response.len());
        assert(response.take(i) + response.skip(i) =~= response);
    }
}

/// The fields of a response lose nothing: the status field reads back as the
/// status code, and the header field followed by the body field, where there
/// is one, is the whole response.
pub proof fn law_fields_cover_response(response: Seq<char>, status: u16)
    ensures
        parse_i64_spec(response_fields_spec(response, status)[0].1) == Some(status as i64),
        response_fields_spec(response, status).len() == 3 ==> response_fields_spec(response, status)[1].1
            + response_fields_spec(response, status)[2].1 == response,
        response_fields_spec(response, status).len() == 2 ==> response_fields_spec(response, status)[1].1
            == response,
{
    let f = response_fields_spec(response, status);
    let d = nat_digits(status as nat);
    assert(f[0].1 == d);
    assert(parse_i64_spec(d) == Some(status as i64)) by {
        law_decimal_roundtrip(status as i64);
        assert(int_decimal(status as int) == d);
    }
    lemma_fields_split(response, status);
}

/// A run of class `k` that a byte outside the class ends has the run's length.
proof fn lemma_run_len_of(p: Seq<u8>, x: u8, rest: Seq<u8>, k: ByteRun)
    requires
        forall|i: int| 0 <= i < p.len() ==> in_run(#[trigger] p[i], k),
        !in_run(x, k),
    ensures
        run_len(p + seq![x] + rest, k) == p.len(),
    decreases p.len(),
{
    let s = p + seq![x] + rest;
    if p.len() == 0 {
        assert(s[0] == x);
    } else {
        assert(s[0] == p[0]);
        assert(s.drop_first() =~= p.drop_first() + seq![x] + rest);
        assert forall|i: int| 0 <= i < p.drop_first().len() implies in_run(#[trigger] p.drop_first()[i], k) by {
            assert(p.drop_first()[i] == p[i + 1]);
        }
        lemma_run_len_of(p.drop_first(), x, rest, k);
    }
}

/// A header line is a name of one or more bytes other than `:`, then `:`,
/// then a value of one or more bytes other than CR and LF (a `:` among them
/// too), then CR LF: it takes those bytes and gives that name and that value,
/// whatever follows.
pub proof fn law_header_line(name: Seq<u8>, value: Seq<u8>, rest: Seq<u8>)
    requires
        name.len() > 0,
        forall|i: int| 0 <= i < name.len() ==> #[trigger] name[i] != 58u8,
        value.len() > 0,
        forall|i: int| 0 <= i < value.len() ==> #[trigger] value[i] != 13u8 && value[i] != 10u8,
    ensures
        header_spec(name + seq![58u8] + value + seq![13u8, 10u8] + rest) == Some(
            ((name.len() + value.len() + 3) as nat, name, value),
        ),
{
    let s = name + seq![58u8] + value + seq![13u8, 10u8] + rest;
    let tail = value + seq![13u8, 10u8] + rest;
    assert(s =~= name + seq![58u8] + tail);
    assert forall|i: int| 0 <= i < name.len() implies in_run(#[trigger] name[i], ByteRun::Name) by {}
    lemma_run_len_of(name, 58u8, tail, ByteRun::Name);
    let n = name.len() as int;
    assert(s.skip(n + 1) =~= value + seq![13u8] + (seq![10u8] + rest));
    assert forall|i: int| 0 <= i < value.len() implies in_run(#[trigger] value[i], ByteRun::Line) by {}
    lemma_run_len_of(value, 13u8, seq![10u8] + rest, ByteRun::Line);
    let e = n + 1 + value.len();
    assert(s[e] == 13u8);
    assert(s[e + 1] == 10u8);
    assert(s.take(n) =~= name);
    assert(s.subrange(n + 1, e) =~= value);
}

/// Every byte of `s` is of class `k`.
pub open spec fn all_in_run(s: Seq<u8>, k: ByteRun) -> bool {
    forall|i: int| 0 <= i < s.len() ==> in_run(#[trigger] s[i], k)
}

/// A status line is `HTTP/`, one or more digits, `.`, one or more digits, one
/// or more spaces, the status digits, a message of one or more bytes other
/// than CR and LF that does not start with a digit, and CR LF: it takes those
/// bytes and gives the status digits and the message, whatever follows.
pub proof fn law_status_line(
    major: Seq<u8>,
    minor: Seq<u8>,
    spaces: Seq<u8>,
    status: Seq<u8>,
    msg: Seq<u8>,
    rest: Seq<u8>,
)
    requires
        major.len() > 0 && all_in_run(major, ByteRun::Digits),
        minor.len() > 0 && all_in_run(minor, ByteRun::Digits),
        spaces.len() > 0 && all_in_run(spaces, ByteRun::Spaces),
        status.len() > 0 && all_in_run(status, ByteRun::Digits),
        msg.len() > 0 && all_in_run(msg, ByteRun::Line) && !in_run(msg[0], ByteRun::Digits),
    ensures
        status_line_spec(
            http_prefix() + major + seq![46u8] + minor + spaces + status + msg + seq![13u8, 10u8] + rest,
        ) == Some(
            (
                (5 + major.len() + 1 + minor.len() + spaces.len() + status.len() + msg.len() + 2) as nat,
                status,
                msg,
            ),
        ),
{
    let s = http_prefix() + major + seq![46u8] + minor + spaces + status + msg + seq![13u8, 10u8] + rest;
    let a: int = 5 + major.len() as int;
    let b: int = a + 1 + minor.len();
    let c: int = b + spaces.len();
    let d: int = c + status.len();
    let e: int = d + msg.len();
    assert(s.take(5) =~= http_prefix());
    let t1 = minor + spaces + status + msg + seq![13u8, 10u8] + rest;
    assert(s.skip(5) =~= major + seq![46u8] + t1);
    lemma_run_len_of(major, 46u8, t1, ByteRun::Digits);
    assert(s[a] == 46u8);
    let t2 = status + msg + seq![13u8, 10u8] + rest;
    assert(s.skip(a + 1) =~= minor + seq![spaces[0]] + (spaces.drop_first() + t2));
    lemma_run_len_of(minor, spaces[0], spaces.drop_first() + t2, ByteRun::Digits);
    let t3 = msg + seq![13u8, 10u8] + rest;
    assert(s.skip(b) =~= spaces + seq![status[0]] + (status.drop_first() + t3));
    lemma_run_len_of(spaces, status[0], status.drop_first() + t3, ByteRun::Spaces);
    let t4 = msg.drop_first() + seq![13u8, 10u8] + rest;
    assert(s.skip(c) =~= status + seq![msg[0]] + t4);
    lemma_run_len_of(status, msg[0], t4, ByteRun::Digits);
    assert(s.skip(d) =~= msg + seq![13u8] + (seq![10u8] + rest));
    lemma_run_len_of(msg, 13u8, seq![10u8] + rest, ByteRun::Line);
    assert(s[e] == 13u8);
    assert(s[e + 1] == 10u8);
    assert(s.subrange(c, d) =~= status);
    assert(s.subrange(d, e) =~= msg);
}

/// The header lines of `s` are its first header line, if it has one, then the
/// header lines of what follows it.
pub proof fn law_headers_step(s: Seq<u8>)
    ensures
        match header_spec(s) {
            Some((c, name, value)) => c <= s.len() ==> headers_spec(s) == (
                c + headers_spec(s.skip(c as int)).0,
                seq![(name, value)] + headers_spec(s.skip(c as int)).1,
            ),
            None => headers_spec(s).1.len() == 0,
        },
{
    match header_spec(s) {
        Some((c, name, value)) => {
            assert(c > 0);
        },
        None => {},
    }
}

} // verus!
