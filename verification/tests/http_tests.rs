use dynafilter::http_response_parse::{parse_response, parse_status_line, response_fields, ParseFailure};
use nom::bytes::complete::{is_not, tag, take, take_while1};
use nom::character::complete::crlf;
use nom::character::is_digit;
use nom::multi::many0;
use nom::sequence::{preceded, terminated, tuple};
use nom::IResult;

// The combinator form of the grammar, to hold the parser against.
fn nom_status_line(input: &[u8]) -> Option<(usize, Result<(u16, String), ()>)> {
    let http = tag("HTTP/");
    let version = tuple((take_while1(is_digit), tag("."), take_while1(is_digit)));
    let space = take_while1(|c| c == b' ');
    let status = take_while1(is_digit);
    let msg = terminated(is_not("\r\n".as_bytes()), tag(b"\r\n"));
    let res: IResult<&[u8], (&[u8], (&[u8], &[u8], &[u8]), &[u8], &[u8], &[u8])> =
        tuple((http, version, space, status, msg))(input);
    let (rest, parts) = res.ok()?;
    let st = String::from_utf8_lossy(parts.3).to_string();
    let parsed = match st.parse::<u16>() {
        Ok(v) => Ok((v, String::from_utf8_lossy(parts.4).trim().to_string())),
        Err(_) => Err(()),
    };
    Some((input.len() - rest.len(), parsed))
}

fn nom_headers(input: &[u8]) -> (usize, Vec<(String, String)>) {
    let name = terminated(is_not(":".as_bytes()), tag(":"));
    let value = terminated(is_not("\r\n".as_bytes()), tag(b"\r\n"));
    let kv = tuple((name, value));
    let headers: IResult<&[u8], Vec<(&[u8], &[u8])>> = many0(kv)(input);
    let (rest, hs) = headers.unwrap();
    let hs2 = hs
        .iter()
        .map(|v| {
            (
                String::from_utf8_lossy(v.0).trim().to_string(),
                String::from_utf8_lossy(v.1).trim().to_string(),
            )
        })
        .collect();
    (input.len() - rest.len(), hs2)
}

fn nom_body(input: &[u8], len: usize) -> Option<Vec<u8>> {
    let r: IResult<&[u8], &[u8]> = preceded(crlf, take(len))(input);
    r.ok().map(|(_, b)| b.to_vec())
}

const SAMPLES: &[&[u8]] = &[
    b"HTTP/1.1 200 OK\r\nContent-Length: 5\r\nServer: x\r\n\r\nhello world",
    b"HTTP/1.1 404 Not Found\r\n\r\n",
    b"HTTP/1.1 200\r\n\r\n",
    b"HTTP/2.0   301   Moved \r\nLocation: /a\r\n\r\n",
    b"HTTP/1.1 99999 Big\r\n\r\n",
    b"HTTP/1.1 200 OK\r\nContent-Length: 50\r\n\r\nshort",
    b"HTTP/1.1 200 OK\r\nContent-Length: +3\r\nContent-Length: 1\r\n\r\nabcdef",
    b"HTTP/1.1 200 OK\r\nContent-Length: x\r\n\r\nabc",
    b"HTTP/1 200 OK\r\n\r\n",
    b"HTTP/1.1 200 OK\r\nbroken header\r\n\r\nabc",
    b"HTTP/1.1 200 OK\r\n\r\nbody: with colon\r\n",
    b"HTTPS/1.1 200 OK\r\n\r\n",
    b"HTTP/1.1 200 \xff\xfe bad\r\nX-A: \xc3\xa9t\xc3\xa9\r\n\r\n",
    b"",
];

#[test]
fn status_line_agrees_with_combinators() {
    for s in SAMPLES {
        let mine = parse_status_line(s);
        match nom_status_line(s) {
            None => assert!(matches!(mine, Err(ParseFailure::Malformed)), "{:?}", s),
            Some((_, Err(()))) => assert!(matches!(mine, Err(ParseFailure::StatusOutOfRange)), "{:?}", s),
            Some((used, Ok((status, msg)))) => {
                let (rest, line) = mine.unwrap();
                assert_eq!(rest.len(), s.len() - used);
                assert_eq!(line.status, status);
                assert_eq!(line.msg, msg);
            }
        }
    }
}

#[test]
fn response_agrees_with_combinators() {
    for s in SAMPLES {
        let mine = parse_response(s);
        let want = match nom_status_line(s) {
            None => Err(ParseFailure::Malformed),
            Some((_, Err(()))) => Err(ParseFailure::StatusOutOfRange),
            Some((used, Ok((status, msg)))) => {
                let (hused, hs) = nom_headers(&s[used..]);
                let len = hs
                    .iter()
                    .find(|kv| kv.0.eq("Content-Length"))
                    .map(|kv| kv.1.parse::<usize>().unwrap_or(0))
                    .unwrap_or(0);
                match nom_body(&s[used + hused..], len) {
                    Some(body) => Ok((status, msg, hs, body)),
                    None => Err(ParseFailure::Malformed),
                }
            }
        };
        match (mine, want) {
            (Ok(r), Ok((status, msg, hs, body))) => {
                assert_eq!(r.status_line.status, status);
                assert_eq!(r.status_line.msg, msg);
                assert_eq!(r.headers, hs);
                assert_eq!(r.body, body);
            }
            (Err(a), Err(b)) => assert_eq!(a, b),
            (a, b) => panic!("disagree on {:?}: {:?} vs {:?}", s, a.is_ok(), b.is_ok()),
        }
    }
}

#[test]
fn body_and_headers() {
    let r = parse_response(b"HTTP/1.1 200 OK\r\nContent-Length: 5\r\nServer: x\r\n\r\nhello world").unwrap();
    assert_eq!(r.status_line.status, 200);
    assert_eq!(r.status_line.msg, "OK");
    assert_eq!(r.body, b"hello".to_vec());
    assert_eq!(r.get_header("Server"), Some("x"));
    assert_eq!(r.get_header("server"), None);
    assert_eq!(r.get_header("Content-Length"), Some("5"));
}

#[test]
fn errors() {
    assert_eq!(parse_response(b"HTTP/1.1 70000 X\r\n\r\n").err(), Some(ParseFailure::StatusOutOfRange));
    assert_eq!(parse_response(b"HTTP/1.1 200 OK\r\n").err(), Some(ParseFailure::Malformed));
    assert_eq!(parse_response(b"garbage").err(), Some(ParseFailure::Malformed));
}

#[test]
fn fields_split_at_blank_line() {
    let resp = "HTTP/1.1 200 OK\r\nA: b\r\n\r\nbody\r\n\r\nmore";
    let f = response_fields(resp, 200);
    assert_eq!(f.len(), 3);
    assert_eq!(f[0], ("RESPONSE_STATUS".to_string(), "200".to_string()));
    assert_eq!(f[1], ("RESPONSE_HEADER".to_string(), "HTTP/1.1 200 OK\r\nA: b".to_string()));
    assert_eq!(f[2], ("RESPONSE_BODY".to_string(), "\r\n\r\nbody\r\n\r\nmore".to_string()));
    assert_eq!(format!("{}{}", f[1].1, f[2].1), resp);
    assert_eq!(f[0].1.parse::<u16>().unwrap(), 200);
}

#[test]
fn fields_without_blank_line() {
    let resp = "HTTP/1.0 404 Not Found\r\n";
    let f = response_fields(resp, 404);
    assert_eq!(f.len(), 2);
    assert_eq!(f[0], ("RESPONSE_STATUS".to_string(), "404".to_string()));
    assert_eq!(f[1], ("RESPONSE_HEADER".to_string(), resp.to_string()));
    let g = response_fields("", 0);
    assert_eq!(g[0].1, "0");
    assert_eq!(g[1].1, "");
}
