//! The demo server's answer: an HTML page that shows which port and socket
//! served the connection, sent as a complete HTTP/1.1 response.
use vstd::prelude::*;
use vstd::string::StringSliceAdditionalSpecFns;
use crate::decimal::{digits_value, is_canonical_decimal, is_canonical_signed, lemma_decimal_is_canonical, lemma_signed_decimal_is_canonical, lemma_parse_signed_decimal, parse_i32_spec, parse_u16_spec, decimal, lemma_parse_unsigned_decimal, parse_unsigned, push_decimal, push_signed_decimal, signed_decimal};

verus! {

/// Page text before the port, for the page that shows the connection's descriptor.
pub const FD_PAGE_HEAD: &'static str = r#"<!DOCTYPE html>
<html lang="en">
<head>
  <meta charset="UTF-8" />
  <meta name="viewport" content="width=device-width, initial-scale=1.0" />
  <title>mini-tubular</title>
  <style>
    * { box-sizing: border-box; margin: 0; padding: 0; }
    body {
      min-height: 100vh;
      display: flex;
      align-items: center;
      justify-content: center;
      background: #0f0f0f;
      font-family: 'Segoe UI', system-ui, sans-serif;
      color: #e0e0e0;
    }
    .card {
      text-align: center;
      padding: 3rem 4rem;
      border: 1px solid #2a2a2a;
      border-radius: 12px;
      background: #1a1a1a;
      box-shadow: 0 8px 32px rgba(0,0,0,0.5);
      max-width: 560px;
      width: 90%;
    }
    .label {
      font-size: 0.75rem;
      letter-spacing: 0.15em;
      text-transform: uppercase;
      color: #666;
      margin-bottom: 0.5rem;
    }
    .port {
      font-size: 3.5rem;
      font-weight: 700;
      color: #7c6af7;
      letter-spacing: -0.02em;
      margin-bottom: 1.75rem;
    }
    .fd {
      font-size: 0.85rem;
      color: #4caf7d;
      font-family: 'Courier New', monospace;
      margin-bottom: 1.75rem;
    }
    .divider {
      width: 40px;
      height: 2px;
      background: #2a2a2a;
      margin: 0 auto 1.75rem;
    }
    .message {
      font-size: 1.1rem;
      line-height: 1.6;
      color: #b0b0b0;
    }
  </style>
</head>
<body>
  <div class="card">
    <p class="label">Listening on port</p>
    <p class="port">"#;

/// Page text between the port and the connection's descriptor.
pub const FD_PAGE_BEFORE_FD: &'static str = r#"</p>
    <p class="fd">socket fd: "#;

/// Page text before the port, for the page that shows the listening socket's path.
pub const PATH_PAGE_HEAD: &'static str = r#"<!DOCTYPE html>
<html lang="en">
<head>
  <meta charset="UTF-8" />
  <meta name="viewport" content="width=device-width, initial-scale=1.0" />
  <title>mini-tubular</title>
  <style>
    * { box-sizing: border-box; margin: 0; padding: 0; }
    html { font-size: 20px; }
    body {
      min-height: 100vh;
      display: flex;
      align-items: center;
      justify-content: center;
      background: #0f0f0f;
      font-family: 'Segoe UI', system-ui, sans-serif;
      color: #e0e0e0;
    }
    .card {
      text-align: center;
      padding: 5rem 6rem;
      border: 1px solid #2a2a2a;
      border-radius: 20px;
      background: #1a1a1a;
      box-shadow: 0 16px 64px rgba(0,0,0,0.6);
      max-width: 860px;
      width: 92%;
    }
    .label {
      font-size: 1rem;
      letter-spacing: 0.2em;
      text-transform: uppercase;
      color: #555;
      margin-bottom: 0.75rem;
    }
    .port {
      font-size: 7rem;
      font-weight: 800;
      color: #7c6af7;
      letter-spacing: -0.03em;
      line-height: 1;
      margin-bottom: 1rem;
    }
    .fd {
      font-size: 1.1rem;
      color: #4caf7d;
      font-family: 'Courier New', monospace;
      margin-bottom: 3rem;
      word-break: break-all;
    }
    .divider {
      width: 60px;
      height: 3px;
      background: #2a2a2a;
      margin: 0 auto 3rem;
    }
    .message {
      font-size: 1.6rem;
      line-height: 1.6;
      color: #b0b0b0;
    }
  </style>
</head>
<body>
  <div class="card">
    <p class="label">Listening on port</p>
    <p class="port">"#;

/// Page text between the port and the listening socket's path.
pub const PATH_PAGE_BEFORE_PATH: &'static str = r#"</p>
    <p class="fd">"#;

/// Page text between the socket line and the message.
pub const PAGE_BEFORE_MESSAGE: &'static str = r#"</p>
    <div class="divider"></div>
    <p class="message">"#;

/// Page text after the message.
pub const PAGE_TAIL: &'static str = r#"</p>
  </div>
</body>
</html>"#;

/// Response text before the body length.
pub const RESPONSE_HEAD: &'static str = "HTTP/1.1 200 OK\r\nContent-Type: text/html; charset=utf-8\r\nContent-Length: ";

/// Response text between the body length and the body.
pub const RESPONSE_BEFORE_BODY: &'static str = "\r\nConnection: close\r\n\r\n";


/// Appends the bytes of `bytes` to `out`.
pub fn push_bytes(out: &mut Vec<u8>, bytes: &[u8])
    ensures
        final(out)@ == old(out)@ + bytes@,
{
    let mut i: usize = 0;
    while i < bytes.len()
        invariant
            i <= bytes@.len(),
            out@ == old(out)@ + bytes@.take(i as int),
        decreases bytes@.len() - i,
    {
        out.push(bytes[i]);
        assert(bytes@.take(i + 1) =~= bytes@.take(i as int).push(bytes@[i as int]));
        i = i + 1;
    }
    assert(bytes@.take(i as int) =~= bytes@);
}

/// The page that shows the port, the descriptor of the connection, and the message.
pub open spec fn fd_page(port: u16, fd: i32, message: Seq<u8>) -> Seq<u8> {
    FD_PAGE_HEAD.spec_bytes() + decimal(port as nat) + FD_PAGE_BEFORE_FD.spec_bytes()
        + signed_decimal(fd as int) + PAGE_BEFORE_MESSAGE.spec_bytes() + message
        + PAGE_TAIL.spec_bytes()
}

/// The page that shows the port, the path of the listening socket, and the message.
pub open spec fn path_page(port: u16, fd_path: Seq<u8>, message: Seq<u8>) -> Seq<u8> {
    PATH_PAGE_HEAD.spec_bytes() + decimal(port as nat) + PATH_PAGE_BEFORE_PATH.spec_bytes()
        + fd_path + PAGE_BEFORE_MESSAGE.spec_bytes() + message + PAGE_TAIL.spec_bytes()
}

/// The complete response that carries `body`, with its length in `Content-Length`.
pub open spec fn http_response_spec(body: Seq<u8>) -> Seq<u8> {
    RESPONSE_HEAD.spec_bytes() + decimal(body.len()) + RESPONSE_BEFORE_BODY.spec_bytes() + body
}

/// Renders the page for a connection that descriptor `fd` serves on `port`.
/// The message is inserted as it is, without escaping.
pub fn render_fd_page(port: u16, fd: i32, message: &[u8]) -> (page: Vec<u8>)
    ensures
        page@ == fd_page(port, fd, message@),
{
    let mut out: Vec<u8> = Vec::new();
    push_bytes(&mut out, FD_PAGE_HEAD.as_bytes());
    push_decimal(&mut out, port as u64);
    push_bytes(&mut out, FD_PAGE_BEFORE_FD.as_bytes());
    push_signed_decimal(&mut out, fd);
    push_bytes(&mut out, PAGE_BEFORE_MESSAGE.as_bytes());
    push_bytes(&mut out, message);
    push_bytes(&mut out, PAGE_TAIL.as_bytes());
    assert(out@ =~= fd_page(port, fd, message@));
    out
}

/// Renders the page for a connection to `port` whose listening socket is
/// reachable under `fd_path`. The message is inserted as it is, without escaping.
pub fn render_path_page(port: u16, fd_path: &[u8], message: &[u8]) -> (page: Vec<u8>)
    ensures
        page@ == path_page(port, fd_path@, message@),
{
    let mut out: Vec<u8> = Vec::new();
    push_bytes(&mut out, PATH_PAGE_HEAD.as_bytes());
    push_decimal(&mut out, port as u64);
    push_bytes(&mut out, PATH_PAGE_BEFORE_PATH.as_bytes());
    push_bytes(&mut out, fd_path);
    push_bytes(&mut out, PAGE_BEFORE_MESSAGE.as_bytes());
    push_bytes(&mut out, message);
    push_bytes(&mut out, PAGE_TAIL.as_bytes());
    assert(out@ =~= path_page(port, fd_path@, message@));
    out
}

/// Wraps `body` in a `200 OK` response that closes the connection.
pub fn http_response(body: &[u8]) -> (response: Vec<u8>)
    ensures
        response@ == http_response_spec(body@),
{
    let mut out: Vec<u8> = Vec::new();
    push_bytes(&mut out, RESPONSE_HEAD.as_bytes());
    push_decimal(&mut out, body.len() as u64);
    push_bytes(&mut out, RESPONSE_BEFORE_BODY.as_bytes());
    push_bytes(&mut out, body);
    assert(out@ =~= http_response_spec(body@));
    out
}

/// The `Content-Length` of a response reads back as exactly the number of
/// bytes that follow the header block, and those bytes are the body.
pub proof fn lemma_content_length_is_body_length(body: Seq<u8>)
    requires
        body.len() <= usize::MAX,
    ensures
        ({
            let r = http_response_spec(body);
            let n = decimal(body.len());
            let start: int = RESPONSE_HEAD.spec_bytes().len() as int;
            let end: int = start + n.len();
            let body_start: int = end + RESPONSE_BEFORE_BODY.spec_bytes().len();
            &&& r.take(start) == RESPONSE_HEAD.spec_bytes()
            &&& r.subrange(start, end) == n
            &&& is_canonical_decimal(r.subrange(start, end))
            &&& digits_value(r.subrange(start, end)) == body.len()
            &&& parse_unsigned(n, usize::MAX as nat) == Some(body.len())
            &&& r.subrange(end, body_start) == RESPONSE_BEFORE_BODY.spec_bytes()
            &&& r.skip(body_start) == body
            &&& r.len() - body_start == body.len()
        }),
{
    let r = http_response_spec(body);
    let n = decimal(body.len());
    let start: int = RESPONSE_HEAD.spec_bytes().len() as int;
    let end: int = start + n.len();
    let body_start: int = end + RESPONSE_BEFORE_BODY.spec_bytes().len();
    assert(r.take(start) =~= RESPONSE_HEAD.spec_bytes());
    assert(r.subrange(start, end) =~= n);
    lemma_decimal_is_canonical(body.len());
    assert(r.subrange(end, body_start) =~= RESPONSE_BEFORE_BODY.spec_bytes());
    assert(r.skip(body_start) =~= body);
    lemma_parse_unsigned_decimal(body.len(), usize::MAX as nat);
}


/// On the descriptor page, the field after the page head is the port, in
/// canonical decimal that `str::parse::<u16>` reads back as the port; after
/// the next fixed text comes the descriptor, in canonical decimal that reads
/// back as the descriptor; the page ends with the message and the page tail.
pub proof fn lemma_fd_page_fields(port: u16, fd: i32, message: Seq<u8>)
    ensures
        ({
            let page = fd_page(port, fd, message);
            let h = FD_PAGE_HEAD.spec_bytes();
            let m = FD_PAGE_BEFORE_FD.spec_bytes();
            let b = PAGE_BEFORE_MESSAGE.spec_bytes();
            let t = PAGE_TAIL.spec_bytes();
            &&& page.take(h.len() as int) == h
            &&& exists|n: int, k: int|
                #![trigger page.subrange(h.len() as int, h.len() + n), page.subrange(h.len() + n + m.len(), h.len() + n + m.len() + k)]
                0 < n && 0 < k && h.len() + n + m.len() + k + b.len() <= page.len()
                && is_canonical_decimal(page.subrange(h.len() as int, h.len() + n))
                && digits_value(page.subrange(h.len() as int, h.len() + n)) == port
                && parse_u16_spec(page.subrange(h.len() as int, h.len() + n)) == Some(port as nat)
                && page.subrange(h.len() + n, h.len() + n + m.len()) == m
                && is_canonical_signed(page.subrange(h.len() + n + m.len(), h.len() + n + m.len() + k), fd as int)
                && parse_i32_spec(page.subrange(h.len() + n + m.len(), h.len() + n + m.len() + k)) == Some(fd as int)
                && page.subrange(h.len() + n + m.len() + k, h.len() + n + m.len() + k + b.len()) == b
            &&& page.len() >= message.len() + t.len()
            &&& page.subrange(page.len() - t.len() - message.len(), page.len() - t.len()) == message
            &&& page.skip(page.len() - t.len()) == t
        }),
{
    let page = fd_page(port, fd, message);
    let h = FD_PAGE_HEAD.spec_bytes();
    let m = FD_PAGE_BEFORE_FD.spec_bytes();
    let b = PAGE_BEFORE_MESSAGE.spec_bytes();
    let t = PAGE_TAIL.spec_bytes();
    let dp = decimal(port as nat);
    let df = signed_decimal(fd as int);
    let n = dp.len() as int;
    let k = df.len() as int;
    lemma_decimal_is_canonical(port as nat);
    lemma_signed_decimal_is_canonical(fd as int);
    lemma_parse_unsigned_decimal(port as nat, u16::MAX as nat);
    lemma_parse_signed_decimal(fd as int, i32::MIN as int, i32::MAX as int);
    assert(page.take(h.len() as int) =~= h);
    assert(page.subrange(h.len() as int, h.len() + n) =~= dp);
    assert(page.subrange(h.len() + n, h.len() + n + m.len()) =~= m);
    assert(page.subrange(h.len() + n + m.len(), h.len() + n + m.len() + k) =~= df);
    assert(page.subrange(h.len() + n + m.len() + k, h.len() + n + m.len() + k + b.len()) =~= b);
    assert(page.subrange(page.len() - t.len() - message.len(), page.len() - t.len()) =~= message);
    assert(page.skip(page.len() - t.len()) =~= t);
}

/// On the path page, the field after the page head is the port, in canonical
/// decimal that reads back as the port; the listening socket's path follows
/// the next fixed text as it was given; the page ends with the message and
/// the page tail.
pub proof fn lemma_path_page_fields(port: u16, fd_path: Seq<u8>, message: Seq<u8>)
    ensures
        ({
            let page = path_page(port, fd_path, message);
            let h = PATH_PAGE_HEAD.spec_bytes();
            let m = PATH_PAGE_BEFORE_PATH.spec_bytes();
            let b = PAGE_BEFORE_MESSAGE.spec_bytes();
            let t = PAGE_TAIL.spec_bytes();
            &&& page.take(h.len() as int) == h
            &&& exists|n: int|
                #![trigger page.subrange(h.len() as int, h.len() + n)]
                0 < n && h.len() + n + m.len() + fd_path.len() + b.len() <= page.len()
                && is_canonical_decimal(page.subrange(h.len() as int, h.len() + n))
                && digits_value(page.subrange(h.len() as int, h.len() + n)) == port
                && parse_u16_spec(page.subrange(h.len() as int, h.len() + n)) == Some(port as nat)
                && page.subrange(h.len() + n, h.len() + n + m.len()) == m
                && page.subrange(h.len() + n + m.len(), h.len() + n + m.len() + fd_path.len()) == fd_path
                && page.subrange(h.len() + n + m.len() + fd_path.len(), h.len() + n + m.len() + fd_path.len() + b.len()) == b
            &&& page.len() >= message.len() + t.len()
            &&& page.subrange(page.len() - t.len() - message.len(), page.len() - t.len()) == message
            &&& page.skip(page.len() - t.len()) == t
        }),
{
    let page = path_page(port, fd_path, message);
    let h = PATH_PAGE_HEAD.spec_bytes();
    let m = PATH_PAGE_BEFORE_PATH.spec_bytes();
    let b = PAGE_BEFORE_MESSAGE.spec_bytes();
    let t = PAGE_TAIL.spec_bytes();
    let dp = decimal(port as nat);
    let n = dp.len() as int;
    let pl = fd_path.len() as int;
    lemma_decimal_is_canonical(port as nat);
    lemma_parse_unsigned_decimal(port as nat, u16::MAX as nat);
    assert(page.take(h.len() as int) =~= h);
    assert(page.subrange(h.len() as int, h.len() + n) =~= dp);
    assert(page.subrange(h.len() + n, h.len() + n + m.len()) =~= m);
    assert(page.subrange(h.len() + n + m.len(), h.len() + n + m.len() + pl) =~= fd_path);
    assert(page.subrange(h.len() + n + m.len() + pl, h.len() + n + m.len() + pl + b.len()) =~= b);
    assert(page.subrange(page.len() - t.len() - message.len(), page.len() - t.len()) =~= message);
    assert(page.skip(page.len() - t.len()) =~= t);
}

} // verus!
