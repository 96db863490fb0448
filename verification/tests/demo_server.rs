use tubular::http::{http_response, render_fd_page, render_path_page};
use tubular::server::{server_config, ServerArgError};

fn expected_fd_page(port: u16, fd: i32, message: &str) -> String {
    format!(
        r#"<!DOCTYPE html>
<html lang="en">
<head>
  <meta charset="UTF-8" />
  <meta name="viewport" content="width=device-width, initial-scale=1.0" />
  <title>mini-tubular</title>
  <style>
    * {{ box-sizing: border-box; margin: 0; padding: 0; }}
    body {{
      min-height: 100vh;
      display: flex;
      align-items: center;
      justify-content: center;
      background: #0f0f0f;
      font-family: 'Segoe UI', system-ui, sans-serif;
      color: #e0e0e0;
    }}
    .card {{
      text-align: center;
      padding: 3rem 4rem;
      border: 1px solid #2a2a2a;
      border-radius: 12px;
      background: #1a1a1a;
      box-shadow: 0 8px 32px rgba(0,0,0,0.5);
      max-width: 560px;
      width: 90%;
    }}
    .label {{
      font-size: 0.75rem;
      letter-spacing: 0.15em;
      text-transform: uppercase;
      color: #666;
      margin-bottom: 0.5rem;
    }}
    .port {{
      font-size: 3.5rem;
      font-weight: 700;
      color: #7c6af7;
      letter-spacing: -0.02em;
      margin-bottom: 1.75rem;
    }}
    .fd {{
      font-size: 0.85rem;
      color: #4caf7d;
      font-family: 'Courier New', monospace;
      margin-bottom: 1.75rem;
    }}
    .divider {{
      width: 40px;
      height: 2px;
      background: #2a2a2a;
      margin: 0 auto 1.75rem;
    }}
    .message {{
      font-size: 1.1rem;
      line-height: 1.6;
      color: #b0b0b0;
    }}
  </style>
</head>
<body>
  <div class="card">
    <p class="label">Listening on port</p>
    <p class="port">{port}</p>
    <p class="fd">socket fd: {fd}</p>
    <div class="divider"></div>
    <p class="message">{message}</p>
  </div>
</body>
</html>"#,
        port = port,
        fd = fd,
        message = message
    )
}

fn expected_path_page(port: u16, fd_path: &str, message: &str) -> String {
    format!(
        r#"<!DOCTYPE html>
<html lang="en">
<head>
  <meta charset="UTF-8" />
  <meta name="viewport" content="width=device-width, initial-scale=1.0" />
  <title>mini-tubular</title>
  <style>
    * {{ box-sizing: border-box; margin: 0; padding: 0; }}
    html {{ font-size: 20px; }}
    body {{
      min-height: 100vh;
      display: flex;
      align-items: center;
      justify-content: center;
      background: #0f0f0f;
      font-family: 'Segoe UI', system-ui, sans-serif;
      color: #e0e0e0;
    }}
    .card {{
      text-align: center;
      padding: 5rem 6rem;
      border: 1px solid #2a2a2a;
      border-radius: 20px;
      background: #1a1a1a;
      box-shadow: 0 16px 64px rgba(0,0,0,0.6);
      max-width: 860px;
      width: 92%;
    }}
    .label {{
      font-size: 1rem;
      letter-spacing: 0.2em;
      text-transform: uppercase;
      color: #555;
      margin-bottom: 0.75rem;
    }}
    .port {{
      font-size: 7rem;
      font-weight: 800;
      color: #7c6af7;
      letter-spacing: -0.03em;
      line-height: 1;
      margin-bottom: 1rem;
    }}
    .fd {{
      font-size: 1.1rem;
      color: #4caf7d;
      font-family: 'Courier New', monospace;
      margin-bottom: 3rem;
      word-break: break-all;
    }}
    .divider {{
      width: 60px;
      height: 3px;
      background: #2a2a2a;
      margin: 0 auto 3rem;
    }}
    .message {{
      font-size: 1.6rem;
      line-height: 1.6;
      color: #b0b0b0;
    }}
  </style>
</head>
<body>
  <div class="card">
    <p class="label">Listening on port</p>
    <p class="port">{port}</p>
    <p class="fd">{fd_path}</p>
    <div class="divider"></div>
    <p class="message">{message}</p>
  </div>
</body>
</html>"#,
        port = port,
        fd_path = fd_path,
        message = message
    )
}

fn expected_response(html: &str) -> String {
    format!(
        "HTTP/1.1 200 OK\r\nContent-Type: text/html; charset=utf-8\r\nContent-Length: {}\r\nConnection: close\r\n\r\n{}",
        html.len(),
        html
    )
}

#[test]
fn fd_page_matches_the_page_format() {
    for (port, fd, message) in [(443u16, 5i32, "hello world"), (8080, -1, ""), (0, i32::MAX, "caf\u{e9} \u{2014} ok")] {
        let page = render_fd_page(port, fd, message.as_bytes());
        assert_eq!(String::from_utf8(page).unwrap(), expected_fd_page(port, fd, message));
    }
}

#[test]
fn path_page_matches_the_page_format() {
    let page = render_path_page(9001, b"/proc/77/fd/3", "hi there".as_bytes());
    assert_eq!(String::from_utf8(page).unwrap(), expected_path_page(9001, "/proc/77/fd/3", "hi there"));
}

#[test]
fn response_carries_the_body_length() {
    let html = expected_path_page(1, "/proc/1/fd/1", "\u{1F600} multi-byte");
    let response = http_response(html.as_bytes());
    assert_eq!(String::from_utf8(response.clone()).unwrap(), expected_response(&html));
    let text = String::from_utf8(response).unwrap();
    let (head, body) = text.split_once("\r\n\r\n").unwrap();
    let length: usize = head.lines().find_map(|l| l.strip_prefix("Content-Length: ")).unwrap().parse().unwrap();
    assert_eq!(length, body.len());
    assert_eq!(body, html);
}

#[test]
fn empty_body_response() {
    assert_eq!(http_response(b"").len(), expected_response("").len());
    assert_eq!(String::from_utf8(http_response(b"")).unwrap(), expected_response(""));
}

fn args(words: &[&str]) -> Vec<String> {
    words.iter().map(|w| w.to_string()).collect()
}

#[test]
fn server_command_line() {
    let config = server_config(&args(&["server", "8443", "hello", "from", "one"])).ok().unwrap();
    assert_eq!(config.port, 8443);
    assert_eq!(config.message, b"hello from one".to_vec());
    let config = server_config(&args(&["server", "+1", "x"])).ok().unwrap();
    assert_eq!(config.port, 1);
    assert_eq!(config.message, b"x".to_vec());
    let config = server_config(&args(&["server", "2", "", "a", ""])).ok().unwrap();
    assert_eq!(config.message, ["", "a", ""].join(" ").into_bytes());
}

#[test]
fn server_command_line_errors() {
    assert!(matches!(server_config(&args(&["server", "80"])), Err(ServerArgError::Usage)));
    assert!(matches!(server_config(&args(&[])), Err(ServerArgError::Usage)));
    assert!(matches!(server_config(&args(&["server", "70000", "m"])), Err(ServerArgError::InvalidPort)));
    assert!(matches!(server_config(&args(&["server", "-1", "m"])), Err(ServerArgError::InvalidPort)));
}
