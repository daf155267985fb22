//! The plain HTTP side: `curl xiaozhongsi.sh` gets a line of text pointing to
//! SSH, a browser gets a small landing page.

use vstd::prelude::*;
use vstd::string::{StrSliceExecFns, StringExecFns};
use crate::text::{
    chars_of, decimal, find_char, find_from, is_space, lines_of, push_decimal, same_text, split_lines, text_of,
    trimmed,
};
use vstd::utf8::encode_utf8;

verus! {

/// The bell as an SVG favicon.
pub const FAVICON: &'static str = "<svg xmlns=\"http://www.w3.org/2000/svg\" viewBox=\"0 0 100 100\">\
<text x=\"50\" y=\"52\" font-size=\"76\" text-anchor=\"middle\" dominant-baseline=\"central\">🔔</text></svg>";

/// What a terminal gets on "/".
pub const TEXT_HOME: &'static str = "終端裡的小鐘寺 · ssh xiaozhongsi.sh 進寺燒香撞鐘撸貓 🐱🔥🔔\n";

/// The landing page a browser gets on "/".
pub const HTML_HOME: &'static str = r####"<!doctype html>
<html lang="zh-Hant">
<head>
<meta charset="utf-8">
<meta name="viewport" content="width=device-width,initial-scale=1">
<title>終端裡的小鐘寺</title>
<meta name="description" content="終端裡的小鐘寺 · ssh xiaozhongsi.sh 進寺燒一炷香撞一記鐘撸一把貓 🐱🔥🔔">
<link rel="icon" href="/favicon.svg">
<style>
  :root { color-scheme: dark; }
  * { box-sizing: border-box; }
  body {
    margin: 0; min-height: 100vh; display: grid; place-items: center;
    background: radial-gradient(120% 120% at 50% 0%, #2a0f0a 0%, #140807 60%);
    color: #f3e2c0; font: 15px/1.7 ui-monospace, SFMono-Regular, Menlo, Consolas, monospace;
    padding: 2rem;
  }
  main { width: 100%; max-width: 640px; }
  h1 { font-size: 2.25rem; letter-spacing: .08em; margin: 0 0 1.25rem;
       color: #e8b923; }
  .lead { color: #b08a6a; margin: 0 0 .25rem; font-size: .9375rem; }
  .cmd {
    display: block; margin: .5rem 0 1.5rem; padding: .8rem 1rem;
    background: #241210; border: 1px solid #4a2a22; border-radius: 8px;
    color: #f3e2c0; overflow-x: auto; white-space: pre-wrap; word-break: break-all;
  }
  .cmd b { color: #74c0c8; font-weight: normal; }
  .cmd a { color: #74c0c8; }
  /* 提示符只做装饰，选中复制时不带上它 */
  .prompt { color: #8a7a63; user-select: none; -webkit-user-select: none; }
  a { color: #e8b923; }
  /* GitHub 按钮固定在页面右上角 */
  .corner { position: fixed; top: 1rem; right: 1rem; }
  /* buttons.js 加载前先藏住 Star 文本，避免闪一下；
     加载后原 <a> 被替换成 iframe（不带此 class）自然显示 */
  .github-button { visibility: hidden; }
  /* 透明无背景的复制按钮，缓慢闪烁提示可点；点后变对勾 */
  .copy {
    display: inline-flex; align-items: center; vertical-align: middle;
    margin-left: .6rem; padding: 0; border: 0; background: none;
    color: #74c0c8; cursor: pointer; -webkit-appearance: none; appearance: none;
    -webkit-animation: blink 1.8s ease-in-out infinite;
    animation: blink 1.8s ease-in-out infinite;
  }
  .copy:hover { color: #a7dfe4; }
  .copy svg { width: 1.05em; height: 1.05em; display: block; }
  /* 复制成功：停止闪烁、转绿、显示对勾 */
  .copy.done { color: #7bbf6a; -webkit-animation: none; animation: none; }
  /* 命令下方那行「已复制」小字，默认透明，复制后淡入 */
  .copied {
    height: 1.1em; margin: -1.1rem 0 1.5rem; font-size: .8125rem;
    color: #7bbf6a; opacity: 0; transition: opacity .2s;
    user-select: none; -webkit-user-select: none;
  }
  .copied.show { opacity: 1; }
  @-webkit-keyframes blink { 0%,100% { opacity: 1; } 50% { opacity: .3; } }
  @keyframes blink { 0%,100% { opacity: 1; } 50% { opacity: .3; } }
</style>
</head>
<body>
  <!-- GitHub 官方 star 按钮，固定右上角，异步加载 -->
  <div class="corner">
    <a class="github-button" href="https://github.com/meloalright/xiaozhongsi"
       data-icon="octicon-star" data-show-count="true"
       aria-label="Star meloalright/xiaozhongsi on GitHub">Star</a>
    <noscript><a href="https://github.com/meloalright/xiaozhongsi">GitHub</a></noscript>
  </div>
  <script async defer src="https://buttons.github.io/buttons.js"></script>
<main>
  <h1>終端裡的小鐘寺 🔔</h1>
  <p class="lead">在終端運行如下命令 · 進寺燒香撞鐘撸貓</p>
  <code class="cmd"><span class="prompt">$ </span><span id="line"><b>ssh</b> xiaozhongsi.sh</span><button id="copy" class="copy" type="button" aria-label="複製指令"><svg viewBox="0 0 24 24" fill="none" stroke="currentColor" stroke-width="2" stroke-linecap="round" stroke-linejoin="round"><rect x="9" y="9" width="13" height="13" rx="2"></rect><path d="M5 15H4a2 2 0 0 1-2-2V4a2 2 0 0 1 2-2h9a2 2 0 0 1 2 2v1"></path></svg></button></code>
  <p class="copied" id="copied" aria-live="polite">已複製到剪貼簿</p>
</main>
<script>
(function(){
  var COPY='<svg viewBox="0 0 24 24" fill="none" stroke="currentColor" stroke-width="2" stroke-linecap="round" stroke-linejoin="round"><rect x="9" y="9" width="13" height="13" rx="2"></rect><path d="M5 15H4a2 2 0 0 1-2-2V4a2 2 0 0 1 2-2h9a2 2 0 0 1 2 2v1"></path></svg>';
  var CHECK='<svg viewBox="0 0 24 24" fill="none" stroke="currentColor" stroke-width="2" stroke-linecap="round" stroke-linejoin="round"><path d="M20 6 9 17l-5-5"></path></svg>';
  var btn=document.getElementById('copy'), msg=document.getElementById('copied'), t;
  function flash(){
    btn.innerHTML=CHECK; btn.classList.add('done'); msg.classList.add('show');
    clearTimeout(t);
    t=setTimeout(function(){ btn.innerHTML=COPY; btn.classList.remove('done'); msg.classList.remove('show'); }, 1800);
  }
  btn.addEventListener('click', function(){
    var text='ssh xiaozhongsi.sh';
    if(navigator.clipboard&&navigator.clipboard.writeText){
      navigator.clipboard.writeText(text).then(flash, fallback);
    } else { fallback(); }
    function fallback(){
      var ta=document.createElement('textarea'); ta.value=text; ta.setAttribute('readonly','');
      ta.style.position='absolute'; ta.style.left='-9999px'; document.body.appendChild(ta);
      ta.select(); try{ document.execCommand('copy'); }catch(e){} document.body.removeChild(ta); flash();
    }
  });
})();
</script>
</body>
</html>
"####;

/// `c` with ASCII capitals made small.
pub open spec fn ascii_lower(c: char) -> char {
    if 'A' <= c && c <= 'Z' {
        ((c as u32 + 32) as u8) as char
    } else {
        c
    }
}

/// `s` with ASCII capitals made small (std's `to_ascii_lowercase`).
pub open spec fn lowered(s: Seq<char>) -> Seq<char> {
    s.map_values(|c: char| ascii_lower(c))
}

/// Whether `t` occurs in `s` as a contiguous piece.
pub open spec fn has_piece(s: Seq<char>, t: Seq<char>) -> bool {
    exists|i: int| 0 <= i && i + t.len() <= s.len() && #[trigger] s.subrange(i, i + t.len()) == t
}

/// A user agent counts as a terminal when it is empty or names curl, wget,
/// HTTPie, fetch or PowerShell (in any case).
pub open spec fn terminal_agent(ua: Seq<char>) -> bool {
    let l = lowered(ua);
    has_piece(l, "curl"@) || has_piece(l, "wget"@) || has_piece(l, "httpie"@) || has_piece(l, "fetch"@)
        || has_piece(l, "powershell"@) || ua.len() == 0
}

/// Status, content type and body for a GET of `path` by user agent `ua`.
pub open spec fn route_spec(path: Seq<char>, ua: Seq<char>) -> (u16, Seq<char>, Seq<char>) {
    if path == "/"@ {
        if terminal_agent(ua) {
            (200, "text/plain; charset=utf-8"@, TEXT_HOME@)
        } else {
            (200, "text/html; charset=utf-8"@, HTML_HOME@)
        }
    } else if path == "/favicon.svg"@ || path == "/favicon.ico"@ {
        (200, "image/svg+xml; charset=utf-8"@, FAVICON@)
    } else if path == "/healthz"@ {
        (200, "application/json; charset=utf-8"@, "{\"ok\":true}"@)
    } else {
        (404, "text/plain; charset=utf-8"@, "此路無廟\n"@)
    }
}

fn lower_chars(s: &str) -> (v: Vec<char>)
    ensures
        v@ == lowered(s@),
{
    let src = chars_of(s);
    let mut v: Vec<char> = Vec::new();
    let mut i: usize = 0;
    while i < src.len()
        invariant
            src@ == s@,
            0 <= i <= src@.len(),
            v@ == lowered(s@).take(i as int),
        decreases src@.len() - i,
    {
        let c = src[i];
        let l = if 'A' <= c && c <= 'Z' { ((c as u32 + 32) as u8) as char } else { c };
        v.push(l);
        assert(lowered(s@).take(i as int + 1) =~= lowered(s@).take(i as int).push(ascii_lower(c)));
        i = i + 1;
    }
    assert(lowered(s@).take(src@.len() as int) =~= lowered(s@));
    v
}

/// Whether `t` occurs in `s`.
fn has_piece_in(s: &Vec<char>, t: &str) -> (r: bool)
    ensures
        r == has_piece(s@, t@),
{
    let tv = chars_of(t);
    let n = s.len();
    let m = tv.len();
    if m > n {
        proof {
            assert forall|i: int| 0 <= i && i + t@.len() <= s@.len() implies #[trigger] s@.subrange(i, i + t@.len()) != t@ by {}
        }
        return false;
    }
    let mut i: usize = 0;
    while i <= n - m
        invariant
            tv@ == t@,
            n == s@.len(),
            m == t@.len(),
            m <= n,
            0 <= i <= n - m + 1,
            forall|k: int| 0 <= k < i ==> #[trigger] s@.subrange(k, k + m) != t@,
        decreases n + 1 - i,
    {
        let mut j: usize = 0;
        let mut same = true;
        while j < m
            invariant
                tv@ == t@,
                n == s@.len(),
                m == t@.len(),
                i + m <= n,
                0 <= j <= m,
                same == (forall|k: int| 0 <= k < j ==> s@[i + k] == t@[k]),
            decreases m - j,
        {
            if s[i + j] != tv[j] {
                same = false;
            }
            j = j + 1;
        }
        if same {
            assert(s@.subrange(i as int, i + m) =~= t@);
            return true;
        }
        proof {
            let k0 = choose|k: int| 0 <= k < m && s@[i + k] != t@[k];
            assert(s@.subrange(i as int, i + m)[k0] != t@[k0]);
        }
        i = i + 1;
    }
    proof {
        assert forall|k: int| 0 <= k && k + t@.len() <= s@.len() implies #[trigger] s@.subrange(k, k + t@.len()) != t@ by {
            assert(k < i);
        }
    }
    false
}

/// Whether a user agent is a command-line client rather than a browser.
pub fn is_terminal(user_agent: &str) -> (r: bool)
    ensures
        r == terminal_agent(user_agent@),
{
    let ua = lower_chars(user_agent);
    has_piece_in(&ua, "curl") || has_piece_in(&ua, "wget") || has_piece_in(&ua, "httpie") || has_piece_in(
        &ua,
        "fetch",
    ) || has_piece_in(&ua, "powershell") || user_agent.unicode_len() == 0
}

/// The landing page for browsers.
pub fn html_home() -> (s: String)
    ensures
        s@ == HTML_HOME@,
{
    String::from_str(HTML_HOME)
}

/// Status, content type and body for a GET of `path` by user agent `user_agent`:
/// "/" gives a line of text to terminals and the landing page to browsers; the
/// favicon paths give the bell as SVG; "/healthz" gives `{"ok":true}`; anything
/// else is a 404.
pub fn route(path: &str, user_agent: &str) -> (r: (u16, &'static str, String))
    ensures
        (r.0, r.1@, r.2@) == route_spec(path@, user_agent@),
{
    if same_text(path, "/") {
        if is_terminal(user_agent) {
            (200, "text/plain; charset=utf-8", String::from_str(TEXT_HOME))
        } else {
            (200, "text/html; charset=utf-8", html_home())
        }
    } else if same_text(path, "/favicon.svg") || same_text(path, "/favicon.ico") {
        (200, "image/svg+xml; charset=utf-8", String::from_str(FAVICON))
    } else if same_text(path, "/healthz") {
        (200, "application/json; charset=utf-8", String::from_str("{\"ok\":true}"))
    } else {
        (404, "text/plain; charset=utf-8", String::from_str("此路無廟\n"))
    }
}

/// The reason phrase for the statuses this server sends.
pub open spec fn reason_spec(status: u16) -> Seq<char> {
    if status == 200 {
        "OK"@
    } else if status == 404 {
        "Not Found"@
    } else if status == 405 {
        "Method Not Allowed"@
    } else {
        "OK"@
    }
}

pub fn reason(status: u16) -> (r: &'static str)
    ensures
        r@ == reason_spec(status),
{
    if status == 200 {
        "OK"
    } else if status == 404 {
        "Not Found"
    } else if status == 405 {
        "Method Not Allowed"
    } else {
        "OK"
    }
}


/// Index of the first white-space character in `s`, or its length.
pub open spec fn find_space(s: Seq<char>) -> int
    decreases s.len(),
{
    if s.len() == 0 || is_space(s[0]) {
        0
    } else {
        1 + find_space(s.drop_first())
    }
}

proof fn lemma_find_space(s: Seq<char>, k: int)
    requires
        0 <= k <= s.len(),
        forall|j: int| 0 <= j < k ==> !is_space(s[j]),
        k < s.len() ==> is_space(s[k]),
    ensures
        find_space(s) == k,
    decreases k,
{
    if k > 0 {
        assert forall|j: int| 0 <= j < k - 1 implies !is_space(s.drop_first()[j]) by {
            assert(s.drop_first()[j] == s[j + 1]);
        }
        lemma_find_space(s.drop_first(), k - 1);
    }
}

/// The white-space separated words of `s` (std's `split_whitespace`).
pub open spec fn words(s: Seq<char>) -> Seq<Seq<char>>
    decreases s.len(),
{
    if s.len() == 0 {
        Seq::empty()
    } else if is_space(s[0]) {
        words(s.drop_first())
    } else {
        let k = find_space(s);
        if k <= 0 || k > s.len() {
            seq![s]
        } else {
            seq![s.take(k)] + words(s.skip(k))
        }
    }
}

/// The method and the path (the target up to any '?') of an HTTP request line.
pub open spec fn request_line_spec(line: Seq<char>) -> Option<(Seq<char>, Seq<char>)> {
    let w = words(line);
    if w.len() >= 2 {
        let target = w[1];
        Some((w[0], target.take(find_char(target, '?'))))
    } else {
        None
    }
}

/// The trimmed value of a "User-Agent:" header line (the name in any case).
pub open spec fn agent_header(line: Seq<char>) -> Option<Seq<char>> {
    let p = find_char(line, ':');
    if p < line.len() && lowered(line.take(p)) == "user-agent"@ {
        Some(trimmed(line.skip(p + 1)))
    } else {
        None
    }
}

/// The first User-Agent header among `lines`, if any.
pub open spec fn first_agent(lines: Seq<Seq<char>>) -> Option<Seq<char>>
    decreases lines.len(),
{
    if lines.len() == 0 {
        None
    } else if agent_header(lines[0]) is Some {
        agent_header(lines[0])
    } else {
        first_agent(lines.drop_first())
    }
}

/// The head and the body sent back for `request`, or nothing (the connection is
/// just closed) when it has no request line. Methods other than GET and HEAD get
/// a 405; HEAD gets the head alone.
pub open spec fn reply_spec(request: Seq<char>) -> Option<(Seq<char>, Seq<char>)> {
    let lines = split_lines(request);
    if lines.len() == 0 || request_line_spec(lines[0]) is None {
        None
    } else {
        let (method, path) = request_line_spec(lines[0])->0;
        let ua = match first_agent(lines.drop_first()) {
            Some(v) => v,
            None => Seq::empty(),
        };
        let (status, ctype, body) = if method != "GET"@ && method != "HEAD"@ {
            (405u16, "text/plain; charset=utf-8"@, "小鐘寺只受 GET 之禮\n"@)
        } else {
            route_spec(path, ua)
        };
        let head = "HTTP/1.1 "@ + decimal(status as nat) + " "@ + reason_spec(status) + "\r\ncontent-type: "@
            + ctype + "\r\ncontent-length: "@ + decimal((encode_utf8(body).len() as usize) as nat)
            + "\r\ncache-control: no-store\r\nconnection: close\r\n\r\n"@;
        Some((head, if method != "HEAD"@ { body } else { Seq::empty() }))
    }
}

/// The white-space separated words of `s`.
fn words_of(s: &Vec<char>) -> (w: Vec<Vec<char>>)
    ensures
        w@.map_values(|l: Vec<char>| l@) == words(s@),
{
    let n = s.len();
    let mut w: Vec<Vec<char>> = Vec::new();
    let mut pos: usize = 0;
    assert(s@.skip(0) =~= s@);
    while pos < n
        invariant
            n == s@.len(),
            0 <= pos <= n,
            w@.map_values(|l: Vec<char>| l@) + words(s@.skip(pos as int)) == words(s@),
        decreases n - pos,
    {
        let ghost rest = s@.skip(pos as int);
        if crate::text::char_is_space(s[pos]) {
            assert(rest.drop_first() =~= s@.skip(pos as int + 1));
            pos = pos + 1;
        } else {
            let mut k = pos;
            let mut word: Vec<char> = Vec::new();
            while k < n && !crate::text::char_is_space(s[k])
                invariant
                    pos <= k <= n,
                    n == s@.len(),
                    forall|j: int| pos <= j < k ==> !is_space(s@[j]),
                    word@ == s@.subrange(pos as int, k as int),
                decreases n - k,
            {
                word.push(s[k]);
                assert(s@.subrange(pos as int, k as int + 1) =~= s@.subrange(pos as int, k as int).push(s@[k as int]));
                k = k + 1;
            }
            proof {
                assert forall|j: int| 0 <= j < k - pos implies !is_space(rest[j]) by {
                    assert(rest[j] == s@[pos + j]);
                }
                if k < n {
                    assert(rest[k - pos] == s@[k as int]);
                }
                lemma_find_space(rest, (k - pos) as int);
            }
            let ghost before = w@.map_values(|l: Vec<char>| l@);
            let ghost wv = word@;
            w.push(word);
            proof {
                assert(rest[0] == s@[pos as int]);
                assert(rest.take((k - pos) as int) =~= s@.subrange(pos as int, k as int));
                assert(w@.map_values(|l: Vec<char>| l@) =~= before.push(rest.take((k - pos) as int)));
                if k >= n {
                    assert(rest.take((k - pos) as int) =~= rest);
                    assert(s@.skip(k as int) =~= Seq::<char>::empty());
                    assert(rest.skip(rest.len() as int) =~= Seq::<char>::empty());
                } else {
                    assert(rest.skip((k - pos) as int) =~= s@.skip(k as int));
                }
                assert(w@.map_values(|l: Vec<char>| l@) + words(s@.skip(k as int)) =~= before + words(rest));
            }
            pos = k;
        }
    }
    assert(s@.skip(n as int) =~= Seq::<char>::empty());
    assert(w@.map_values(|l: Vec<char>| l@) =~= w@.map_values(|l: Vec<char>| l@) + words(s@.skip(n as int)));
    w
}

/// The method and the path (the target up to any '?') of an HTTP request line,
/// or nothing when the line has fewer than two words.
pub fn parse_request_line(line: &str) -> (r: Option<(String, String)>)
    ensures
        r is None <==> request_line_spec(line@) is None,
        r matches Some((m, p)) ==> (m@, p@) == request_line_spec(line@)->0,
{
    let chars = chars_of(line);
    parse_request_chars(&chars)
}

fn parse_request_chars(chars: &Vec<char>) -> (r: Option<(String, String)>)
    ensures
        r is None <==> request_line_spec(chars@) is None,
        r matches Some((m, p)) ==> (m@, p@) == request_line_spec(chars@)->0,
{
    let w = words_of(chars);
    if w.len() < 2 {
        return None;
    }
    assert(w@[0]@ == words(chars@)[0]);
    assert(w@[1]@ == words(chars@)[1]);
    let method = text_of(&w[0], 0, w[0].len());
    let q = find_from(&w[1], 0, '?');
    let path = text_of(&w[1], 0, q);
    proof {
        assert(w@[0]@.subrange(0, w@[0]@.len() as int) =~= w@[0]@);
        assert(w@[1]@.skip(0) =~= w@[1]@);
        assert(w@[1]@.subrange(0, q as int) =~= w@[1]@.take(q as int));
    }
    Some((method, path))
}

/// The trimmed value when `line` is a User-Agent header.
fn agent_of(line: &Vec<char>) -> (r: Option<String>)
    ensures
        r is None <==> agent_header(line@) is None,
        r matches Some(v) ==> v@ == agent_header(line@)->0,
{
    let p = find_from(line, 0, ':');
    assert(line@.skip(0) =~= line@);
    if p >= line.len() {
        return None;
    }
    let name = "user-agent";
    let want = chars_of(name);
    if p != want.len() {
        proof {
            assert(lowered(line@.take(p as int)).len() == p);
            reveal_strlit("user-agent");
        }
        return None;
    }
    let mut i: usize = 0;
    while i < p
        invariant
            p < line@.len(),
            p == find_char(line@, ':'),
            p == want@.len(),
            want@ == "user-agent"@,
            0 <= i <= p,
            forall|j: int| 0 <= j < i ==> ascii_lower(line@[j]) == want@[j],
        decreases p - i,
    {
        let c = line[i];
        let l = if 'A' <= c && c <= 'Z' { ((c as u32 + 32) as u8) as char } else { c };
        if l != want[i] {
            proof {
                assert(lowered(line@.take(p as int))[i as int] == ascii_lower(c));
                assert(lowered(line@.take(p as int)) != "user-agent"@);
            }
            return None;
        }
        i = i + 1;
    }
    assert(lowered(line@.take(p as int)) =~= "user-agent"@);
    let value = text_of(line, p + 1, line.len());
    let t = crate::text::trim(value.as_str());
    assert(line@.skip(p + 1) =~= line@.subrange(p + 1, line@.len() as int));
    Some(String::from_str(t))
}

/// The first User-Agent header among the lines from `from` on.
fn find_agent(lines: &Vec<Vec<char>>, from: usize) -> (r: Option<String>)
    requires
        from <= lines@.len(),
    ensures
        r is None <==> first_agent(lines@.map_values(|l: Vec<char>| l@).skip(from as int)) is None,
        r matches Some(v) ==> v@ == first_agent(lines@.map_values(|l: Vec<char>| l@).skip(from as int))->0,
    decreases lines@.len() - from,
{
    let ghost views = lines@.map_values(|l: Vec<char>| l@);
    if from >= lines.len() {
        assert(views.skip(from as int) =~= Seq::<Seq<char>>::empty());
        return None;
    }
    assert(views.skip(from as int)[0] == lines@[from as int]@);
    assert(views.skip(from as int).drop_first() =~= views.skip(from as int + 1));
    match agent_of(&lines[from]) {
        Some(v) => Some(v),
        None => find_agent(lines, from + 1),
    }
}

/// The head and the body to send back for `request` (see `reply_spec`), or
/// nothing when it holds no request line.
pub fn reply(request: &str) -> (r: Option<(String, String)>)
    ensures
        r is None <==> reply_spec(request@) is None,
        r matches Some((h, b)) ==> (h@, b@) == reply_spec(request@)->0,
{
    let chars = chars_of(request);
    let lines = lines_of(&chars);
    let ghost views = lines@.map_values(|l: Vec<char>| l@);
    if lines.len() == 0 {
        return None;
    }
    assert(views[0] == lines@[0]@);
    let (method, path) = match parse_request_chars(&lines[0]) {
        Some(mp) => mp,
        None => {
            return None;
        },
    };
    let agent = find_agent(&lines, 1);
    assert(views.skip(1) =~= views.drop_first());
    let ua = match agent {
        Some(v) => v,
        None => String::new(),
    };
    let is_get = same_text(method.as_str(), "GET");
    let is_head = same_text(method.as_str(), "HEAD");
    let (status, ctype, body) = if !is_get && !is_head {
        (405u16, "text/plain; charset=utf-8", String::from_str("小鐘寺只受 GET 之禮\n"))
    } else {
        route(path.as_str(), ua.as_str())
    };
    let mut head = String::from_str("HTTP/1.1 ");
    push_decimal(&mut head, status as u64);
    head.append(" ");
    head.append(reason(status));
    head.append("\r\ncontent-type: ");
    head.append(ctype);
    head.append("\r\ncontent-length: ");
    let len = body.as_str().len();
    push_decimal(&mut head, len as u64);
    head.append("\r\ncache-control: no-store\r\nconnection: close\r\n\r\n");
    let sent = if !is_head { body } else { String::new() };
    Some((head, sent))
}

/// Whatever the user agent, the favicon answers alike at "/favicon.svg" and at
/// "/favicon.ico": 200, an SVG, the bell.
pub proof fn lemma_favicon_served(ua: Seq<char>)
    ensures
        route_spec("/favicon.svg"@, ua) == (200u16, "image/svg+xml; charset=utf-8"@, FAVICON@),
        route_spec("/favicon.ico"@, ua) == (200u16, "image/svg+xml; charset=utf-8"@, FAVICON@),
{
    reveal_strlit("/");
    reveal_strlit("/favicon.svg");
    reveal_strlit("/favicon.ico");
    assert("/favicon.svg"@.len() == 12 && "/"@.len() == 1);
    assert("/favicon.ico"@.len() == 12);
    assert("/favicon.svg"@ != "/"@);
    assert("/favicon.ico"@ != "/"@);
}

} // verus!
