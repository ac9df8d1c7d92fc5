//! The development server's decisions and texts: which path a request asks
//! for, which file serves it, its content type, the response headers, the
//! live-reload injection, and the files a new project starts from.
//!
//! Sockets, files and processes are the caller's; these functions take and
//! give plain text.

use vstd::prelude::*;
use crate::text::{
    chars_of, decimal, pieces, push_char, push_decimal, split_pieces, string_after,
    string_from_chars, Separator,
};

verus! {

/// `s` with every non-overlapping occurrence of `pat`, from the left,
/// replaced by `rep` (`str::replace`). An empty pattern occurs before each
/// character and at the end, so `rep` goes in at each of those places.
pub open spec fn replace_all(s: Seq<char>, pat: Seq<char>, rep: Seq<char>) -> Seq<char>
    decreases s.len(),
{
    if pat.len() == 0 {
        if s.len() == 0 {
            rep
        } else {
            rep + (seq![s[0]] + replace_all(s.drop_first(), pat, rep))
        }
    } else if s.len() == 0 {
        seq![]
    } else if 0 < pat.len() <= s.len() && s.take(pat.len() as int) == pat {
        rep + replace_all(s.skip(pat.len() as int), pat, rep)
    } else {
        seq![s[0]] + replace_all(s.drop_first(), pat, rep)
    }
}

/// Whether `pat` occurs in `chars` at position `i`.
fn occurs_at(chars: &Vec<char>, i: usize, pat: &Vec<char>) -> (r: bool)
    requires
        i <= chars.len(),
    ensures
        r == (pat.len() <= chars.len() - i && chars@.subrange(i as int, i + pat.len()) == pat@),
{
    if pat.len() > chars.len() - i {
        return false;
    }
    let mut k: usize = 0;
    while k < pat.len()
        invariant
            i + pat.len() <= chars.len(),
            k <= pat.len(),
            chars@.subrange(i as int, i + k) == pat@.take(k as int),
        decreases pat.len() - k,
    {
        if chars[i + k] != pat[k] {
            assert(chars@.subrange(i as int, i + pat.len())[k as int] != pat@[k as int]);
            return false;
        }
        assert(chars@.subrange(i as int, i + k + 1) =~= chars@.subrange(i as int, i + k).push(chars@[i + k]));
        assert(pat@.take(k + 1) =~= pat@.take(k as int).push(pat@[k as int]));
        k = k + 1;
    }
    assert(pat@.take(pat.len() as int) =~= pat@);
    true
}

/// `s` with every occurrence of `pat` replaced by `rep`, scanning from the
/// left (`str::replace`).
pub fn replace_text(s: &str, pat: &str, rep: &str) -> (r: String)
    ensures
        r@ == replace_all(s@, pat@, rep@),
{
    let chars = chars_of(s);
    let pc = chars_of(pat);
    let mut out = String::new();
    let mut i: usize = 0;
    assert(chars@.skip(0) =~= chars@);
    assert(out@ + replace_all(chars@, pc@, rep@) =~= replace_all(chars@, pc@, rep@));
    if pc.len() == 0 {
        while i < chars.len()
            invariant
                chars@ == s@,
                pc@ == pat@,
                pat@.len() == 0,
                i <= chars.len(),
                out@ + replace_all(chars@.skip(i as int), pc@, rep@) == replace_all(s@, pat@, rep@),
            decreases chars.len() - i,
        {
            let ghost rest = chars@.skip(i as int);
            let ghost before = out@;
            assert(rest.drop_first() =~= chars@.skip(i + 1));
            assert(rest[0] == chars@[i as int]);
            out.append(rep);
            push_char(&mut out, chars[i]);
            i = i + 1;
            assert(out@ + replace_all(chars@.skip(i as int), pc@, rep@) =~= before + (rep@ + (seq![
                rest[0]] + replace_all(chars@.skip(i as int), pc@, rep@))));
        }
        assert(chars@.skip(chars.len() as int) =~= Seq::<char>::empty());
        out.append(rep);
        return out;
    }
    while i < chars.len()
        invariant
            chars@ == s@,
            pc@ == pat@,
            pat@.len() > 0,
            i <= chars.len(),
            out@ + replace_all(chars@.skip(i as int), pc@, rep@) == replace_all(s@, pat@, rep@),
        decreases chars.len() - i,
    {
        let ghost rest = chars@.skip(i as int);
        let ghost before = out@;
        if occurs_at(&chars, i, &pc) {
            assert(rest.take(pc.len() as int) =~= chars@.subrange(i as int, i + pc.len()));
            assert(rest.skip(pc.len() as int) =~= chars@.skip(i + pc.len()));
            out.append(rep);
            i = i + pc.len();
            assert(out@ + replace_all(chars@.skip(i as int), pc@, rep@) =~= before + (rep@
                + replace_all(chars@.skip(i as int), pc@, rep@)));
        } else {
            proof {
                if 0 < pc@.len() <= rest.len() {
                    assert(rest.take(pc.len() as int) =~= chars@.subrange(i as int, i + pc.len()));
                }
            }
            assert(rest.drop_first() =~= chars@.skip(i + 1));
            assert(rest[0] == chars@[i as int]);
            push_char(&mut out, chars[i]);
            i = i + 1;
            assert(out@ + replace_all(chars@.skip(i as int), pc@, rep@) =~= before + (seq![rest[0]]
                + replace_all(chars@.skip(i as int), pc@, rep@)));
        }
    }
    assert(chars@.skip(chars.len() as int) =~= Seq::<char>::empty());
    assert(out@ + Seq::<char>::empty() =~= out@);
    out
}

/// The text of `s` before its first line feed.
pub open spec fn first_line(s: Seq<char>) -> Seq<char>
    decreases s.len(),
{
    if s.len() == 0 || s[0] == '\n' {
        seq![]
    } else {
        seq![s[0]] + first_line(s.drop_first())
    }
}

proof fn lemma_first_line(s: Seq<char>, k: int)
    requires
        0 <= k <= s.len(),
        forall|j: int| 0 <= j < k ==> s[j] != '\n',
        k == s.len() || s[k] == '\n',
    ensures
        first_line(s) == s.take(k),
    decreases k,
{
    if k > 0 {
        let t = s.drop_first();
        assert forall|j: int| 0 <= j < k - 1 implies t[j] != '\n' by {
            assert(t[j] == s[j + 1]);
        }
        if k < s.len() {
            assert(t[k - 1] == s[k]);
        }
        lemma_first_line(t, k - 1);
        assert(seq![s[0]] + t.take(k - 1) =~= s.take(k));
    } else {
        assert(s.take(0) =~= Seq::<char>::empty());
    }
}

/// The path that an HTTP request asks for: the second word of its first
/// line, or `/` when there is none.
pub open spec fn requested_path(request: Seq<char>) -> Seq<char> {
    let words = pieces(first_line(request), Separator::Space);
    if words.len() >= 2 { words[1] } else { seq!['/'] }
}

/// The path that the HTTP request `request` asks for (`"GET /app.js
/// HTTP/1.1"` gives `"/app.js"`), or `"/"` when its first line has no
/// second word.
pub fn request_path(request: &str) -> (r: String)
    ensures
        r@ == requested_path(request@),
{
    let chars = chars_of(request);
    let mut line: Vec<char> = Vec::new();
    let mut i: usize = 0;
    while i < chars.len() && chars[i] != '\n'
        invariant
            chars@ == request@,
            i <= chars.len(),
            line@ == chars@.take(i as int),
            forall|j: int| 0 <= j < i ==> chars@[j] != '\n',
        decreases chars.len() - i,
    {
        line.push(chars[i]);
        assert(chars@.take(i + 1) =~= chars@.take(i as int).push(chars@[i as int]));
        i = i + 1;
    }
    proof {
        lemma_first_line(request@, i as int);
    }
    let words = split_pieces(&line, Separator::Space);
    if words.len() >= 2 {
        assert(words@[1]@ == words@.map_values(|v: Vec<char>| v@)[1]);
        string_from_chars(&words[1])
    } else {
        let mut root = String::new();
        push_char(&mut root, '/');
        assert(root@ =~= seq!['/']);
        root
    }
}

/// `s` without its leading `/` characters.
pub open spec fn strip_slashes(s: Seq<char>) -> Seq<char>
    decreases s.len(),
{
    if s.len() > 0 && s[0] == '/' {
        strip_slashes(s.drop_first())
    } else {
        s
    }
}

proof fn lemma_strip_slashes(s: Seq<char>, k: int)
    requires
        0 <= k <= s.len(),
        forall|j: int| 0 <= j < k ==> s[j] == '/',
        k == s.len() || s[k] != '/',
    ensures
        strip_slashes(s) == s.skip(k),
    decreases k,
{
    if k > 0 {
        let t = s.drop_first();
        assert forall|j: int| 0 <= j < k - 1 implies t[j] == '/' by {
            assert(t[j] == s[j + 1]);
        }
        if k < s.len() {
            assert(t[k - 1] == s[k]);
        }
        lemma_strip_slashes(t, k - 1);
        assert(t.skip(k - 1) =~= s.skip(k));
    } else {
        assert(s.skip(0) =~= s);
    }
}

/// The file that serves request path `path`: `index.html` for `/`, else
/// the path without its leading slashes.
pub open spec fn served_file(path: Seq<char>) -> Seq<char> {
    if path == seq!['/'] { "index.html"@ } else { strip_slashes(path) }
}

/// The file that serves request path `path`.
pub fn file_path(path: &str) -> (r: String)
    ensures
        r@ == served_file(path@),
{
    let chars = chars_of(path);
    if chars.len() == 1 && chars[0] == '/' {
        assert(path@ =~= seq!['/']);
        return String::from_str("index.html");
    }
    let mut k: usize = 0;
    while k < chars.len() && chars[k] == '/'
        invariant
            chars@ == path@,
            k <= chars.len(),
            forall|j: int| 0 <= j < k ==> chars@[j] == '/',
        decreases chars.len() - k,
    {
        k = k + 1;
    }
    proof {
        lemma_strip_slashes(path@, k as int);
    }
    string_after(&chars, k)
}

/// The text after the last `.` of `s`, or all of `s` when it has none.
pub open spec fn last_dot_piece(s: Seq<char>) -> Seq<char>
    decreases s.len(),
{
    if s.len() == 0 {
        s
    } else if s.last() == '.' {
        seq![]
    } else {
        last_dot_piece(s.drop_last()).push(s.last())
    }
}

proof fn lemma_last_dot_piece(s: Seq<char>, k: int)
    requires
        0 <= k <= s.len(),
        forall|j: int| k <= j < s.len() ==> s[j] != '.',
        k == 0 || s[k - 1] == '.',
    ensures
        last_dot_piece(s) == s.skip(k),
    decreases s.len() - k,
{
    if s.len() == k {
        if k > 0 {
            assert(s.skip(k) =~= Seq::<char>::empty());
        } else {
            assert(s =~= Seq::<char>::empty());
        }
    } else {
        let t = s.drop_last();
        assert forall|j: int| k <= j < t.len() implies t[j] != '.' by {
            assert(t[j] == s[j]);
        }
        if k > 0 {
            assert(t[k - 1] == s[k - 1]);
        }
        lemma_last_dot_piece(t, k);
        assert(t.skip(k).push(s.last()) =~= s.skip(k));
    }
}

/// The content type for a file extension.
pub open spec fn mime_for_extension(ext: Seq<char>) -> Seq<char> {
    if ext == "html"@ {
        "text/html"@
    } else if ext == "js"@ {
        "application/javascript"@
    } else if ext == "wasm"@ {
        "application/wasm"@
    } else if ext == "css"@ {
        "text/css"@
    } else if ext == "json"@ {
        "application/json"@
    } else if ext == "png"@ {
        "image/png"@
    } else if ext == "svg"@ {
        "image/svg+xml"@
    } else if ext == "ico"@ {
        "image/x-icon"@
    } else {
        "application/octet-stream"@
    }
}

/// The content type of the file at `path`, by the text after its last `.`.
pub fn guess_mime(path: &str) -> (r: &'static str)
    ensures
        r@ == mime_for_extension(last_dot_piece(path@)),
{
    let chars = chars_of(path);
    let mut k: usize = chars.len();
    while k > 0 && chars[k - 1] != '.'
        invariant
            chars@ == path@,
            k <= chars.len(),
            forall|j: int| k <= j < chars.len() ==> chars@[j] != '.',
        decreases k,
    {
        k = k - 1;
    }
    proof {
        lemma_last_dot_piece(path@, k as int);
    }
    let ext = string_after(&chars, k);
    if ext == String::from_str("html") {
        "text/html"
    } else if ext == String::from_str("js") {
        "application/javascript"
    } else if ext == String::from_str("wasm") {
        "application/wasm"
    } else if ext == String::from_str("css") {
        "text/css"
    } else if ext == String::from_str("json") {
        "application/json"
    } else if ext == String::from_str("png") {
        "image/png"
    } else if ext == String::from_str("svg") {
        "image/svg+xml"
    } else if ext == String::from_str("ico") {
        "image/x-icon"
    } else {
        "application/octet-stream"
    }
}

/// Whether request path `path` is the live-reload poll, which is answered
/// with the build version rather than a file.
pub fn is_reload_poll(path: &str) -> (r: bool)
    ensures
        r == (path@ == "/__oxide_reload"@),
{
    String::from_str(path) == String::from_str("/__oxide_reload")
}

/// The answer to the live-reload poll: the build version as plain text.
pub open spec fn reload_reply(version: nat) -> Seq<char> {
    "HTTP/1.1 200 OK\r\nContent-Type: text/plain\r\nAccess-Control-Allow-Origin: *\r\nContent-Length: "@
        + decimal(decimal(version).len()) + "\r\n\r\n"@ + decimal(version)
}

/// The full response to the live-reload poll when the build version is
/// `version`.
pub fn reload_response(version: u64) -> (r: String)
    ensures
        r@ == reload_reply(version as nat),
{
    let mut body = String::new();
    push_decimal(&mut body, version);
    let n = body.as_str().unicode_len();
    let mut r = String::from_str(
        "HTTP/1.1 200 OK\r\nContent-Type: text/plain\r\nAccess-Control-Allow-Origin: *\r\nContent-Length: ",
    );
    push_decimal(&mut r, n as u64);
    r.append("\r\n\r\n");
    r.append(body.as_str());
    assert(r@ =~= reload_reply(version as nat));
    r
}

/// The header of a response carrying a file of `length` bytes of content
/// type `mime`.
pub open spec fn file_reply_head(mime: Seq<char>, length: nat) -> Seq<char> {
    "HTTP/1.1 200 OK\r\nContent-Type: "@ + mime + "\r\nContent-Length: "@ + decimal(length)
        + "\r\nCache-Control: no-cache\r\n\r\n"@
}

/// The header of the response that carries a file of `length` bytes with
/// content type `mime`.
pub fn file_response_head(mime: &str, length: u64) -> (r: String)
    ensures
        r@ == file_reply_head(mime@, length as nat),
{
    let mut r = String::from_str("HTTP/1.1 200 OK\r\nContent-Type: ");
    r.append(mime);
    r.append("\r\nContent-Length: ");
    push_decimal(&mut r, length);
    r.append("\r\nCache-Control: no-cache\r\n\r\n");
    assert(r@ =~= file_reply_head(mime@, length as nat));
    r
}

/// The answer when the requested file cannot be read.
pub open spec fn not_found_reply() -> Seq<char> {
    "HTTP/1.1 404 Not Found\r\nContent-Type: text/plain\r\nContent-Length: "@ + decimal(
        "404 Not Found"@.len(),
    ) + "\r\n\r\n"@ + "404 Not Found"@
}

/// The full response when the requested file cannot be read.
pub fn not_found_response() -> (r: String)
    ensures
        r@ == not_found_reply(),
{
    let body = "404 Not Found";
    let n = body.unicode_len();
    let mut r = String::from_str(
        "HTTP/1.1 404 Not Found\r\nContent-Type: text/plain\r\nContent-Length: ",
    );
    push_decimal(&mut r, n as u64);
    r.append("\r\n\r\n");
    r.append(body);
    assert(r@ =~= not_found_reply());
    r
}

/// Whether a served file gets the live-reload script: HTML files, while a
/// development build (version above zero) is being served.
pub fn injects_reload(mime: &str, version: u64) -> (r: bool)
    ensures
        r == (mime@ == "text/html"@ && version > 0),
{
    String::from_str(mime) == String::from_str("text/html") && version > 0
}

/// `html` with `script` put in front of each `</body>`.
pub fn inject_reload(html: &str, script: &str) -> (r: String)
    ensures
        r@ == replace_all(html@, "</body>"@, script@ + "</body>"@),
{
    let mut rep = String::from_str(script);
    rep.append("</body>");
    proof {
        reveal_strlit("</body>");
    }
    replace_text(html, "</body>", rep.as_str())
}

/// The crate name of a project: its name with each `-` made `_`.
pub open spec fn crate_name_of(name: Seq<char>) -> Seq<char> {
    name.map_values(|c: char| if c == '-' { '_' } else { c })
}

/// The crate name of project `name`.
pub fn crate_name(name: &str) -> (r: String)
    ensures
        r@ == crate_name_of(name@),
{
    let chars = chars_of(name);
    let mut r = String::new();
    let mut i: usize = 0;
    while i < chars.len()
        invariant
            chars@ == name@,
            i <= chars.len(),
            r@ == crate_name_of(name@.take(i as int)),
        decreases chars.len() - i,
    {
        let c = chars[i];
        push_char(&mut r, if c == '-' { '_' } else { c });
        assert(name@.take(i + 1) =~= name@.take(i as int).push(c));
        assert(r@ =~= crate_name_of(name@.take(i + 1)));
        i = i + 1;
    }
    assert(name@.take(chars.len() as int) =~= name@);
    r
}

/// A crate name never holds a `-`.
pub proof fn law_crate_name_has_no_hyphen(name: Seq<char>)
    ensures
        forall|i: int| 0 <= i < crate_name_of(name).len() ==> crate_name_of(name)[i] != '-',
        crate_name_of(name).len() == name.len(),
{
}

/// Text in which the pattern does not occur is left as it is.
pub proof fn law_replace_without_occurrence(s: Seq<char>, pat: Seq<char>, rep: Seq<char>)
    requires
        pat.len() > 0,
        forall|i: int| 0 <= i && i + pat.len() <= s.len() ==> #[trigger] s.subrange(i, i + pat.len()) != pat,
    ensures
        replace_all(s, pat, rep) == s,
    decreases s.len(),
{
    if s.len() > 0 {
        let t = s.drop_first();
        assert forall|i: int| 0 <= i && i + pat.len() <= t.len() implies #[trigger] t.subrange(i, i + pat.len()) != pat by {
            assert(t.subrange(i, i + pat.len()) =~= s.subrange(i + 1, i + 1 + pat.len()));
        }
        law_replace_without_occurrence(t, pat, rep);
        if pat.len() <= s.len() {
            assert(s.subrange(0, 0int + pat.len()) != pat);
            assert(s.take(pat.len() as int) =~= s.subrange(0, 0int + pat.len()));
        }
        assert(seq![s[0]] + t =~= s);
    } else {
        assert(s =~= Seq::<char>::empty());
    }
}

/// The manifest of new project `name`: `template` with `{{name}}` filled in.
pub fn project_manifest(template: &str, name: &str) -> (r: String)
    ensures
        r@ == replace_all(template@, "{{name}}"@, name@),
{
    proof {
        reveal_strlit("{{name}}");
    }
    replace_text(template, "{{name}}", name)
}

/// The page of new project `name`: `template` with `{{name}}` filled in,
/// then `{{crate_name}}` filled in with the crate name.
pub fn project_page(template: &str, name: &str) -> (r: String)
    ensures
        r@ == replace_all(
            replace_all(template@, "{{name}}"@, name@),
            "{{crate_name}}"@,
            crate_name_of(name@),
        ),
{
    proof {
        reveal_strlit("{{name}}");
        reveal_strlit("{{crate_name}}");
    }
    let named = replace_text(template, "{{name}}", name);
    let krate = crate_name(name);
    replace_text(named.as_str(), "{{crate_name}}", krate.as_str())
}

/// The arguments of the `wasm-pack` build: a development build with debug
/// information when `dev`, else a release build.
pub fn build_args(dev: bool) -> (r: Vec<&'static str>)
    ensures
        r@.len() == 4,
        r@[0]@ == "build"@,
        r@[1]@ == "--target"@,
        r@[2]@ == "web"@,
        r@[3]@ == (if dev { "--dev"@ } else { "--release"@ }),
{
    let mut args: Vec<&'static str> = Vec::new();
    args.push("build");
    args.push("--target");
    args.push("web");
    if dev {
        args.push("--dev");
    } else {
        args.push("--release");
    }
    args
}

/// A size in bytes as whole kilobytes, rounded down.
pub fn kilobytes(bytes: u64) -> (r: u64)
    ensures
        r == bytes / 1024,
{
    bytes / 1024
}

} // verus!
