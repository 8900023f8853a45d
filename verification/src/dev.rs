//! What the development server decides: which file a request names, and what
//! type of content it is. Reading the files and serving them is the server's.
use vstd::prelude::*;

use crate::frontmatter::strs_view;
use crate::render::{esc, esc_spec, fill, fill_ok, fill_spec, holes_named, holes_view, names_of};
use crate::text::{chars_of, find, find_char, find_char_spec, find_pat, is_whitespace, lemma_find_char_bounds, lemma_find_pat_bounds, push_range, push_str, str_eq, whitespace};

verus! {

/// The script a development page runs to reload itself when the site is
/// rebuilt.
pub open spec fn reload_script() -> Seq<char> {
    "(function(){try{new EventSource('/__livereload').onmessage=function(){location.reload()}}catch(e){}})();"@
}

/// The same script, to write into a page.
pub fn live_reload() -> (r: String)
    ensures
        r@ == reload_script(),
{
    "(function(){try{new EventSource('/__livereload').onmessage=function(){location.reload()}}catch(e){}})();".to_owned()
}

/// What a request path names under the output directory, as a path relative
/// to it.
#[derive(Debug, PartialEq, Eq)]
pub enum Resolved {
    File(String),
    Redirect(String),
    NotFound,
}

pub enum ResolvedSpec {
    File(Seq<char>),
    Redirect(Seq<char>),
    NotFound,
}

pub open spec fn resolved_view(r: Resolved) -> ResolvedSpec {
    match r {
        Resolved::File(f) => ResolvedSpec::File(f@),
        Resolved::Redirect(l) => ResolvedSpec::Redirect(l@),
        Resolved::NotFound => ResolvedSpec::NotFound,
    }
}

pub open spec fn listed(paths: Seq<String>, p: Seq<char>) -> bool {
    exists|k: int| 0 <= k < paths.len() && (#[trigger] paths[k])@ == p
}

/// The end of a run of `/` from `j`.
pub open spec fn slashes_end(s: Seq<char>, j: int, end: int) -> int
    decreases end - j,
{
    if 0 <= j < end && end <= s.len() && s[j] == '/' {
        slashes_end(s, j + 1, end)
    } else {
        j
    }
}

/// `a` and `b` joined by a `/`, where both hold something.
pub open spec fn join_path(a: Seq<char>, b: Seq<char>) -> Seq<char> {
    if a.len() == 0 {
        b
    } else if b.len() == 0 {
        a
    } else {
        a + "/"@ + b
    }
}

/// Where the path component that starts at `i` ends: at the next `/`, or the
/// end.
pub open spec fn component_end(s: Seq<char>, i: int) -> int {
    match find_char_spec(s, i, s.len() as int, '/') {
        Some(j) => j,
        None => s.len() as int,
    }
}

/// The components of `s[i..]` that name something, joined by `/`: empty
/// components and `.` are dropped, as the file system reads them.
pub open spec fn norm_from(s: Seq<char>, i: int) -> Seq<char>
    decreases s.len() - i,
{
    if !(0 <= i <= s.len()) {
        seq![]
    } else {
        let j = component_end(s, i);
        let comp = s.subrange(i, j);
        let rest = if i <= j < s.len() { norm_from(s, j + 1) } else { seq![] };
        if comp.len() == 0 || comp == "."@ {
            rest
        } else {
            join_path(comp, rest)
        }
    }
}

/// Which file a request for `url` names, given the files and directories under
/// the output directory (relative paths, the directory itself as `""`).
pub open spec fn resolve_spec(url: Seq<char>, files: Seq<String>, dirs: Seq<String>) -> ResolvedSpec {
    let end = match find_char_spec(url, 0, url.len() as int, '?') {
        Some(k) => k,
        None => url.len() as int,
    };
    let path = url.subrange(0, end);
    if find_pat(path, 0, path.len() as int, ".."@) is Some || path.contains('\\') {
        ResolvedSpec::NotFound
    } else {
        let rel = norm_from(path, 0);
        if path.len() > 0 && path.last() == '/' {
            let index = join_path(rel, "index.html"@);
            if listed(files, index) { ResolvedSpec::File(index) } else { ResolvedSpec::NotFound }
        } else if listed(files, rel) {
            ResolvedSpec::File(rel)
        } else if listed(dirs, rel) {
            ResolvedSpec::Redirect(path + "/"@)
        } else {
            let html = rel + ".html"@;
            if listed(files, html) { ResolvedSpec::File(html) } else { ResolvedSpec::NotFound }
        }
    }
}

fn listed_at(paths: &[String], p: &str) -> (r: bool)
    ensures
        r == listed(paths@, p@),
{
    let mut k: usize = 0;
    while k < paths.len()
        invariant
            k <= paths@.len(),
            forall|j: int| 0 <= j < k ==> (#[trigger] paths@[j])@ != p@,
        decreases paths@.len() - k,
    {
        if str_eq(paths[k].as_str(), p) {
            return true;
        }
        k += 1;
    }
    false
}

/// The components of `u[..end]` that name something, joined by `/`.
fn normalized(u: &[char], end: usize) -> (r: String)
    requires
        end <= u@.len(),
    ensures
        r@ == norm_from(u@.subrange(0, end as int), 0),
{
    let ghost p = u@.subrange(0, end as int);
    let mut out = String::new();
    let mut i: usize = 0;
    proof { reveal_strlit("."); reveal_strlit("/"); }
    loop
        invariant
            i <= end <= u@.len(),
            p == u@.subrange(0, end as int),
            norm_from(p, 0) == join_path(out@, norm_from(p, i as int)),
        decreases end - i,
    {
        proof { lemma_find_char_bounds(u@, i as int, end as int, '/'); lemma_find_char_bounds(p, i as int, end as int, '/'); }
        let j = match find_char(u, i, end, '/') {
            Some(j) => j,
            None => end,
        };
        proof {
            assert(find_char_spec(p, i as int, end as int, '/') == find_char_spec(u@, i as int, end as int, '/')) by {
                lemma_find_char_shift(u@, end as int, i as int, '/');
            }
            assert(p.subrange(i as int, j as int) =~= u@.subrange(i as int, j as int));
        }
        let keep = j > i && !(j == i + 1 && u[i] == '.');
        let ghost before = out@;
        let ghost comp = p.subrange(i as int, j as int);
        let ghost rest = if j < end { norm_from(p, j + 1) } else { Seq::<char>::empty() };
        proof {
            reveal_strlit(".");
            if j == i + 1 && u[i as int] == '.' {
                assert(comp =~= "."@);
            }
            if comp == "."@ {
                assert(comp.len() == 1);
                assert(comp[0] == '.');
            }
        }
        if keep {
            if out.unicode_len() > 0 {
                push_str(&mut out, "/");
            }
            push_range(&mut out, u, i, j);
            proof { lemma_join_assoc(before, comp, rest); }
        }
        if j >= end {
            proof {
                assert(rest == Seq::<char>::empty());
                assert(join_path(out@, Seq::<char>::empty()) == out@);
            }
            return out;
        }
        i = j + 1;
    }
}

proof fn lemma_join_assoc(a: Seq<char>, b: Seq<char>, c: Seq<char>)
    requires
        b.len() > 0,
    ensures
        join_path(a, join_path(b, c)) == join_path(join_path(a, b), c),
{
    reveal_strlit("/");
    if a.len() > 0 && c.len() > 0 {
        assert(a + "/"@ + (b + "/"@ + c) =~= a + "/"@ + b + "/"@ + c);
    }
}

/// Which file a request for `url_path` names. A path that climbs out with `..`
/// names nothing; a directory without its slash redirects to it; and a page may
/// be asked for without its `.html`.
pub fn resolve(url_path: &str, files: &[String], dirs: &[String]) -> (r: Resolved)
    ensures
        resolved_view(r) == resolve_spec(url_path@, files@, dirs@),
{
    let u = chars_of(url_path);
    proof { lemma_find_char_bounds(u@, 0, u@.len() as int, '?'); }
    let end = match find_char(&u, 0, u.len(), '?') {
        Some(k) => k,
        None => u.len(),
    };
    let ghost path = u@.subrange(0, end as int);
    proof {
        reveal_strlit("..");
        lemma_find_pat_bounds(u@, 0, end as int, ".."@);
        lemma_find_char_bounds(u@, 0, end as int, '\\');
    }
    let dots = find(&u, 0, end, "..").is_some();
    let backslash = find_char(&u, 0, end, '\\').is_some();
    proof {
        assert(find_pat(path, 0, path.len() as int, ".."@) == match find_pat(u@, 0, end as int, ".."@) {
            Some(k) => Some(k),
            None => None::<int>,
        }) by {
            lemma_find_pat_shift(u@, end as int, 0, ".."@);
        }
        if backslash {
            let k = find_char_spec(u@, 0, end as int, '\\')->0;
            assert(path[k] == '\\');
        } else {
            if path.contains('\\') {
                let k = choose|k: int| 0 <= k < path.len() && path[k] == '\\';
                assert(u@[k] == '\\');
            }
        }
    }
    if dots || backslash {
        return Resolved::NotFound;
    }
    let rel = normalized(&u, end);
    assert(path =~= u@.subrange(0, end as int));
    if end > 0 && u[end - 1] == '/' {
        let mut index = rel;
        if index.unicode_len() > 0 {
            push_str(&mut index, "/");
        }
        push_str(&mut index, "index.html");
        proof { reveal_strlit("/"); reveal_strlit("index.html"); }
        return if listed_at(files, index.as_str()) { Resolved::File(index) } else { Resolved::NotFound };
    }
    if listed_at(files, rel.as_str()) {
        return Resolved::File(rel);
    }
    if listed_at(dirs, rel.as_str()) {
        let mut loc = String::new();
        push_range(&mut loc, &u, 0, end);
        push_str(&mut loc, "/");
        return Resolved::Redirect(loc);
    }
    let mut html = rel;
    push_str(&mut html, ".html");
    if listed_at(files, html.as_str()) { Resolved::File(html) } else { Resolved::NotFound }
}

/// Finding a character in a prefix is finding it in the whole, up to that end.
proof fn lemma_find_char_shift(s: Seq<char>, end: int, i: int, c: char)
    requires
        0 <= i <= end <= s.len(),
    ensures
        find_char_spec(s.subrange(0, end), i, end, c) == find_char_spec(s, i, end, c),
    decreases end - i,
{
    if i < end {
        lemma_find_char_shift(s, end, i + 1, c);
    }
}

/// Finding a pattern in a prefix is finding it in the whole, up to that end.
proof fn lemma_find_pat_shift(s: Seq<char>, end: int, i: int, pat: Seq<char>)
    requires
        0 <= i <= end <= s.len(),
    ensures
        find_pat(s.subrange(0, end), i, end, pat) == find_pat(s, i, end, pat),
    decreases end - i,
{
    if i < end {
        assert(crate::text::at_pat(s.subrange(0, end), i, end, pat) == crate::text::at_pat(s, i, end, pat)) by {
            if i + pat.len() <= end {
                assert(s.subrange(0, end).subrange(i, i + pat.len()) =~= s.subrange(i, i + pat.len()));
            }
        }
        lemma_find_pat_shift(s, end, i + 1, pat);
    }
}


/// Where the file name of `path` starts: after its last `/`, trailing slashes
/// left out.
pub open spec fn trimmed_end(s: Seq<char>, to: int) -> int
    decreases to,
{
    if 0 < to <= s.len() && s[to - 1] == '/' {
        trimmed_end(s, to - 1)
    } else {
        to
    }
}

/// The last `c` in `s[from..to]`.
pub open spec fn last_of(s: Seq<char>, from: int, to: int, c: char) -> Option<int>
    decreases to - from,
{
    if !(0 <= from < to <= s.len()) {
        None
    } else if s[to - 1] == c {
        Some(to - 1)
    } else {
        last_of(s, from, to - 1, c)
    }
}

/// The extension of the file `path` names, as `Path::extension` reads it: the
/// part of the file name after its last `.`, unless that `.` starts the name.
pub open spec fn extension(path: Seq<char>) -> Seq<char> {
    let end = trimmed_end(path, path.len() as int);
    let start = match last_of(path, 0, end, '/') {
        Some(k) => k + 1,
        None => 0,
    };
    let name = path.subrange(start, end);
    if name == ".."@ || name == "."@ {
        seq![]
    } else {
        match last_of(path, start, end, '.') {
            Some(d) if d > start => path.subrange(d + 1, end),
            _ => seq![],
        }
    }
}

pub open spec fn content_type_spec(ext: Seq<char>) -> Seq<char> {
    if ext == "html"@ {
        "text/html; charset=utf-8"@
    } else if ext == "css"@ {
        "text/css; charset=utf-8"@
    } else if ext == "js"@ {
        "text/javascript; charset=utf-8"@
    } else if ext == "xml"@ {
        "application/xml; charset=utf-8"@
    } else if ext == "svg"@ {
        "image/svg+xml"@
    } else if ext == "png"@ {
        "image/png"@
    } else if ext == "jpg"@ || ext == "jpeg"@ {
        "image/jpeg"@
    } else if ext == "gif"@ {
        "image/gif"@
    } else if ext == "webp"@ {
        "image/webp"@
    } else if ext == "mp4"@ {
        "video/mp4"@
    } else if ext == "txt"@ {
        "text/plain; charset=utf-8"@
    } else if ext == "ico"@ {
        "image/x-icon"@
    } else {
        "application/octet-stream"@
    }
}

fn last_at(s: &[char], from: usize, to: usize, c: char) -> (r: Option<usize>)
    requires
        from <= to <= s@.len(),
    ensures
        match r {
            Some(k) => last_of(s@, from as int, to as int, c) == Some(k as int) && from <= k < to,
            None => last_of(s@, from as int, to as int, c) is None,
        },
{
    let mut j = to;
    while j > from
        invariant
            from <= j <= to <= s@.len(),
            last_of(s@, from as int, to as int, c) == last_of(s@, from as int, j as int, c),
        decreases j,
    {
        if s[j - 1] == c {
            return Some(j - 1);
        }
        j -= 1;
    }
    None
}

/// The `Content-Type` of a file, by its extension.
pub fn content_type(path: &str) -> (r: &'static str)
    ensures
        r@ == content_type_spec(extension(path@)),
{
    let s = chars_of(path);
    let mut end = s.len();
    while end > 0 && s[end - 1] == '/'
        invariant
            end <= s@.len(),
            s@ == path@,
            trimmed_end(s@, s@.len() as int) == trimmed_end(s@, end as int),
        decreases end,
    {
        end -= 1;
    }
    let start = match last_at(&s, 0, end, '/') {
        Some(k) => k + 1,
        None => 0,
    };
    let name = crate::text::range_string(&s, start, end);
    let mut ext = String::new();
    if !(str_eq(name.as_str(), "..") || str_eq(name.as_str(), ".")) {
        match last_at(&s, start, end, '.') {
            Some(d) => {
                if d > start {
                    push_range(&mut ext, &s, d + 1, end);
                }
            },
            None => {},
        }
    }
    let e = ext.as_str();
    assert(e@ == extension(path@));
    if str_eq(e, "html") {
        "text/html; charset=utf-8"
    } else if str_eq(e, "css") {
        "text/css; charset=utf-8"
    } else if str_eq(e, "js") {
        "text/javascript; charset=utf-8"
    } else if str_eq(e, "xml") {
        "application/xml; charset=utf-8"
    } else if str_eq(e, "svg") {
        "image/svg+xml"
    } else if str_eq(e, "png") {
        "image/png"
    } else if str_eq(e, "jpg") || str_eq(e, "jpeg") {
        "image/jpeg"
    } else if str_eq(e, "gif") {
        "image/gif"
    } else if str_eq(e, "webp") {
        "image/webp"
    } else if str_eq(e, "mp4") {
        "video/mp4"
    } else if str_eq(e, "txt") {
        "text/plain; charset=utf-8"
    } else if str_eq(e, "ico") {
        "image/x-icon"
    } else {
        "application/octet-stream"
    }
}

// -- Requests -----------------------------------------------------------------

/// Where the run of whitespace at `i` ends.
pub open spec fn skip_ws(s: Seq<char>, i: int) -> int
    decreases s.len() - i,
{
    if 0 <= i < s.len() && is_whitespace(s[i]) { skip_ws(s, i + 1) } else { i }
}

/// Where the word at `i` ends: at the next whitespace, or the end.
pub open spec fn word_end(s: Seq<char>, i: int) -> int
    decreases s.len() - i,
{
    if 0 <= i < s.len() && !is_whitespace(s[i]) { word_end(s, i + 1) } else { i }
}

proof fn lemma_skip_ws(s: Seq<char>, i: int)
    requires
        0 <= i <= s.len(),
    ensures
        i <= skip_ws(s, i) <= s.len(),
        skip_ws(s, i) < s.len() ==> !is_whitespace(s[skip_ws(s, i)]),
    decreases s.len() - i,
{
    if i < s.len() && is_whitespace(s[i]) {
        lemma_skip_ws(s, i + 1);
    }
}

proof fn lemma_word_end(s: Seq<char>, i: int)
    requires
        0 <= i <= s.len(),
    ensures
        i <= word_end(s, i) <= s.len(),
        i < s.len() && !is_whitespace(s[i]) ==> i < word_end(s, i),
    decreases s.len() - i,
{
    if i < s.len() && !is_whitespace(s[i]) {
        lemma_word_end(s, i + 1);
    }
}

/// The path a request line asks for: its second whitespace-separated word,
/// or `/` when it has fewer than two.
pub open spec fn request_path_spec(line: Seq<char>) -> Seq<char> {
    let a1 = skip_ws(line, 0);
    let a2 = skip_ws(line, word_end(line, a1));
    if a1 < line.len() && a2 < line.len() {
        line.subrange(a2, word_end(line, a2))
    } else {
        "/"@
    }
}

fn skip_ws_at(s: &[char], i: usize) -> (r: usize)
    requires
        i <= s@.len(),
    ensures
        r == skip_ws(s@, i as int),
{
    let mut k = i;
    while k < s.len() && whitespace(s[k])
        invariant
            i <= k <= s@.len(),
            skip_ws(s@, k as int) == skip_ws(s@, i as int),
        decreases s@.len() - k,
    {
        k += 1;
    }
    k
}

fn word_end_at(s: &[char], i: usize) -> (r: usize)
    requires
        i <= s@.len(),
    ensures
        r == word_end(s@, i as int),
{
    let mut k = i;
    while k < s.len() && !whitespace(s[k])
        invariant
            i <= k <= s@.len(),
            word_end(s@, k as int) == word_end(s@, i as int),
        decreases s@.len() - k,
    {
        k += 1;
    }
    k
}

/// The path that the first line of an HTTP request asks for.
pub fn request_path(line: &str) -> (r: String)
    ensures
        r@ == request_path_spec(line@),
{
    let s = chars_of(line);
    proof {
        lemma_skip_ws(s@, 0);
    }
    let a1 = skip_ws_at(s.as_slice(), 0);
    proof {
        lemma_word_end(s@, a1 as int);
    }
    let b1 = word_end_at(s.as_slice(), a1);
    proof {
        lemma_skip_ws(s@, b1 as int);
    }
    let a2 = skip_ws_at(s.as_slice(), b1);
    if a1 < s.len() && a2 < s.len() {
        proof {
            lemma_word_end(s@, a2 as int);
        }
        let b2 = word_end_at(s.as_slice(), a2);
        let mut out = String::new();
        push_range(&mut out, s.as_slice(), a2, b2);
        out
    } else {
        "/".to_owned()
    }
}

/// The page shown while the last build failed: the template with the reload
/// script and the escaped message filled in, when there is one and every hole
/// it names is one of those two; otherwise the message in a `pre`, then the
/// script.
pub open spec fn error_page_spec(template: Option<Seq<char>>, msg: Seq<char>) -> Seq<char> {
    let message = esc_spec(msg);
    if template is Some && fill_ok(template->Some_0, seq!["reload"@, "message"@]) {
        fill_spec(template->Some_0, seq![("reload"@, reload_script()), ("message"@, message)])
    } else {
        "<pre>"@ + message + "</pre><script>"@ + reload_script() + "</script>"@
    }
}

pub open spec fn opt_str(o: Option<&str>) -> Option<Seq<char>> {
    match o {
        Some(t) => Some(t@),
        None => None,
    }
}

/// The page shown while the last build failed, from the error template when
/// one was read.
pub fn error_page(template: Option<&str>, msg: &str) -> (r: String)
    ensures
        r@ == error_page_spec(opt_str(template), msg@),
{
    let reload = live_reload();
    let message = esc(msg);
    if let Some(t) = template {
        let names = ["reload", "message"];
        let ok = holes_named(t, &names);
        proof {
            reveal_strlit("reload");
            reveal_strlit("message");
            assert(strs_view(names@) =~= seq!["reload"@, "message"@]);
        }
        if ok {
            let holes = [("reload", reload.as_str()), ("message", message.as_str())];
            assert(holes_view(holes@) =~= seq![("reload"@, reload@), ("message"@, message@)]);
            assert(names_of(holes_view(holes@)) =~= seq!["reload"@, "message"@]);
            return fill(t, &holes);
        }
    }
    let mut out = String::new();
    push_str(&mut out, "<pre>");
    push_str(&mut out, message.as_str());
    push_str(&mut out, "</pre><script>");
    push_str(&mut out, reload.as_str());
    push_str(&mut out, "</script>");
    out
}

// -- Content types -------------------------------------------------------------

proof fn lemma_last_of_bound(s: Seq<char>, from: int, to: int, c: char)
    ensures
        last_of(s, from, to, c) matches Some(k) ==> from <= k < to && s[k] == c,
    decreases to - from,
{
    if 0 <= from < to <= s.len() && s[to - 1] != c {
        lemma_last_of_bound(s, from, to - 1, c);
    }
}

/// Characters other than `c` at the end of a range do not change where the
/// last `c` in it is.
proof fn lemma_last_of_skip(s: Seq<char>, from: int, mid: int, to: int, c: char)
    requires
        0 <= from <= mid <= to <= s.len(),
        forall|k: int| mid <= k < to ==> s[k] != c,
    ensures
        last_of(s, from, to, c) == last_of(s, from, mid, c),
    decreases to - mid,
{
    if mid < to {
        lemma_last_of_skip(s, from, mid, to - 1, c);
    }
}

/// The extension of `dir` + `stem` + `.` + `ext` is `ext`, whatever the
/// directory, when the stem is not empty and neither part holds a `/`, and
/// the extension holds no `.`.
proof fn lemma_extension_of(dir: Seq<char>, stem: Seq<char>, ext: Seq<char>)
    requires
        stem.len() > 0,
        ext.len() > 0,
        !stem.contains('/'),
        !ext.contains('/'),
        !ext.contains('.'),
    ensures
        extension(dir + stem + "."@ + ext) == ext,
{
    reveal_strlit(".");
    let p = dir + stem + "."@ + ext;
    let n = p.len() as int;
    let m = dir.len() as int;
    let dot = m + stem.len();
    assert(p[n - 1] == ext[ext.len() - 1]);
    assert(!(p[n - 1] == '/')) by {
        if p[n - 1] == '/' {
            assert(ext.contains('/'));
        }
    }
    assert(trimmed_end(p, n) == n);
    assert forall|k: int| m <= k < n implies p[k] != '/' by {
        if k < dot {
            assert(p[k] == stem[k - m]);
            if p[k] == '/' {
                assert(stem.contains('/'));
            }
        } else if k > dot {
            assert(p[k] == ext[k - dot - 1]);
            if p[k] == '/' {
                assert(ext.contains('/'));
            }
        }
    }
    lemma_last_of_skip(p, 0, m, n, '/');
    lemma_last_of_bound(p, 0, m, '/');
    let start = match last_of(p, 0, n, '/') {
        Some(k) => k + 1,
        None => 0,
    };
    assert(start <= m);
    assert forall|k: int| dot + 1 <= k < n implies p[k] != '.' by {
        assert(p[k] == ext[k - dot - 1]);
        if p[k] == '.' {
            assert(ext.contains('.'));
        }
    }
    lemma_last_of_skip(p, start, dot + 1, n, '.');
    assert(p[dot] == '.');
    assert(last_of(p, start, dot + 1, '.') == Some(dot));
    let name = p.subrange(start, n);
    assert(name.len() >= 3);
    reveal_strlit("..");
    assert(name != ".."@ && name != "."@);
    assert(p.subrange(dot + 1, n) =~= ext);
}

/// A stylesheet is served as one: whatever directory it sits in, a file named
/// `<stem>.css` gets a `text/css` Content-Type.
pub proof fn lemma_css_is_served_as_css(dir: Seq<char>, stem: Seq<char>)
    requires
        stem.len() > 0,
        !stem.contains('/'),
    ensures
        content_type_spec(extension(dir + stem + ".css"@)).len() >= 8,
        content_type_spec(extension(dir + stem + ".css"@)).subrange(0, 8) == "text/css"@,
{
    reveal_strlit("css");
    reveal_strlit(".css");
    reveal_strlit(".");
    reveal_strlit("text/css");
    reveal_strlit("text/css; charset=utf-8");
    let ext = "css"@;
    assert(!ext.contains('/') && !ext.contains('.')) by {
        if ext.contains('/') || ext.contains('.') {
            let k = choose|k: int| 0 <= k < ext.len() && (ext[k] == '/' || ext[k] == '.');
        }
    }
    lemma_extension_of(dir, stem, ext);
    assert(dir + stem + ".css"@ =~= dir + stem + "."@ + ext);
    reveal_strlit("html");
    assert(ext != "html"@);
    assert(content_type_spec(ext) == "text/css; charset=utf-8"@);
    assert("text/css; charset=utf-8"@.subrange(0, 8) =~= "text/css"@);
}

/// A page is served as HTML: a file named `<stem>.html` gets a `text/html`
/// Content-Type.
pub proof fn lemma_html_is_served_as_html(dir: Seq<char>, stem: Seq<char>)
    requires
        stem.len() > 0,
        !stem.contains('/'),
    ensures
        content_type_spec(extension(dir + stem + ".html"@)).len() >= 9,
        content_type_spec(extension(dir + stem + ".html"@)).subrange(0, 9) == "text/html"@,
{
    reveal_strlit("html");
    reveal_strlit(".html");
    reveal_strlit(".");
    reveal_strlit("text/html");
    reveal_strlit("text/html; charset=utf-8");
    let ext = "html"@;
    assert(!ext.contains('/') && !ext.contains('.')) by {
        if ext.contains('/') || ext.contains('.') {
            let k = choose|k: int| 0 <= k < ext.len() && (ext[k] == '/' || ext[k] == '.');
        }
    }
    lemma_extension_of(dir, stem, ext);
    assert(dir + stem + ".html"@ =~= dir + stem + "."@ + ext);
    assert(content_type_spec(ext) == "text/html; charset=utf-8"@);
    assert("text/html; charset=utf-8"@.subrange(0, 9) =~= "text/html"@);
}

/// The extension of `dir` + `stem` + `.` + `ext`, for an extension of ASCII
/// letters and digits, is `ext`.
proof fn lemma_word_ext(dir: Seq<char>, stem: Seq<char>, ext: Seq<char>)
    requires
        stem.len() > 0,
        !stem.contains('/'),
        ext.len() > 0,
        forall|k: int| 0 <= k < ext.len() ==> crate::text::is_ascii_alnum(#[trigger] ext[k]),
    ensures
        extension(dir + stem + "."@ + ext) == ext,
{
    assert(!ext.contains('/') && !ext.contains('.')) by {
        if ext.contains('/') || ext.contains('.') {
            let k = choose|k: int| 0 <= k < ext.len() && (ext[k] == '/' || ext[k] == '.');
            assert(crate::text::is_ascii_alnum(ext[k]));
        }
    }
    lemma_extension_of(dir, stem, ext);
}

/// Every kind of file the site is made of is served with its media type, by
/// the extension of its name, whatever directory it is in.
pub proof fn lemma_media_types(dir: Seq<char>, stem: Seq<char>)
    requires
        stem.len() > 0,
        !stem.contains('/'),
    ensures
        content_type_spec(extension(dir + stem + "."@ + "html"@)) == "text/html; charset=utf-8"@,
        content_type_spec(extension(dir + stem + "."@ + "css"@)) == "text/css; charset=utf-8"@,
        content_type_spec(extension(dir + stem + "."@ + "js"@)) == "text/javascript; charset=utf-8"@,
        content_type_spec(extension(dir + stem + "."@ + "xml"@)) == "application/xml; charset=utf-8"@,
        content_type_spec(extension(dir + stem + "."@ + "svg"@)) == "image/svg+xml"@,
        content_type_spec(extension(dir + stem + "."@ + "png"@)) == "image/png"@,
        content_type_spec(extension(dir + stem + "."@ + "jpg"@)) == "image/jpeg"@,
        content_type_spec(extension(dir + stem + "."@ + "jpeg"@)) == "image/jpeg"@,
        content_type_spec(extension(dir + stem + "."@ + "gif"@)) == "image/gif"@,
        content_type_spec(extension(dir + stem + "."@ + "webp"@)) == "image/webp"@,
        content_type_spec(extension(dir + stem + "."@ + "mp4"@)) == "video/mp4"@,
        content_type_spec(extension(dir + stem + "."@ + "txt"@)) == "text/plain; charset=utf-8"@,
        content_type_spec(extension(dir + stem + "."@ + "ico"@)) == "image/x-icon"@,
{
    reveal_strlit("html");
    reveal_strlit("text/html; charset=utf-8");
    reveal_strlit("css");
    reveal_strlit("text/css; charset=utf-8");
    reveal_strlit("js");
    reveal_strlit("text/javascript; charset=utf-8");
    reveal_strlit("xml");
    reveal_strlit("application/xml; charset=utf-8");
    reveal_strlit("svg");
    reveal_strlit("image/svg+xml");
    reveal_strlit("png");
    reveal_strlit("image/png");
    reveal_strlit("jpg");
    reveal_strlit("image/jpeg");
    reveal_strlit("jpeg");
    reveal_strlit("image/jpeg");
    reveal_strlit("gif");
    reveal_strlit("image/gif");
    reveal_strlit("webp");
    reveal_strlit("image/webp");
    reveal_strlit("mp4");
    reveal_strlit("video/mp4");
    reveal_strlit("txt");
    reveal_strlit("text/plain; charset=utf-8");
    reveal_strlit("ico");
    reveal_strlit("image/x-icon");
    assert("css"@.len() != "html"@.len());
    assert("js"@.len() != "html"@.len());
    assert("js"@.len() != "css"@.len());
    assert("xml"@.len() != "html"@.len());
    assert("xml"@.len() != "js"@.len());
    assert("svg"@.len() != "html"@.len());
    assert("svg"@.len() != "js"@.len());
    assert("png"@.len() != "html"@.len());
    assert("png"@.len() != "js"@.len());
    assert("jpg"@.len() != "html"@.len());
    assert("jpg"@.len() != "js"@.len());
    assert("jpeg"@.len() != "css"@.len());
    assert("jpeg"@.len() != "js"@.len());
    assert("jpeg"@.len() != "xml"@.len());
    assert("jpeg"@.len() != "svg"@.len());
    assert("jpeg"@.len() != "png"@.len());
    assert("jpeg"@.len() != "jpg"@.len());
    assert("gif"@.len() != "html"@.len());
    assert("gif"@.len() != "js"@.len());
    assert("gif"@.len() != "jpeg"@.len());
    assert("webp"@.len() != "css"@.len());
    assert("webp"@.len() != "js"@.len());
    assert("webp"@.len() != "xml"@.len());
    assert("webp"@.len() != "svg"@.len());
    assert("webp"@.len() != "png"@.len());
    assert("webp"@.len() != "jpg"@.len());
    assert("webp"@.len() != "gif"@.len());
    assert("mp4"@.len() != "html"@.len());
    assert("mp4"@.len() != "js"@.len());
    assert("mp4"@.len() != "jpeg"@.len());
    assert("mp4"@.len() != "webp"@.len());
    assert("txt"@.len() != "html"@.len());
    assert("txt"@.len() != "js"@.len());
    assert("txt"@.len() != "jpeg"@.len());
    assert("txt"@.len() != "webp"@.len());
    assert("ico"@.len() != "html"@.len());
    assert("ico"@.len() != "js"@.len());
    assert("ico"@.len() != "jpeg"@.len());
    assert("ico"@.len() != "webp"@.len());
    assert(content_type_spec("html"@) == "text/html; charset=utf-8"@);
    assert(content_type_spec("css"@) == "text/css; charset=utf-8"@);
    assert(content_type_spec("js"@) == "text/javascript; charset=utf-8"@);
    assert("xml"@[0] != "css"@[0]);
    assert(content_type_spec("xml"@) == "application/xml; charset=utf-8"@);
    assert("svg"@[0] != "css"@[0]);
    assert("svg"@[0] != "xml"@[0]);
    assert(content_type_spec("svg"@) == "image/svg+xml"@);
    assert("png"@[0] != "css"@[0]);
    assert("png"@[0] != "xml"@[0]);
    assert("png"@[0] != "svg"@[0]);
    assert(content_type_spec("png"@) == "image/png"@);
    assert("jpg"@[0] != "css"@[0]);
    assert("jpg"@[0] != "xml"@[0]);
    assert("jpg"@[0] != "svg"@[0]);
    assert("jpg"@[0] != "png"@[0]);
    assert(content_type_spec("jpg"@) == "image/jpeg"@);
    assert("jpeg"@[0] != "html"@[0]);
    assert(content_type_spec("jpeg"@) == "image/jpeg"@);
    assert("gif"@[0] != "css"@[0]);
    assert("gif"@[0] != "xml"@[0]);
    assert("gif"@[0] != "svg"@[0]);
    assert("gif"@[0] != "png"@[0]);
    assert("gif"@[0] != "jpg"@[0]);
    assert(content_type_spec("gif"@) == "image/gif"@);
    assert("webp"@[0] != "html"@[0]);
    assert("webp"@[0] != "jpeg"@[0]);
    assert(content_type_spec("webp"@) == "image/webp"@);
    assert("mp4"@[0] != "css"@[0]);
    assert("mp4"@[0] != "xml"@[0]);
    assert("mp4"@[0] != "svg"@[0]);
    assert("mp4"@[0] != "png"@[0]);
    assert("mp4"@[0] != "jpg"@[0]);
    assert("mp4"@[0] != "gif"@[0]);
    assert(content_type_spec("mp4"@) == "video/mp4"@);
    assert("txt"@[0] != "css"@[0]);
    assert("txt"@[0] != "xml"@[0]);
    assert("txt"@[0] != "svg"@[0]);
    assert("txt"@[0] != "png"@[0]);
    assert("txt"@[0] != "jpg"@[0]);
    assert("txt"@[0] != "gif"@[0]);
    assert("txt"@[0] != "mp4"@[0]);
    assert(content_type_spec("txt"@) == "text/plain; charset=utf-8"@);
    assert("ico"@[0] != "css"@[0]);
    assert("ico"@[0] != "xml"@[0]);
    assert("ico"@[0] != "svg"@[0]);
    assert("ico"@[0] != "png"@[0]);
    assert("ico"@[0] != "jpg"@[0]);
    assert("ico"@[0] != "gif"@[0]);
    assert("ico"@[0] != "mp4"@[0]);
    assert("ico"@[0] != "txt"@[0]);
    assert(content_type_spec("ico"@) == "image/x-icon"@);
    lemma_word_ext(dir, stem, "html"@);
    lemma_word_ext(dir, stem, "css"@);
    lemma_word_ext(dir, stem, "js"@);
    lemma_word_ext(dir, stem, "xml"@);
    lemma_word_ext(dir, stem, "svg"@);
    lemma_word_ext(dir, stem, "png"@);
    lemma_word_ext(dir, stem, "jpg"@);
    lemma_word_ext(dir, stem, "jpeg"@);
    lemma_word_ext(dir, stem, "gif"@);
    lemma_word_ext(dir, stem, "webp"@);
    lemma_word_ext(dir, stem, "mp4"@);
    lemma_word_ext(dir, stem, "txt"@);
    lemma_word_ext(dir, stem, "ico"@);
}

} // verus!
