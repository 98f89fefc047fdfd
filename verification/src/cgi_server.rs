//! A small web server's dealings with CGI programs: which program a request
//! is for, what it is told, and what its output means. Output is read as
//! strictly as Apache reads it.
use crate::layout;
use crate::layout::{join_path, Platform};
use crate::number;
use crate::number::{parse_u64_up_to, u64_text};
use crate::paths;
use crate::paths::{lead_to, with_something};
use crate::seqs;
use crate::text;
use crate::text::{
    cat, cat3, eq_ignore_ascii_case, join, same_text, split_at_each, split_at_first, starts_with,
    to_chars, to_text, trim, white,
};
use vstd::prelude::*;
use vstd::slice::{slice_subrange, slice_to_vec};

verus! {

// ---------------------------------------------------------------------------
// Which program
// ---------------------------------------------------------------------------

/// The endings tried, in this order, for a program's file.
pub open spec fn endings() -> Seq<Seq<char>> {
    seq![""@, ".exe"@, ".cmd"@, ".bat"@, ".com"@]
}

/// The parts of a path: what stands between slashes, where anything does.
pub open spec fn parts(rest: Seq<char>) -> Seq<Seq<char>> {
    text::split(rest, '/').filter(paths::nonempty())
}

/// A file that may be the program a request is for.
#[verifier::ext_equal]
pub struct CandidateModel {
    /// Where it would be.
    pub path: Seq<char>,
    /// The program as the request names it, without an ending.
    pub script_name: Seq<char>,
    /// What the request's path has behind that.
    pub path_info: Seq<char>,
}

/// A file that may be the program a request is for.
pub struct Candidate {
    pub path: String,
    pub script_name: String,
    pub path_info: String,
}

impl View for Candidate {
    type V = CandidateModel;

    open spec fn view(&self) -> CandidateModel {
        CandidateModel {
            path: self.path@,
            script_name: self.script_name@,
            path_info: self.path_info@,
        }
    }
}

/// The file that the first `n` parts and an ending name.
pub open spec fn candidate(
    platform: Platform,
    cgi_bin: Seq<char>,
    parts: Seq<Seq<char>>,
    n: int,
    ending: Seq<char>,
) -> CandidateModel {
    CandidateModel {
        path: paths::led_to(platform, cgi_bin, text::joined(parts.take(n), '/') + ending),
        script_name: text::joined(parts.take(n), '/'),
        path_info: if n < parts.len() {
            "/"@ + text::joined(parts.skip(n), '/')
        } else {
            ""@
        },
    }
}

/// The files that the first `n` parts name, with each ending in turn.
pub open spec fn with_endings(
    platform: Platform,
    cgi_bin: Seq<char>,
    parts: Seq<Seq<char>>,
    n: int,
) -> Seq<CandidateModel> {
    Seq::new(endings().len(), |e: int| candidate(platform, cgi_bin, parts, n, endings()[e]))
}

/// The files to be tried for the first `n` parts or fewer: longer names first.
pub open spec fn down_from(
    platform: Platform,
    cgi_bin: Seq<char>,
    parts: Seq<Seq<char>>,
    n: nat,
) -> Seq<CandidateModel>
    decreases n,
{
    if n == 0 {
        seq![]
    } else {
        with_endings(platform, cgi_bin, parts, n as int) + down_from(
            platform,
            cgi_bin,
            parts,
            (n - 1) as nat,
        )
    }
}

/// The files to be tried for a request, in order.
pub open spec fn tried(platform: Platform, cgi_bin: Seq<char>, rest: Seq<char>) -> Seq<
    CandidateModel,
> {
    down_from(platform, cgi_bin, parts(rest), parts(rest).len())
}

/// The parts of a path.
fn path_parts(rest: &str) -> (r: Vec<Vec<char>>)
    ensures
        text::char_texts(r@) == parts(rest@),
{
    let chars = to_chars(rest);
    with_something(split_at_each(&chars, '/'))
}

/// The file that the first `n` parts and an ending name.
fn make_candidate(
    platform: Platform,
    cgi_bin: &str,
    pieces: &Vec<Vec<char>>,
    n: usize,
    ending: &str,
) -> (r: Candidate)
    requires
        0 < n <= pieces@.len(),
    ensures
        r@ == candidate(platform, cgi_bin@, text::char_texts(pieces@), n as int, ending@),
{
    let head = slice_subrange(pieces, 0, n);
    let tail = slice_subrange(pieces, n, pieces.len());
    let ghost all = text::char_texts(pieces@);
    proof {
        assert(text::char_texts(head@) == all.take(n as int));
        assert(text::char_texts(tail@) == all.skip(n as int));
    }
    let path_info = if n < pieces.len() {
        cat("/", join(tail, '/').as_str())
    } else {
        "".to_owned()
    };
    let script_name = join(head, '/');
    let path = lead_to(platform, cgi_bin, cat(script_name.as_str(), ending).as_str());
    Candidate { path, script_name, path_info }
}

/// The files to be tried for a request, in order: longer names before shorter
/// ones, and each with every ending.
pub fn candidates(platform: Platform, cgi_bin: &str, rest: &str) -> (r: Vec<Candidate>)
    ensures
        seqs::views(r@) == tried(platform, cgi_bin@, rest@),
{
    let pieces = path_parts(rest);
    let ghost all = text::char_texts(pieces@);
    let ghost whole = tried(platform, cgi_bin@, rest@);
    let mut found: Vec<Candidate> = Vec::new();
    let mut n: usize = pieces.len();
    assert(seqs::views(found@) + whole == whole);
    while n > 0
        invariant
            n <= pieces@.len(),
            all == text::char_texts(pieces@),
            seqs::views(found@) + down_from(platform, cgi_bin@, all, n as nat) == whole,
        decreases n,
    {
        let ghost before = found@;
        found.push(make_candidate(platform, cgi_bin, &pieces, n, ""));
        found.push(make_candidate(platform, cgi_bin, &pieces, n, ".exe"));
        found.push(make_candidate(platform, cgi_bin, &pieces, n, ".cmd"));
        found.push(make_candidate(platform, cgi_bin, &pieces, n, ".bat"));
        found.push(make_candidate(platform, cgi_bin, &pieces, n, ".com"));
        proof {
            let these = with_endings(platform, cgi_bin@, all, n as int);
            let fewer = down_from(platform, cgi_bin@, all, (n - 1) as nat);
            assert(seqs::views(found@) == seqs::views(before) + these);
            assert(seqs::views(before) + (these + fewer) == (seqs::views(before)
                + these) + fewer);
        }
        n = n - 1;
    }
    assert(seqs::views(found@) + seq![] == seqs::views(found@));
    found
}

/// What is at a candidate's path.
pub enum Probe {
    /// Nothing.
    Nothing,
    /// Something, whose path with every link followed is this.
    Something { path: String, is_file: bool },
}

/// A program found.
pub struct Script {
    /// The file to run.
    pub path: String,
    pub script_name: String,
    pub path_info: String,
}

/// Whether a path is a folder or lies in it. Both are paths with every link
/// followed, so that this can be read off the texts.
pub open spec fn lies_in(platform: Platform, path: Seq<char>, dir: Seq<char>) -> bool {
    path == dir || text::begins_with(path, layout::inside(platform, dir, ""@))
}

/// Whether a path is a folder or lies in it.
fn path_lies_in(platform: Platform, path: &str, dir: &str) -> (r: bool)
    ensures
        r == lies_in(platform, path@, dir@),
{
    let chars = to_chars(path);
    let prefix = to_chars(join_path(platform, dir, "").as_str());
    same_text(path, dir) || starts_with(&chars, &prefix)
}

/// Whether a probe has found a file in the folder.
pub open spec fn file_inside(platform: Platform, probe: Probe, cgi_bin: Seq<char>) -> bool {
    probe matches Probe::Something { path, is_file } && is_file && lies_in(platform, path@, cgi_bin)
}

/// Whether a probe is the first that has found a file in the folder.
pub open spec fn first_inside(
    platform: Platform,
    probes: Seq<Probe>,
    cgi_bin: Seq<char>,
    k: int,
) -> bool {
    &&& 0 <= k < probes.len()
    &&& file_inside(platform, probes[k], cgi_bin)
    &&& forall|j: int| 0 <= j < k ==> !file_inside(platform, #[trigger] probes[j], cgi_bin)
}

/// The program a request is for, given what is at each candidate's path: the
/// first candidate that is a file in `cgi_bin`. A path that leads out of
/// `cgi_bin` is passed over.
pub fn resolve_cgi_script(platform: Platform, cgi_bin: &str, rest: &str, probes: &[Probe]) -> (r:
    Option<Script>)
    requires
        probes@.len() == tried(platform, cgi_bin@, rest@).len(),
    ensures
        match r {
            Some(script) => exists|k: int| #[trigger]
                first_inside(platform, probes@, cgi_bin@, k) && {
                    &&& script.path@ == probes@[k]->path@
                    &&& script.script_name@ == tried(platform, cgi_bin@, rest@)[k].script_name
                    &&& script.path_info@ == tried(platform, cgi_bin@, rest@)[k].path_info
                },
            None => forall|j: int|
                0 <= j < probes@.len() ==> !file_inside(
                    platform,
                    #[trigger] probes@[j],
                    cgi_bin@,
                ),
        },
{
    let files = candidates(platform, cgi_bin, rest);
    let ghost all = tried(platform, cgi_bin@, rest@);
    assert(seqs::views(files@).len() == files@.len());
    for i in 0..probes.len()
        invariant
            all == tried(platform, cgi_bin@, rest@),
            all == seqs::views(files@),
            files@.len() == probes@.len(),
            forall|j: int|
                0 <= j < i ==> !file_inside(platform, #[trigger] probes@[j], cgi_bin@),
    {
        match &probes[i] {
            Probe::Something { path, is_file } => {
                if *is_file && path_lies_in(platform, path.as_str(), cgi_bin) {
                    assert(first_inside(platform, probes@, cgi_bin@, i as int));
                    assert(all[i as int] == files@[i as int]@);
                    return Some(
                        Script {
                            path: path.clone(),
                            script_name: files[i].script_name.clone(),
                            path_info: files[i].path_info.clone(),
                        },
                    );
                }
            },
            Probe::Nothing => {},
        }
    }
    None
}

/// Whatever a request names, the program lies in `cgi_bin`: what the program's
/// path says in front is that folder, and then a part begins.
pub proof fn scripts_never_lie_outside(
    platform: Platform,
    probes: Seq<Probe>,
    cgi_bin: Seq<char>,
    k: int,
)
    requires
        first_inside(platform, probes, cgi_bin, k),
    ensures
        ({
            let path = probes[k]->path@;
            &&& text::begins_with(path, cgi_bin)
            &&& path.len() > cgi_bin.len() && !layout::open_ended(platform, cgi_bin)
                ==> path[cgi_bin.len() as int] == layout::separator(platform)
        }),
{
    reveal_strlit("");
    let path = probes[k]->path@;
    let prefix = layout::inside(platform, cgi_bin, ""@);
    if path == cgi_bin {
        assert(path.take(cgi_bin.len() as int) == cgi_bin);
    } else {
        assert(path.take(prefix.len() as int) == prefix);
        assert(prefix.take(cgi_bin.len() as int) == cgi_bin);
        assert(path.take(cgi_bin.len() as int) == path.take(prefix.len() as int).take(
            cgi_bin.len() as int,
        ));
        if !layout::open_ended(platform, cgi_bin) {
            assert(path.take(prefix.len() as int)[cgi_bin.len() as int] == layout::separator(
                platform,
            ));
        }
    }
}

/// Longer names are tried before shorter ones, and each name with every ending
/// in turn.
pub proof fn longer_names_come_first(
    platform: Platform,
    cgi_bin: Seq<char>,
    rest: Seq<char>,
    i: int,
)
    requires
        0 <= i < tried(platform, cgi_bin, rest).len(),
    ensures
        tried(platform, cgi_bin, rest).len() == 5 * parts(rest).len(),
        tried(platform, cgi_bin, rest)[i] == candidate(
            platform,
            cgi_bin,
            parts(rest),
            parts(rest).len() - i / 5,
            endings()[i % 5],
        ),
{
    down_from_in_order(platform, cgi_bin, parts(rest), parts(rest).len(), i);
}

/// The order of the files to be tried.
proof fn down_from_in_order(
    platform: Platform,
    cgi_bin: Seq<char>,
    parts: Seq<Seq<char>>,
    n: nat,
    i: int,
)
    requires
        0 <= i < down_from(platform, cgi_bin, parts, n).len(),
    ensures
        down_from(platform, cgi_bin, parts, n).len() == 5 * n,
        down_from(platform, cgi_bin, parts, n)[i] == candidate(
            platform,
            cgi_bin,
            parts,
            n - i / 5,
            endings()[i % 5],
        ),
    decreases n,
{
    let these = with_endings(platform, cgi_bin, parts, n as int);
    assert(these.len() == 5);
    let fewer = down_from(platform, cgi_bin, parts, (n - 1) as nat);
    if i >= 5 {
        down_from_in_order(platform, cgi_bin, parts, (n - 1) as nat, i - 5);
        assert(down_from(platform, cgi_bin, parts, n)[i] == fewer[i - 5]);
    } else {
        assert(down_from(platform, cgi_bin, parts, n)[i] == these[i]);
        if fewer.len() > 0 {
            down_from_in_order(platform, cgi_bin, parts, (n - 1) as nat, 0);
        } else if n > 1 {
            assert(fewer == with_endings(platform, cgi_bin, parts, n - 1) + down_from(
                platform,
                cgi_bin,
                parts,
                (n - 2) as nat,
            ));
        }
    }
}

/// Nothing of a request's path is lost or invented: the program's name and the
/// path behind it are together the path's parts.
pub proof fn name_and_rest_make_the_path(
    platform: Platform,
    cgi_bin: Seq<char>,
    parts: Seq<Seq<char>>,
    n: int,
    ending: Seq<char>,
)
    requires
        0 < n <= parts.len(),
    ensures
        candidate(platform, cgi_bin, parts, n, ending).script_name + candidate(
            platform,
            cgi_bin,
            parts,
            n,
            ending,
        ).path_info == text::joined(parts, '/'),
{
    reveal_strlit("/");
    reveal_strlit("");
    if n == parts.len() {
        assert(parts.take(n) == parts);
        assert(text::joined(parts, '/') + ""@ == text::joined(parts, '/'));
    } else {
        text::joined_apart(parts, '/', n);
        assert("/"@ == seq!['/']);
        let name = text::joined(parts.take(n), '/');
        let info = text::joined(parts.skip(n), '/');
        assert(name + ("/"@ + info) == name.push('/') + info);
    }
}

// ---------------------------------------------------------------------------
// What the program is told
// ---------------------------------------------------------------------------

/// The upper-case form of a character, as Unicode has it.
pub uninterp spec fn uppercase(c: char) -> Seq<char>;

/// The upper-case form of a character (`char::to_uppercase`), as text. An ASCII
/// character's is one character: the capital for a small letter, the character
/// itself for any other.
#[verifier::external_body]
fn upper(c: char) -> (r: String)
    ensures
        r@ == uppercase(c),
        'a' <= c <= 'z' ==> r@ == seq![(c as u8 - 32) as u8 as char],
        (c as u32) < 0x80 && !('a' <= c <= 'z') ==> r@ == seq![c],
{
    c.to_uppercase().to_string()
}

/// What a character of a header's name becomes in a variable's name.
pub open spec fn in_variable(c: char) -> Seq<char> {
    if c == '-' {
        "_"@
    } else {
        uppercase(c)
    }
}

/// What a header's name becomes in a variable's name.
pub open spec fn all_in_variable(name: Seq<char>) -> Seq<char>
    decreases name.len(),
{
    if name.len() == 0 {
        seq![]
    } else {
        all_in_variable(name.drop_last()) + in_variable(name.last())
    }
}

/// The environment variable that a header goes into.
pub open spec fn variable(name: Seq<char>) -> Seq<char> {
    "HTTP_"@ + all_in_variable(name)
}

/// Whether a text is ASCII.
pub open spec fn is_ascii(s: Seq<char>) -> bool {
    forall|i: int| 0 <= i < s.len() ==> (#[trigger] s[i] as u32) < 0x80
}

/// What an ASCII character of a header's name becomes in a variable's name.
pub open spec fn ascii_in_variable(c: char) -> char {
    if c == '-' {
        '_'
    } else if 'a' <= c && c <= 'z' {
        ((c as u8) - 32) as u8 as char
    } else {
        c
    }
}

/// The environment variable that a header goes into: its name in capitals,
/// with underscores for dashes.
pub fn header_to_env_name(name: &str) -> (r: String)
    ensures
        r@ == variable(name@),
        is_ascii(name@) ==> r@ == "HTTP_"@ + name@.map_values(|c: char| ascii_in_variable(c)),
{
    let chars = to_chars(name);
    let mut r = "HTTP_".to_owned();
    assert(name@.take(0) == Seq::<char>::empty());
    assert("HTTP_"@ + all_in_variable(name@.take(0)) == "HTTP_"@);
    for i in 0..chars.len()
        invariant
            chars@ == name@,
            r@ == "HTTP_"@ + all_in_variable(name@.take(i as int)),
            is_ascii(name@) ==> all_in_variable(name@.take(i as int)) == name@.take(
                i as int,
            ).map_values(|c: char| ascii_in_variable(c)),
    {
        let ghost before = all_in_variable(name@.take(i as int));
        let c = chars[i];
        let piece = if c == '-' {
            "_".to_owned()
        } else {
            upper(c)
        };
        r.append(piece.as_str());
        proof {
            reveal_strlit("_");
            assert(name@.take(i + 1).drop_last() == name@.take(i as int));
            if is_ascii(name@) {
                assert((name@[i as int] as u32) < 0x80);
                assert(piece@ == seq![ascii_in_variable(c)]);
                assert(name@.take(i + 1).map_values(|c: char| ascii_in_variable(c))
                    == name@.take(i as int).map_values(|c: char| ascii_in_variable(c)) + piece@);
            }
            assert("HTTP_"@ + (before + piece@) == "HTTP_"@ + before + piece@);
        }
    }
    assert(name@.take(name@.len() as int) == name@);
    r
}

/// A request that a CGI program is to answer.
pub struct CgiRequest {
    pub port: u16,
    pub method: String,
    pub script_name: String,
    pub path_info: String,
    pub uri: String,
    pub query: Option<String>,
    pub remote_addr: String,
    pub document_root: String,
    pub content_length: u64,
    /// The headers; a value that is not visible ASCII has no text.
    pub headers: Vec<(String, Option<String>)>,
}

/// The value of the first header of a name, or nothing.
pub open spec fn header_text(headers: Seq<(String, Option<String>)>, name: Seq<char>) -> Seq<char>
    decreases headers.len(),
{
    if headers.len() == 0 {
        ""@
    } else if headers[0].0@ == name {
        match headers[0].1 {
            Some(value) => value@,
            None => ""@,
        }
    } else {
        header_text(headers.drop_first(), name)
    }
}

/// The variables that headers go into. Those for the body's type and length
/// have variables of their own, and a value without text has none.
pub open spec fn header_variables(headers: Seq<(String, Option<String>)>) -> Seq<
    (Seq<char>, Seq<char>),
>
    decreases headers.len(),
{
    if headers.len() == 0 {
        seq![]
    } else {
        let before = header_variables(headers.drop_last());
        let (name, value) = headers.last();
        match value {
            Some(value) if name@ != "content-type"@ && name@ != "content-length"@ => before.push(
                (variable(name@), value@),
            ),
            _ => before,
        }
    }
}

/// The environment a CGI program is given, in the order it is set.
pub open spec fn environment(request: CgiRequest) -> Seq<(Seq<char>, Seq<char>)> {
    seq![
        ("GATEWAY_INTERFACE"@, "CGI/1.1"@),
        ("SERVER_PROTOCOL"@, "HTTP/1.1"@),
        ("SERVER_SOFTWARE"@, "fileserver-cgi-dev/0.1"@),
        ("SERVER_NAME"@, "localhost"@),
        ("SERVER_PORT"@, number::decimal(request.port as nat)),
        ("REQUEST_METHOD"@, request.method@),
        ("SCRIPT_NAME"@, "/cgi-bin/"@ + request.script_name@),
        ("PATH_INFO"@, request.path_info@),
        ("REQUEST_URI"@, request.uri@),
        (
            "QUERY_STRING"@,
            match request.query {
                Some(query) => query@,
                None => ""@,
            },
        ),
        ("REMOTE_ADDR"@, request.remote_addr@),
        ("DOCUMENT_ROOT"@, request.document_root@),
        ("CONTENT_LENGTH"@, number::decimal(request.content_length as nat)),
        ("CONTENT_TYPE"@, header_text(request.headers@, "content-type"@)),
    ] + header_variables(request.headers@)
}

/// The texts of pairs.
pub open spec fn pair_texts(pairs: Seq<(String, String)>) -> Seq<(Seq<char>, Seq<char>)> {
    pairs.map_values(|p: (String, String)| (p.0@, p.1@))
}

/// The value of the first header of a name, or nothing.
fn first_header(headers: &Vec<(String, Option<String>)>, name: &str) -> (r: String)
    ensures
        r@ == header_text(headers@, name@),
{
    assert(headers@.skip(0) == headers@);
    for i in 0..headers.len()
        invariant
            header_text(headers@, name@) == header_text(headers@.skip(i as int), name@),
    {
        assert(headers@.skip(i as int).drop_first() == headers@.skip(i + 1));
        if same_text(headers[i].0.as_str(), name) {
            return match &headers[i].1 {
                Some(value) => value.clone(),
                None => "".to_owned(),
            };
        }
    }
    "".to_owned()
}

/// Adds a pair.
fn add_pair(pairs: &mut Vec<(String, String)>, name: &str, value: &str)
    ensures
        pair_texts(final(pairs)@) == pair_texts(old(pairs)@).push((name@, value@)),
{
    let ghost before = pairs@;
    let p = (name.to_owned(), value.to_owned());
    pairs.push(p);
    assert(pair_texts(pairs@) == pair_texts(before).push((name@, value@)));
}

/// The environment a CGI program is given, in the order it is set.
pub fn cgi_environment(request: &CgiRequest) -> (r: Vec<(String, String)>)
    ensures
        pair_texts(r@) == environment(*request),
{
    let mut vars: Vec<(String, String)> = Vec::new();
    add_pair(&mut vars, "GATEWAY_INTERFACE", "CGI/1.1");
    add_pair(&mut vars, "SERVER_PROTOCOL", "HTTP/1.1");
    add_pair(&mut vars, "SERVER_SOFTWARE", "fileserver-cgi-dev/0.1");
    add_pair(&mut vars, "SERVER_NAME", "localhost");
    add_pair(&mut vars, "SERVER_PORT", u64_text(request.port as u64).as_str());
    add_pair(&mut vars, "REQUEST_METHOD", request.method.as_str());
    add_pair(
        &mut vars,
        "SCRIPT_NAME",
        cat("/cgi-bin/", request.script_name.as_str()).as_str(),
    );
    add_pair(&mut vars, "PATH_INFO", request.path_info.as_str());
    add_pair(&mut vars, "REQUEST_URI", request.uri.as_str());
    let query = match &request.query {
        Some(query) => query.as_str(),
        None => "",
    };
    add_pair(&mut vars, "QUERY_STRING", query);
    add_pair(&mut vars, "REMOTE_ADDR", request.remote_addr.as_str());
    add_pair(&mut vars, "DOCUMENT_ROOT", request.document_root.as_str());
    add_pair(&mut vars, "CONTENT_LENGTH", u64_text(request.content_length).as_str());
    add_pair(
        &mut vars,
        "CONTENT_TYPE",
        first_header(&request.headers, "content-type").as_str(),
    );
    let ghost fixed = pair_texts(vars@);
    let ghost all = request.headers@;
    assert(fixed + header_variables(all.take(0)) == fixed);
    for i in 0..request.headers.len()
        invariant
            all == request.headers@,
            pair_texts(vars@) == fixed + header_variables(all.take(i as int)),
    {
        proof {
            assert(all.take(i + 1).drop_last() == all.take(i as int));
            assert(all.take(i + 1).last() == all[i as int]);
        }
        let name = request.headers[i].0.as_str();
        if !same_text(name, "content-type") && !same_text(name, "content-length") {
            match &request.headers[i].1 {
                Some(value) => {
                    add_pair(&mut vars, header_to_env_name(name).as_str(), value.as_str());
                },
                None => {},
            }
        }
    }
    assert(all.take(all.len() as int) == all);
    assert(pair_texts(vars@) == environment(*request));
    vars
}

// ---------------------------------------------------------------------------
// What the program's output means
// ---------------------------------------------------------------------------

/// An HTTP answer.
pub struct CgiResponse {
    pub status: u16,
    pub headers: Vec<(String, String)>,
    pub body: Vec<u8>,
}

/// An HTTP answer.
#[verifier::ext_equal]
pub struct ResponseModel {
    pub status: int,
    pub headers: Seq<(Seq<char>, Seq<char>)>,
    pub body: Seq<u8>,
}

impl View for CgiResponse {
    type V = ResponseModel;

    open spec fn view(&self) -> ResponseModel {
        ResponseModel {
            status: self.status as int,
            headers: pair_texts(self.headers@),
            body: self.body@,
        }
    }
}

/// The text of bytes that should be UTF-8, with what is not replaced.
pub uninterp spec fn lossy(bytes: Seq<u8>) -> Seq<char>;

/// The text of bytes that should be UTF-8 (`String::from_utf8_lossy`). Where
/// they are, it is the text they encode.
#[verifier::external_body]
fn lossy_text(bytes: &[u8]) -> (r: String)
    ensures
        r@ == lossy(bytes@),
        vstd::utf8::valid_utf8(bytes@) ==> r@ == vstd::utf8::decode_utf8(bytes@),
{
    String::from_utf8_lossy(bytes).into_owned()
}

/// A text in quotes, as Rust shows it to a programmer.
pub uninterp spec fn quoted(s: Seq<char>) -> Seq<char>;

/// A text in quotes (`str`'s `Debug`).
#[verifier::external_body]
fn quote(s: &str) -> (r: String)
    ensures
        r@ == quoted(s@),
{
    format!("{s:?}")
}

/// Whether `pattern` stands in `bytes` at `i`.
pub open spec fn stands_at(bytes: Seq<u8>, pattern: Seq<u8>, i: int) -> bool {
    0 <= i && i + pattern.len() <= bytes.len() && bytes.subrange(i, i + pattern.len()) == pattern
}

/// Where `pattern` first stands in `bytes`, from `i` on.
pub open spec fn first_from(bytes: Seq<u8>, pattern: Seq<u8>, i: int) -> Option<int>
    decreases bytes.len() - i + 1,
{
    if i + pattern.len() > bytes.len() {
        None
    } else if stands_at(bytes, pattern, i) {
        Some(i)
    } else {
        first_from(bytes, pattern, i + 1)
    }
}

/// A blank line with carriage returns.
pub open spec fn blank_crlf() -> Seq<u8> {
    seq![13u8, 10u8, 13u8, 10u8]
}

/// A blank line without.
pub open spec fn blank_lf() -> Seq<u8> {
    seq![10u8, 10u8]
}

/// The headers and the body of an output: what stands before and after the
/// first blank line. One with carriage returns counts before one without.
pub open spec fn divided(raw: Seq<u8>) -> Option<(Seq<u8>, Seq<u8>)> {
    match (first_from(raw, blank_crlf(), 0), first_from(raw, blank_lf(), 0)) {
        (Some(i), _) => Some((raw.take(i), raw.skip(i + 4))),
        (None, Some(i)) => Some((raw.take(i), raw.skip(i + 2))),
        (None, None) => None,
    }
}

/// A text up to its first whitespace.
pub open spec fn first_word(s: Seq<char>) -> Seq<char>
    decreases s.len(),
{
    if s.len() == 0 || text::is_white(s.first()) {
        seq![]
    } else {
        seq![s.first()] + first_word(s.drop_first())
    }
}

/// The status after a status line: the number its value begins with, where
/// that is one; a number that is no status counts as 200.
pub open spec fn status_after(status: int, value: Seq<char>) -> int {
    match number::integer_in(first_word(value), 0, u16::MAX as int) {
        Some(code) => if 100 <= code <= 999 {
            code
        } else {
            200
        },
        None => status,
    }
}

/// What header lines say: a status, and headers; or the first line that is
/// neither.
pub open spec fn header_block(lines: Seq<Seq<char>>) -> Result<
    (int, Seq<(Seq<char>, Seq<char>)>),
    Seq<char>,
>
    decreases lines.len(),
{
    if lines.len() == 0 {
        Ok((200, seq![]))
    } else {
        match header_block(lines.drop_last()) {
            Err(line) => Err(line),
            Ok((status, headers)) => {
                let line = text::trimmed(lines.last());
                if line.len() == 0 {
                    Ok((status, headers))
                } else {
                    match text::split_once(line, ':') {
                        None => Err(line),
                        Some((name, value)) => {
                            let name = text::trimmed(name);
                            let value = text::trimmed(value);
                            if text::same_ignoring_ascii_case(name, "status"@) {
                                Ok((status_after(status, value), headers))
                            } else {
                                Ok((status, headers.push((name, value))))
                            }
                        },
                    }
                }
            },
        }
    }
}

/// Whether a character may stand in a header's name.
pub open spec fn is_token(c: char) -> bool {
    ||| 'a' <= c <= 'z'
    ||| 'A' <= c <= 'Z'
    ||| '0' <= c <= '9'
    ||| seq!['!', '#', '$', '%', '&', '\'', '*', '+', '-', '.', '^', '_', '`', '|', '~'].contains(c)
}

/// Whether a text can be a header's name.
pub open spec fn is_header_name(name: Seq<char>) -> bool {
    &&& 0 < name.len() <= 65535
    &&& forall|i: int| 0 <= i < name.len() ==> is_token(#[trigger] name[i])
}

/// Whether a text can be a header's value: it has no control characters but
/// tabs.
pub open spec fn is_header_value(value: Seq<char>) -> bool {
    forall|i: int|
        0 <= i < value.len() ==> {
            let u = #[trigger] value[i] as u32;
            u == 9 || (u >= 32 && u != 127)
        }
}

/// Whether a text can be a header's name (`http::HeaderName::from_bytes`, which
/// `axum` has as its own): it is taken exactly where [`is_header_name`] holds.
#[verifier::external_body]
fn allowed_name(name: &str) -> (r: bool)
    ensures
        r == is_header_name(name@),
{
    axum::http::HeaderName::from_bytes(name.as_bytes()).is_ok()
}

/// Whether a text can be a header's value (`http::HeaderValue::from_str`, which
/// `axum` has as its own): it is taken exactly where [`is_header_value`] holds.
#[verifier::external_body]
fn allowed_value(value: &str) -> (r: bool)
    ensures
        r == is_header_value(value@),
{
    axum::http::HeaderValue::from_str(value).is_ok()
}

/// The name of the first header that cannot be one, if there is such.
pub open spec fn unfit(headers: Seq<(Seq<char>, Seq<char>)>) -> Option<Seq<char>>
    decreases headers.len(),
{
    if headers.len() == 0 {
        None
    } else if is_header_name(headers[0].0) && is_header_value(headers[0].1) {
        unfit(headers.drop_first())
    } else {
        Some(headers[0].0)
    }
}

/// The answer where the output is malformed.
pub open spec fn malformed(reason: Seq<char>) -> ResponseModel {
    ResponseModel {
        status: 500,
        headers: seq![("content-type"@, "text/plain"@)],
        body: vstd::utf8::encode_utf8(
            "500 malformed CGI output: "@ + reason
                + "\n(strict parsing, matching Apache mod_cgi - a real host would answer its generic 500 page here)\n"@,
        ),
    }
}

/// The answer that an output means, given the text of its headers.
pub open spec fn response(header_text: Seq<char>, body: Seq<u8>) -> ResponseModel {
    match header_block(text::split(header_text, '\n')) {
        Err(line) => malformed("non-header line in the header block: "@ + quoted(line)),
        Ok((status, headers)) => match unfit(headers) {
            Some(name) => malformed("invalid header in the header block: "@ + quoted(name)),
            None => ResponseModel { status, headers, body },
        },
    }
}

/// The answer that an output means.
pub open spec fn response_of(raw: Seq<u8>) -> ResponseModel {
    match divided(raw) {
        None => malformed("no header/body separator in the output"@),
        Some((head, body)) => response(lossy(head), body),
    }
}

/// The answer where the output is malformed: strict, as Apache is, so that what
/// would fail there is not patched up here.
pub fn malformed_cgi_response(reason: &str) -> (r: CgiResponse)
    ensures
        r@ == malformed(reason@),
{
    let mut headers: Vec<(String, String)> = Vec::new();
    add_pair(&mut headers, "content-type", "text/plain");
    let body = cat3(
        "500 malformed CGI output: ",
        reason,
        "\n(strict parsing, matching Apache mod_cgi - a real host would answer its generic 500 page here)\n",
    );
    let r = CgiResponse { status: 500, headers, body: slice_to_vec(body.as_str().as_bytes()) };
    assert(r@ =~= malformed(reason@));
    r
}

/// Whether `pattern` stands in `bytes` at `i`.
fn is_at(bytes: &[u8], pattern: &[u8], i: usize) -> (r: bool)
    requires
        i + pattern@.len() <= bytes@.len(),
    ensures
        r == stands_at(bytes@, pattern@, i as int),
{
    let n: usize = bytes.len();
    for j in 0..pattern.len()
        invariant
            n == bytes@.len(),
            i + pattern@.len() <= bytes@.len(),
            forall|k: int| 0 <= k < j ==> bytes@[i + k] == pattern@[k],
    {
        if bytes[i + j] != pattern[j] {
            assert(bytes@.subrange(i as int, i + pattern@.len())[j as int] != pattern@[j as int]);
            return false;
        }
    }
    assert(bytes@.subrange(i as int, i + pattern@.len()) == pattern@);
    true
}

/// Where `pattern` first stands in `bytes`.
fn first_at(bytes: &[u8], pattern: &[u8]) -> (r: Option<usize>)
    ensures
        match r {
            Some(i) => first_from(bytes@, pattern@, 0) == Some(i as int) && i + pattern@.len()
                <= bytes@.len(),
            None => first_from(bytes@, pattern@, 0) is None,
        },
{
    if pattern.len() > bytes.len() {
        return None;
    }
    let last: usize = bytes.len() - pattern.len();
    let mut i: usize = 0;
    while i < last
        invariant
            i <= last,
            last + pattern@.len() == bytes@.len(),
            first_from(bytes@, pattern@, 0) == first_from(bytes@, pattern@, i as int),
        decreases last - i,
    {
        if is_at(bytes, pattern, i) {
            return Some(i);
        }
        i = i + 1;
    }
    if is_at(bytes, pattern, i) {
        Some(i)
    } else {
        assert(first_from(bytes@, pattern@, i + 1) is None);
        None
    }
}

/// A text up to its first whitespace.
fn word(chars: &[char]) -> (r: &[char])
    ensures
        r@ == first_word(chars@),
{
    let mut n: usize = 0;
    assert(chars@.take(0) == Seq::<char>::empty());
    assert(chars@.skip(0) == chars@);
    assert(chars@.take(0) + first_word(chars@.skip(0)) == first_word(chars@));
    while n < chars.len() && !white(chars[n])
        invariant
            n <= chars@.len(),
            chars@.take(n as int) + first_word(chars@.skip(n as int)) == first_word(chars@),
        decreases chars@.len() - n,
    {
        proof {
            let rest = chars@.skip(n as int);
            assert(rest.drop_first() == chars@.skip(n + 1));
            assert(chars@.take(n + 1) == chars@.take(n as int).push(chars@[n as int]));
            assert(chars@.take(n as int) + (seq![chars@[n as int]] + first_word(
                chars@.skip(n + 1),
            )) == chars@.take(n + 1) + first_word(chars@.skip(n + 1)));
        }
        n = n + 1;
    }
    assert(first_word(chars@.skip(n as int)) == Seq::<char>::empty());
    assert(chars@.take(n as int) + Seq::<char>::empty() == chars@.take(n as int));
    slice_subrange(chars, 0, n)
}

/// Where header lines go wrong, more lines do not mend them.
proof fn wrong_stays_wrong(lines: Seq<Seq<char>>, n: int)
    requires
        0 <= n <= lines.len(),
        header_block(lines.take(n)) is Err,
    ensures
        header_block(lines) == header_block(lines.take(n)),
    decreases lines.len(),
{
    if n == lines.len() {
        assert(lines.take(n) == lines);
    } else {
        assert(lines.drop_last().take(n) == lines.take(n));
        wrong_stays_wrong(lines.drop_last(), n);
    }
}

/// The answer that an output means, given the text of its headers.
pub fn build_response(header_text: &str, body: Vec<u8>) -> (r: CgiResponse)
    ensures
        r@ == response(header_text@, body@),
{
    let chars = to_chars(header_text);
    let lines = split_at_each(&chars, '\n');
    let ghost all = text::split(header_text@, '\n');
    let mut status: u16 = 200;
    let mut headers: Vec<(String, String)> = Vec::new();
    assert(all.take(0) == Seq::<Seq<char>>::empty());
    assert(pair_texts(headers@) == Seq::<(Seq<char>, Seq<char>)>::empty());
    for i in 0..lines.len()
        invariant
            all == text::split(header_text@, '\n'),
            all == text::char_texts(lines@),
            header_block(all.take(i as int)) == Ok::<
                (int, Seq<(Seq<char>, Seq<char>)>),
                Seq<char>,
            >((status as int, pair_texts(headers@))),
    {
        proof {
            assert(all.take(i + 1).drop_last() == all.take(i as int));
            assert(all.take(i + 1).last() == lines@[i as int]@);
        }
        let line = trim(&lines[i]);
        if line.len() > 0 {
            match split_at_first(line, ':') {
                None => {
                    proof {
                        wrong_stays_wrong(all, i + 1);
                    }
                    let shown = quote(to_text(line).as_str());
                    return malformed_cgi_response(
                        cat("non-header line in the header block: ", shown.as_str()).as_str(),
                    );
                },
                Some((name, value)) => {
                    let name = trim(name);
                    let value = trim(value);
                    if eq_ignore_ascii_case(name, &to_chars("status")) {
                        match parse_u64_up_to(word(value), 65535) {
                            Some(code) => {
                                status = if 100 <= code && code <= 999 {
                                    code as u16
                                } else {
                                    200
                                };
                            },
                            None => {},
                        }
                    } else {
                        add_pair(
                            &mut headers,
                            to_text(name).as_str(),
                            to_text(value).as_str(),
                        );
                    }
                },
            }
        }
    }
    assert(all.take(all.len() as int) == all);
    let ghost said = pair_texts(headers@);
    assert(said.skip(0) == said);
    for i in 0..headers.len()
        invariant
            said == pair_texts(headers@),
            header_block(text::split(header_text@, '\n')) == Ok::<
                (int, Seq<(Seq<char>, Seq<char>)>),
                Seq<char>,
            >((status as int, said)),
            unfit(said) == unfit(said.skip(i as int)),
    {
        assert(said.skip(i as int).drop_first() == said.skip(i + 1));
        if !(allowed_name(headers[i].0.as_str()) && allowed_value(headers[i].1.as_str())) {
            let shown = quote(headers[i].0.as_str());
            return malformed_cgi_response(
                cat("invalid header in the header block: ", shown.as_str()).as_str(),
            );
        }
    }
    CgiResponse { status, headers, body }
}

/// The answer that a CGI program's output means.
pub fn build_response_from_cgi_output(raw: &[u8]) -> (r: CgiResponse)
    ensures
        r@ == response_of(raw@),
        divided(raw@) matches Some((head, body)) ==> (vstd::utf8::valid_utf8(head) ==> r@
            == response(vstd::utf8::decode_utf8(head), body)),
{
    let mut crlf: Vec<u8> = Vec::new();
    crlf.push(13);
    crlf.push(10);
    crlf.push(13);
    crlf.push(10);
    let mut lf: Vec<u8> = Vec::new();
    lf.push(10);
    lf.push(10);
    assert(crlf@ == blank_crlf());
    assert(lf@ == blank_lf());
    let (at, len): (usize, usize) = match first_at(raw, &crlf) {
        Some(i) => (i, 4),
        None => match first_at(raw, &lf) {
            Some(i) => (i, 2),
            None => {
                return malformed_cgi_response("no header/body separator in the output");
            },
        },
    };
    let end: usize = raw.len();
    let head = slice_subrange(raw, 0, at);
    let body = slice_subrange(raw, at + len, end);
    assert(head@ == raw@.take(at as int));
    assert(body@ == raw@.skip(at + len));
    build_response(lossy_text(head).as_str(), slice_to_vec(body))
}

/// A plain answer.
fn plain_response(status: u16, body: &str) -> (r: CgiResponse)
    ensures
        r@ == (ResponseModel {
            status: status as int,
            headers: seq![],
            body: vstd::utf8::encode_utf8(body@),
        }),
{
    let r = CgiResponse { status, headers: Vec::new(), body: slice_to_vec(body.as_bytes()) };
    assert(r@ =~= (ResponseModel {
        status: status as int,
        headers: seq![],
        body: vstd::utf8::encode_utf8(body@),
    }));
    r
}

/// The answer where no program is found.
pub fn no_script() -> (r: CgiResponse)
    ensures
        r@ == (ResponseModel {
            status: 404,
            headers: seq![],
            body: vstd::utf8::encode_utf8("404 Not Found (no matching CGI script)"@),
        }),
{
    plain_response(404, "404 Not Found (no matching CGI script)")
}

/// The answer where a program cannot be started.
pub fn script_not_started(script: &str, e: &str) -> (r: CgiResponse)
    ensures
        r@ == (ResponseModel {
            status: 500,
            headers: seq![],
            body: vstd::utf8::encode_utf8(
                "failed to run CGI script "@ + quoted(script@) + ": "@ + e@,
            ),
        }),
{
    let shown = quote(script);
    plain_response(
        500,
        cat3(cat("failed to run CGI script ", shown.as_str()).as_str(), ": ", e).as_str(),
    )
}

/// The answer where a program's output cannot be had.
pub fn script_failed(e: &str) -> (r: CgiResponse)
    ensures
        r@ == (ResponseModel {
            status: 500,
            headers: seq![],
            body: vstd::utf8::encode_utf8("CGI script execution failed: "@ + e@),
        }),
{
    plain_response(500, cat("CGI script execution failed: ", e).as_str())
}

/// Output without a blank line is never patched up, nor is output with a line
/// among its headers that is none or that says what no header can: all are
/// answered with 500.
pub proof fn malformed_output_is_refused(raw: Seq<u8>)
    ensures
        divided(raw) is None ==> response_of(raw).status == 500,
        divided(raw) matches Some((head, body)) ==> match header_block(
            text::split(lossy(head), '\n'),
        ) {
            Err(line) => response_of(raw).status == 500,
            Ok((status, headers)) => unfit(headers) is Some ==> response_of(raw).status == 500,
        },
{
}

/// An answer is made of what HTTP has: its status is one that there is, and each
/// of its headers has a name and a value that a header can have.
pub proof fn answers_are_made_of_valid_parts(raw: Seq<u8>)
    ensures
        100 <= response_of(raw).status <= 999,
        forall|i: int|
            0 <= i < response_of(raw).headers.len() ==> is_header_name(
                (#[trigger] response_of(raw).headers[i]).0,
            ) && is_header_value(response_of(raw).headers[i].1),
{
    reveal_strlit("content-type");
    reveal_strlit("text/plain");
    match divided(raw) {
        Some((head, body)) => {
            let lines = text::split(lossy(head), '\n');
            status_is_always_valid(lines);
            match header_block(lines) {
                Ok((status, headers)) => {
                    if unfit(headers) is None {
                        none_is_unfit(headers);
                    }
                },
                Err(line) => {},
            }
        },
        None => {},
    }
}

/// Where no header is unfit, each can be one.
proof fn none_is_unfit(headers: Seq<(Seq<char>, Seq<char>)>)
    requires
        unfit(headers) is None,
    ensures
        forall|i: int|
            0 <= i < headers.len() ==> is_header_name((#[trigger] headers[i]).0) && is_header_value(
                headers[i].1,
            ),
    decreases headers.len(),
{
    if headers.len() > 0 {
        let rest = headers.drop_first();
        none_is_unfit(rest);
        assert forall|i: int| 0 <= i < headers.len() implies is_header_name(
            (#[trigger] headers[i]).0,
        ) && is_header_value(headers[i].1) by {
            if i > 0 {
                assert(rest[i - 1] == headers[i]);
            }
        }
    }
}

/// The status is always one that HTTP has.
proof fn status_is_always_valid(lines: Seq<Seq<char>>)
    ensures
        header_block(lines) matches Ok((status, headers)) ==> 100 <= status <= 999,
    decreases lines.len(),
{
    if lines.len() > 0 {
        status_is_always_valid(lines.drop_last());
    }
}

// ---------------------------------------------------------------------------
// What holds of programs and their output
// ---------------------------------------------------------------------------

/// Where header lines are accepted, the headers are exactly the lines that are
/// neither blank nor a status line, all of them and in order, wherever a status
/// line stands: each is what stands before and behind its first colon, without
/// whitespace around it.
pub proof fn headers_are_the_lines_that_are_left(lines: Seq<Seq<char>>)
    requires
        header_block(lines) is Ok,
    ensures
        header_block(lines)->Ok_0.1 == lines.filter(
            |line: Seq<char>|
                text::trimmed(line).len() > 0 && !text::same_ignoring_ascii_case(
                    text::trimmed(text::split_once(text::trimmed(line), ':')->Some_0.0),
                    "status"@,
                ),
        ).map_values(
            |line: Seq<char>|
                (
                    text::trimmed(text::split_once(text::trimmed(line), ':')->Some_0.0),
                    text::trimmed(text::split_once(text::trimmed(line), ':')->Some_0.1),
                ),
        ),
    decreases lines.len(),
{
    let left = |line: Seq<char>|
        text::trimmed(line).len() > 0 && !text::same_ignoring_ascii_case(
            text::trimmed(text::split_once(text::trimmed(line), ':')->Some_0.0),
            "status"@,
        );
    let header = |line: Seq<char>|
        (
            text::trimmed(text::split_once(text::trimmed(line), ':')->Some_0.0),
            text::trimmed(text::split_once(text::trimmed(line), ':')->Some_0.1),
        );
    reveal(Seq::filter);
    if lines.len() > 0 {
        let rest = lines.drop_last();
        headers_are_the_lines_that_are_left(rest);
        if left(lines.last()) {
            assert(lines.filter(left).map_values(header) == rest.filter(left).map_values(
                header,
            ).push(header(lines.last())));
        }
    }
}

/// Header lines are accepted exactly where each of them is blank or has a colon;
/// otherwise the first that is neither is what is wrong with them.
pub proof fn a_line_without_a_colon_is_refused(lines: Seq<Seq<char>>)
    ensures
        header_block(lines) is Ok <==> forall|i: int|
            0 <= i < lines.len() ==> text::trimmed(#[trigger] lines[i]).len() == 0
                || text::trimmed(lines[i]).contains(':'),
        header_block(lines) matches Err(line) ==> exists|k: int|
            0 <= k < lines.len() && line == text::trimmed(#[trigger] lines[k]) && line.len() > 0
                && !line.contains(':') && forall|i: int|
                0 <= i < k ==> text::trimmed(#[trigger] lines[i]).len() == 0 || text::trimmed(
                    lines[i],
                ).contains(':'),
    decreases lines.len(),
{
    if lines.len() > 0 {
        let rest = lines.drop_last();
        let n = lines.len() - 1;
        a_line_without_a_colon_is_refused(rest);
        match header_block(rest) {
            Err(line) => {
                let k = choose|k: int|
                    0 <= k < rest.len() && line == text::trimmed(#[trigger] rest[k]) && line.len()
                        > 0 && !line.contains(':') && forall|i: int|
                        0 <= i < k ==> text::trimmed(#[trigger] rest[i]).len() == 0
                            || text::trimmed(rest[i]).contains(':');
                assert(line == text::trimmed(lines[k]));
                assert forall|i: int| 0 <= i < k implies text::trimmed(#[trigger] lines[i]).len()
                    == 0 || text::trimmed(lines[i]).contains(':') by {
                    assert(rest[i] == lines[i]);
                }
            },
            Ok(_) => {
                assert forall|i: int| 0 <= i < n implies text::trimmed(#[trigger] lines[i]).len()
                    == 0 || text::trimmed(lines[i]).contains(':') by {
                    assert(rest[i] == lines[i]);
                }
                assert(text::trimmed(lines[n]) == text::trimmed(lines.last()));
            },
        }
    }
}

/// A status line sets the status and nothing else, and any other line leaves the
/// status as it is; without one it is 200. The number that a status line begins
/// with counts where HTTP has such a status; another number counts as 200, and
/// what is no number changes nothing.
pub proof fn a_status_line_sets_the_status_alone(
    lines: Seq<Seq<char>>,
    line: Seq<char>,
    name: Seq<char>,
    value: Seq<char>,
)
    requires
        header_block(lines) is Ok,
        text::trimmed(line) == name.push(':') + value,
        !name.contains(':'),
    ensures
        header_block(Seq::<Seq<char>>::empty()) == Ok::<
            (int, Seq<(Seq<char>, Seq<char>)>),
            Seq<char>,
        >((200, seq![])),
        ({
            let before = header_block(lines)->Ok_0;
            let code = number::integer_in(first_word(text::trimmed(value)), 0, 65535);
            let after = header_block(lines.push(line));
            &&& after is Ok
            &&& text::same_ignoring_ascii_case(text::trimmed(name), "status"@) ==> {
                &&& after->Ok_0.1 == before.1
                &&& code is None ==> after->Ok_0.0 == before.0
                &&& code matches Some(code) ==> 100 <= code <= 999 ==> after->Ok_0.0 == code
                &&& code matches Some(code) ==> !(100 <= code <= 999) ==> after->Ok_0.0 == 200
            }
            &&& !text::same_ignoring_ascii_case(text::trimmed(name), "status"@) ==> {
                &&& after->Ok_0.0 == before.0
                &&& after->Ok_0.1 == before.1.push((text::trimmed(name), text::trimmed(value)))
            }
        }),
{
    assert(lines.push(line).drop_last() == lines);
    text::split_once_divides(text::trimmed(line), ':', name, value);
    let whole = name.push(':') + value;
    assert(whole[name.len() as int] == ':');
}

/// Blank lines among headers say nothing.
pub proof fn blank_lines_say_nothing(lines: Seq<Seq<char>>, line: Seq<char>)
    requires
        text::trimmed(line).len() == 0,
    ensures
        header_block(lines.push(line)) == header_block(lines),
{
    assert(lines.push(line).drop_last() == lines);
}

/// Header lines in two lots say what both say: the headers of the one, and then
/// those of the other.
pub proof fn header_lines_go_on(first: Seq<Seq<char>>, second: Seq<Seq<char>>)
    requires
        header_block(first) is Ok,
        header_block(second) is Ok,
    ensures
        header_block(first + second) is Ok,
        header_block(first + second)->Ok_0.1 == header_block(first)->Ok_0.1 + header_block(
            second,
        )->Ok_0.1,
    decreases second.len(),
{
    if second.len() == 0 {
        assert(first + second == first);
    } else {
        let rest = second.drop_last();
        header_lines_go_on(first, rest);
        assert((first + second).drop_last() == first + rest);
        assert((first + second).last() == second.last());
        let a = header_block(first)->Ok_0.1;
        let b = header_block(rest)->Ok_0.1;
        assert forall|h: (Seq<char>, Seq<char>)| #[trigger] (a + b).push(h) == a + b.push(h) by {}
    }
}

/// A word ends at the first whitespace, or with the text.
pub proof fn a_word_ends_at_whitespace(s: Seq<char>)
    ensures
        text::begins_with(s, first_word(s)),
        forall|i: int|
            0 <= i < first_word(s).len() ==> !text::is_white(#[trigger] first_word(s)[i]),
        first_word(s).len() < s.len() ==> text::is_white(s[first_word(s).len() as int]),
    decreases s.len(),
{
    if s.len() > 0 && !text::is_white(s.first()) {
        let rest = s.drop_first();
        let word = first_word(s);
        a_word_ends_at_whitespace(rest);
        assert forall|i: int| 0 <= i < word.len() implies !text::is_white(#[trigger] word[i]) by {
            if i > 0 {
                assert(word[i] == first_word(rest)[i - 1]);
            }
        }
        assert(rest.take(first_word(rest).len() as int) == first_word(rest));
        assert(s.take(word.len() as int) == word) by {
            assert forall|i: int| 0 <= i < word.len() implies s[i] == word[i] by {
                if i > 0 {
                    assert(rest.take(first_word(rest).len() as int)[i - 1] == first_word(rest)[i
                        - 1]);
                }
            }
        }
        if word.len() < s.len() {
            assert(rest[first_word(rest).len() as int] == s[word.len() as int]);
        }
    } else {
        assert(s.take(0) == first_word(s));
    }
}

/// A pattern is found at the first place it stands, from a place on, and only where
/// it stands at all.
pub proof fn patterns_are_found_where_they_first_stand(bytes: Seq<u8>, pattern: Seq<u8>, i: int)
    requires
        0 <= i,
    ensures
        first_from(bytes, pattern, i) matches Some(k) ==> i <= k && k + pattern.len() <= bytes.len()
            && bytes.subrange(k, k + pattern.len()) == pattern && forall|j: int|
            i <= j < k ==> #[trigger] bytes.subrange(j, j + pattern.len()) != pattern,
        first_from(bytes, pattern, i) is None ==> forall|j: int|
            i <= j && j + pattern.len() <= bytes.len() ==> #[trigger] bytes.subrange(
                j,
                j + pattern.len(),
            ) != pattern,
    decreases bytes.len() - i + 1,
{
    if i + pattern.len() <= bytes.len() && !stands_at(bytes, pattern, i) {
        patterns_are_found_where_they_first_stand(bytes, pattern, i + 1);
        match first_from(bytes, pattern, i) {
            Some(k) => {
                assert forall|j: int| i <= j < k implies #[trigger] bytes.subrange(
                    j,
                    j + pattern.len(),
                ) != pattern by {
                    if j == i {
                        assert(!stands_at(bytes, pattern, i));
                    }
                }
            },
            None => {
                assert forall|j: int|
                    i <= j && j + pattern.len() <= bytes.len() implies #[trigger] bytes.subrange(
                    j,
                    j + pattern.len(),
                ) != pattern by {
                    if j == i {
                        assert(!stands_at(bytes, pattern, i));
                    }
                }
            },
        }
    }
}

/// An output is divided at its first blank line: the headers, the blank line and the
/// body are together all of it, and the headers have no such line in them. A blank
/// line with carriage returns is looked for first. Without either nothing is
/// divided.
pub proof fn output_is_divided_at_the_blank_line(raw: Seq<u8>)
    ensures
        divided(raw) matches Some((head, body)) ==> (raw == head + seq![13u8, 10u8, 13u8, 10u8]
            + body && forall|j: int|
            0 <= j < head.len() && j + 4 <= raw.len() ==> #[trigger] raw.subrange(j, j + 4)
                != seq![13u8, 10u8, 13u8, 10u8]) || (raw == head + seq![10u8, 10u8] + body
            && (forall|j: int|
            0 <= j < head.len() && j + 2 <= raw.len() ==> #[trigger] raw.subrange(j, j + 2)
                != seq![10u8, 10u8]) && forall|j: int|
            0 <= j && j + 4 <= raw.len() ==> #[trigger] raw.subrange(j, j + 4)
                != seq![13u8, 10u8, 13u8, 10u8]),
        divided(raw) is None <==> (forall|j: int|
            0 <= j && j + 4 <= raw.len() ==> #[trigger] raw.subrange(j, j + 4)
                != seq![13u8, 10u8, 13u8, 10u8]) && (forall|j: int|
            0 <= j && j + 2 <= raw.len() ==> #[trigger] raw.subrange(j, j + 2)
                != seq![10u8, 10u8]),
{
    patterns_are_found_where_they_first_stand(raw, blank_crlf(), 0);
    patterns_are_found_where_they_first_stand(raw, blank_lf(), 0);
    match (first_from(raw, blank_crlf(), 0), first_from(raw, blank_lf(), 0)) {
        (Some(i), _) => {
            assert(raw.subrange(i, i + 4) == blank_crlf());
            assert(raw == raw.take(i) + raw.subrange(i, i + 4) + raw.skip(i + 4));
        },
        (None, Some(i)) => {
            assert(raw.subrange(i, i + 2) == blank_lf());
            assert(raw == raw.take(i) + raw.subrange(i, i + 2) + raw.skip(i + 2));
        },
        (None, None) => {},
    }
}

/// A header that cannot be one is found where there is any, and it is the first.
pub proof fn the_first_unfit_header_is_found(headers: Seq<(Seq<char>, Seq<char>)>)
    ensures
        unfit(headers) is None <==> forall|i: int|
            0 <= i < headers.len() ==> is_header_name((#[trigger] headers[i]).0) && is_header_value(
                headers[i].1,
            ),
        unfit(headers) matches Some(name) ==> exists|k: int|
            0 <= k < headers.len() && (#[trigger] headers[k]).0 == name && !(is_header_name(
                headers[k].0,
            ) && is_header_value(headers[k].1)) && forall|i: int|
                0 <= i < k ==> is_header_name((#[trigger] headers[i]).0) && is_header_value(
                    headers[i].1,
                ),
    decreases headers.len(),
{
    if headers.len() > 0 {
        let rest = headers.drop_first();
        the_first_unfit_header_is_found(rest);
        if is_header_name(headers[0].0) && is_header_value(headers[0].1) {
            match unfit(rest) {
                None => {
                    none_is_unfit(headers);
                },
                Some(name) => {
                    let k = choose|k: int|
                        0 <= k < rest.len() && (#[trigger] rest[k]).0 == name && !(is_header_name(
                            rest[k].0,
                        ) && is_header_value(rest[k].1)) && forall|i: int|
                            0 <= i < k ==> is_header_name((#[trigger] rest[i]).0)
                                && is_header_value(rest[i].1);
                    assert(headers[k + 1] == rest[k]);
                    assert forall|i: int| 0 <= i < k + 1 implies is_header_name(
                        (#[trigger] headers[i]).0,
                    ) && is_header_value(headers[i].1) by {
                        if i > 0 {
                            assert(rest[i - 1] == headers[i]);
                        }
                    }
                },
            }
        } else {
            assert(headers[0].0 == unfit(headers)->Some_0);
        }
    }
}

/// Output that is well-formed is answered as it says: with its status, its headers
/// and its body, every byte of it. What is wrong with any other output is said in the
/// answer, which is 500 and plain text.
pub proof fn well_formed_output_is_answered_as_it_is(
    raw: Seq<u8>,
    head: Seq<u8>,
    body: Seq<u8>,
    status: int,
    headers: Seq<(Seq<char>, Seq<char>)>,
    reason: Seq<char>,
)
    ensures
        divided(raw) == Some((head, body)) && header_block(text::split(lossy(head), '\n')) == Ok::<
            (int, Seq<(Seq<char>, Seq<char>)>),
            Seq<char>,
        >((status, headers)) && (forall|i: int|
            0 <= i < headers.len() ==> is_header_name((#[trigger] headers[i]).0) && is_header_value(
                headers[i].1,
            )) ==> response_of(raw).status == status && response_of(raw).headers == headers
            && response_of(raw).body == body,
        malformed(reason).status == 500,
        malformed(reason).headers == seq![("content-type"@, "text/plain"@)],
        exists|rest: Seq<char>|
            malformed(reason).body == vstd::utf8::encode_utf8(
                #[trigger] ("500 malformed CGI output: "@ + reason + rest),
            ),
{
    the_first_unfit_header_is_found(headers);
    let rest =
        "\n(strict parsing, matching Apache mod_cgi - a real host would answer its generic 500 page here)\n"@;
    assert(malformed(reason).body == vstd::utf8::encode_utf8(
        "500 malformed CGI output: "@ + reason + rest,
    ));
}

/// The parts of a request's path are what stands between its slashes, where anything
/// does, all of it and in order.
pub proof fn parts_are_what_stands_between_slashes(rest: Seq<char>)
    ensures
        parts(rest) == text::split(rest, '/').filter(|part: Seq<char>| part.len() > 0),
{
    seqs::filter_agrees(
        text::split(rest, '/'),
        paths::nonempty(),
        |part: Seq<char>| part.len() > 0,
    );
}

/// The endings are these, in this order.
pub proof fn endings_are_tried_in_order()
    ensures
        endings().len() == 5,
        endings()[0] == ""@,
        endings()[1] == ".exe"@,
        endings()[2] == ".cmd"@,
        endings()[3] == ".bat"@,
        endings()[4] == ".com"@,
{
}

/// A candidate for the first parts of a path is the file that they name, with an
/// ending, from the programs' folder on; it is called by those parts alone, and the
/// others are behind it, after a slash.
pub proof fn a_candidate_is_named_by_its_parts(
    platform: Platform,
    cgi_bin: Seq<char>,
    parts: Seq<Seq<char>>,
    n: int,
    ending: Seq<char>,
)
    requires
        0 < n <= parts.len(),
    ensures
        ({
            let c = candidate(platform, cgi_bin, parts, n, ending);
            &&& c.script_name == text::joined(parts.subrange(0, n), '/')
            &&& c.path == paths::led_to(platform, cgi_bin, c.script_name + ending)
            &&& n == parts.len() ==> c.path_info == Seq::<char>::empty()
            &&& n < parts.len() ==> c.path_info == seq!['/'] + text::joined(
                parts.subrange(n, parts.len() as int),
                '/',
            )
        }),
{
    reveal_strlit("/");
    reveal_strlit("");
    assert(parts.take(n) == parts.subrange(0, n));
    assert(parts.skip(n) == parts.subrange(n, parts.len() as int));
    assert("/"@ == seq!['/']);
    assert(""@ == Seq::<char>::empty());
}

/// Whatever is in the programs' folder counts as being in it, at any depth; and a
/// program is found exactly where a file is there.
pub proof fn what_is_in_the_folder_is_found(
    platform: Platform,
    cgi_bin: Seq<char>,
    name: Seq<char>,
    probe: Probe,
)
    ensures
        lies_in(platform, layout::inside(platform, cgi_bin, name), cgi_bin),
        file_inside(platform, probe, cgi_bin) <==> probe is Something && probe->is_file && (
        probe->path@ == cgi_bin || exists|name: Seq<char>|
            probe->path@ == #[trigger] layout::inside(platform, cgi_bin, name)),
{
    reveal_strlit("");
    let prefix = layout::inside(platform, cgi_bin, ""@);
    assert(layout::inside(platform, cgi_bin, name) == prefix + name);
    assert((prefix + name).take(prefix.len() as int) == prefix);
    if probe is Something {
        let path = probe->path@;
        if text::begins_with(path, prefix) {
            let rest = path.skip(prefix.len() as int);
            assert(path == prefix + rest);
            assert(path == layout::inside(platform, cgi_bin, rest));
        }
        if exists|name: Seq<char>| path == #[trigger] layout::inside(platform, cgi_bin, name) {
            let rest = choose|name: Seq<char>|
                path == #[trigger] layout::inside(platform, cgi_bin, name);
            assert(path == prefix + rest);
            assert(path.take(prefix.len() as int) == prefix);
        }
    }
}

/// The value of a header is that of the first header of its name; where there is
/// none, or that one has no text, it is empty.
pub proof fn the_first_header_of_a_name_counts(
    headers: Seq<(String, Option<String>)>,
    name: Seq<char>,
    k: int,
)
    requires
        0 <= k <= headers.len(),
        forall|i: int| 0 <= i < k ==> (#[trigger] headers[i]).0@ != name,
        k < headers.len() ==> headers[k].0@ == name,
    ensures
        k < headers.len() && headers[k].1 is Some ==> header_text(headers, name)
            == headers[k].1->Some_0@,
        k == headers.len() || headers[k].1 is None ==> header_text(headers, name) == Seq::<
            char,
        >::empty(),
    decreases headers.len(),
{
    reveal_strlit("");
    assert(""@ == Seq::<char>::empty());
    if headers.len() > 0 && k > 0 {
        let rest = headers.drop_first();
        assert(headers[0].0@ != name);
        assert forall|i: int| 0 <= i < k - 1 implies (#[trigger] rest[i]).0@ != name by {
            assert(rest[i] == headers[i + 1]);
        }
        the_first_header_of_a_name_counts(rest, name, k - 1);
    }
}

/// Every header with a text goes into a variable of its own, in order, but for those
/// of the body's type and length.
pub proof fn every_header_goes_into_a_variable(headers: Seq<(String, Option<String>)>)
    ensures
        header_variables(headers) == headers.filter(
            |h: (String, Option<String>)|
                h.1 is Some && h.0@ != "content-type"@ && h.0@ != "content-length"@,
        ).map_values(|h: (String, Option<String>)| (variable(h.0@), h.1->Some_0@)),
    decreases headers.len(),
{
    let goes = |h: (String, Option<String>)|
        h.1 is Some && h.0@ != "content-type"@ && h.0@ != "content-length"@;
    let pair = |h: (String, Option<String>)| (variable(h.0@), h.1->Some_0@);
    reveal(Seq::filter);
    if headers.len() > 0 {
        let rest = headers.drop_last();
        every_header_goes_into_a_variable(rest);
        if goes(headers.last()) {
            assert(headers.filter(goes).map_values(pair) == rest.filter(goes).map_values(
                pair,
            ).push(pair(headers.last())));
        }
    }
}

/// A variable's name is made character by character: a dash becomes an underscore,
/// anything else its capital, and `HTTP_` stands before it all.
pub proof fn variables_are_named_by_character(a: Seq<char>, b: Seq<char>, c: char)
    ensures
        variable(a) == seq!['H', 'T', 'T', 'P', '_'] + all_in_variable(a),
        all_in_variable(a + b) == all_in_variable(a) + all_in_variable(b),
        all_in_variable(seq![c]) == if c == '-' {
            seq!['_']
        } else {
            uppercase(c)
        },
    decreases b.len(),
{
    reveal_strlit("HTTP_");
    reveal_strlit("_");
    assert("HTTP_"@ == seq!['H', 'T', 'T', 'P', '_']);
    assert("_"@ == seq!['_']);
    assert(seq![c].drop_last() == Seq::<char>::empty());
    assert(all_in_variable(Seq::<char>::empty()) == Seq::<char>::empty());
    assert(Seq::<char>::empty() + in_variable(c) == in_variable(c));
    if b.len() == 0 {
        assert(a + b == a);
        assert(all_in_variable(a) + all_in_variable(b) == all_in_variable(a));
    } else {
        variables_are_named_by_character(a, b.drop_last(), c);
        assert((a + b).drop_last() == a + b.drop_last());
        assert((a + b).last() == b.last());
    }
}

/// A program is told all of its request: fourteen variables that every program has,
/// each with what it is about, and behind them those of the headers.
pub proof fn a_program_is_told_all_of_its_request(request: CgiRequest)
    ensures
        ({
            let env = environment(request);
            &&& env.len() == 14 + header_variables(request.headers@).len()
            &&& env.skip(14) == header_variables(request.headers@)
            &&& env[0] == ("GATEWAY_INTERFACE"@, "CGI/1.1"@)
            &&& env[1] == ("SERVER_PROTOCOL"@, "HTTP/1.1"@)
            &&& env[2] == ("SERVER_SOFTWARE"@, "fileserver-cgi-dev/0.1"@)
            &&& env[3] == ("SERVER_NAME"@, "localhost"@)
            &&& env[4] == ("SERVER_PORT"@, number::decimal(request.port as nat))
            &&& env[5] == ("REQUEST_METHOD"@, request.method@)
            &&& env[6] == ("SCRIPT_NAME"@, "/cgi-bin/"@ + request.script_name@)
            &&& env[7] == ("PATH_INFO"@, request.path_info@)
            &&& env[8] == ("REQUEST_URI"@, request.uri@)
            &&& env[9].0 == "QUERY_STRING"@
            &&& request.query matches Some(query) ==> env[9].1 == query@
            &&& request.query is None ==> env[9].1 == ""@
            &&& env[10] == ("REMOTE_ADDR"@, request.remote_addr@)
            &&& env[11] == ("DOCUMENT_ROOT"@, request.document_root@)
            &&& env[12] == ("CONTENT_LENGTH"@, number::decimal(request.content_length as nat))
            &&& env[13] == ("CONTENT_TYPE"@, header_text(request.headers@, "content-type"@))
        }),
{
    assert(environment(request).skip(14) == header_variables(request.headers@));
}

/// Of the files tried the first that is inside is run: where one is inside there is
/// a first, there is only one, and nothing tried before it is inside.
pub proof fn the_first_file_inside_is_run(
    platform: Platform,
    probes: Seq<Probe>,
    cgi_bin: Seq<char>,
    j: int,
    k: int,
)
    requires
        0 <= j < probes.len(),
    ensures
        file_inside(platform, probes[j], cgi_bin) ==> exists|first: int|
            first <= j && #[trigger] first_inside(platform, probes, cgi_bin, first),
        first_inside(platform, probes, cgi_bin, k) ==> 0 <= k < probes.len() && file_inside(
            platform,
            probes[k],
            cgi_bin,
        ),
        first_inside(platform, probes, cgi_bin, k) && j < k ==> !file_inside(
            platform,
            probes[j],
            cgi_bin,
        ),
        first_inside(platform, probes, cgi_bin, j) && first_inside(platform, probes, cgi_bin, k)
            ==> j == k,
    decreases j,
{
    if file_inside(platform, probes[j], cgi_bin) {
        if exists|i: int| 0 <= i < j && file_inside(platform, #[trigger] probes[i], cgi_bin) {
            let i = choose|i: int|
                0 <= i < j && file_inside(platform, #[trigger] probes[i], cgi_bin);
            the_first_file_inside_is_run(platform, probes, cgi_bin, i, k);
        } else {
            assert(first_inside(platform, probes, cgi_bin, j));
        }
    }
}

/// In a variable's name a dash becomes an underscore and a small letter the capital of
/// its place in the alphabet; any other ASCII character stays.
pub proof fn ascii_names_are_put_in_capitals(c: char, s: Seq<char>)
    ensures
        ascii_in_variable('-') == '_',
        'a' <= c <= 'z' ==> ascii_in_variable(c) as int - 'A' as int == c as int - 'a' as int,
        c != '-' && !('a' <= c <= 'z') ==> ascii_in_variable(c) == c,
        is_ascii(s) <==> forall|i: int| 0 <= i < s.len() ==> (#[trigger] s[i]) <= '\x7f',
{
    if is_ascii(s) {
        assert forall|i: int| 0 <= i < s.len() implies (#[trigger] s[i]) <= '\x7f' by {
            ascii_comes_first(s[i]);
        }
    }
    if forall|i: int| 0 <= i < s.len() ==> (#[trigger] s[i]) <= '\x7f' {
        assert forall|i: int| 0 <= i < s.len() implies (#[trigger] s[i] as u32) < 0x80 by {
            ascii_comes_first(s[i]);
        }
    }
}

/// The ASCII characters are the first of all.
proof fn ascii_comes_first(c: char)
    ensures
        (c as u32) < 0x80 <==> c <= '\x7f',
{
}

/// A list of pairs holds both texts of each, all of them and in order.
pub proof fn pairs_are_held_as_they_are(pairs: Seq<(String, String)>, i: int)
    ensures
        pair_texts(pairs).len() == pairs.len(),
        0 <= i < pairs.len() ==> pair_texts(pairs)[i] == (pairs[i].0@, pairs[i].1@),
{
}

/// A response is its status, its headers and its body, and a candidate the file and the
/// two texts that its program is told.
pub proof fn responses_are_seen_whole(response: CgiResponse, candidate: Candidate, i: int)
    ensures
        response@.status == response.status,
        response@.headers.len() == response.headers@.len(),
        0 <= i < response.headers@.len() ==> response@.headers[i] == (
            response.headers@[i].0@,
            response.headers@[i].1@,
        ),
        response@.body == response.body@,
        candidate@.path == candidate.path@,
        candidate@.script_name == candidate.script_name@,
        candidate@.path_info == candidate.path_info@,
{
}

} // verus!
