//! Where a board's files live: the event log beside a source, the directory a source sits in and
//! the board name its output files share. Path syntax is read through `std::path::Path`.

use crate::model::opt_view;
use crate::text::{str_eq, string_of};
use vstd::prelude::*;

verus! {

broadcast use vstd::string::group_string_axioms;

/// The final component of a path, as `Path::file_name` reads it (`None` when the path ends in
/// `..` or has no file name). How a path splits into components is fixed by the build target
/// (Windows also splits on `\` and reads drive prefixes), so this is a function of the text.
pub uninterp spec fn path_file_name(p: Seq<char>) -> Option<Seq<char>>;

/// The path without its final component, as `Path::parent` reads it (`None` for a root or an
/// empty path).
pub uninterp spec fn path_parent(p: Seq<char>) -> Option<Seq<char>>;

/// `base` joined with `name`, as `Path::join` writes it.
pub uninterp spec fn path_join(base: Seq<char>, name: Seq<char>) -> Seq<char>;

/// The index of the last `.` in a file name, if it has one.
pub open spec fn last_dot(n: Seq<char>) -> Option<int>
    decreases n.len(),
{
    if n.len() == 0 {
        None
    } else if n.last() == '.' {
        Some(n.len() - 1)
    } else {
        last_dot(n.drop_last())
    }
}

/// The stem of a file name: what precedes its last `.`, or the whole name when it has no `.`
/// but a leading one.
pub open spec fn name_stem(n: Seq<char>) -> Seq<char> {
    match last_dot(n) {
        Some(i) if i > 0 => n.take(i),
        _ => n,
    }
}

/// The extension of a file name: what follows its last `.`, and none when it has no `.` but a
/// leading one.
pub open spec fn name_extension(n: Seq<char>) -> Option<Seq<char>> {
    match last_dot(n) {
        Some(i) if i > 0 => Some(n.skip(i + 1)),
        _ => None,
    }
}

/// The file stem of a path, as `Path::file_stem` reads it: the stem of its file name.
pub open spec fn path_file_stem(p: Seq<char>) -> Option<Seq<char>> {
    match path_file_name(p) {
        Some(n) => Some(name_stem(n)),
        None => None,
    }
}

/// The extension of a path, as `Path::extension` reads it: the extension of its file name.
pub open spec fn path_extension(p: Seq<char>) -> Option<Seq<char>> {
    match path_file_name(p) {
        Some(n) => name_extension(n),
        None => None,
    }
}

/// A text free of `/`, `\` and `:`, the characters that split a path or, on Windows, start a
/// drive prefix.
pub open spec fn plain_chars(n: Seq<char>) -> bool {
    forall|i: int| 0 <= i < n.len() ==> #[trigger] n[i] != '/' && n[i] != '\\' && n[i] != ':'
}

/// A name that is one ordinary path component on every build target: not empty, not `.` or `..`,
/// and of plain characters.
pub open spec fn plain_name(n: Seq<char>) -> bool {
    &&& n.len() > 0
    &&& n != "."@
    &&& n != ".."@
    &&& plain_chars(n)
}

/// `Path::file_name`, read as text; `None` when there is none or it is not valid text.
#[verifier::external_body]
fn file_name_of(p: &str) -> (r: Option<String>)
    ensures
        opt_view(r) == path_file_name(p@),
{
    match std::path::Path::new(p).file_name() {
        Some(n) => match n.to_str() {
            Some(t) => Some(t.to_string()),
            None => None,
        },
        None => None,
    }
}

/// `Path::file_stem`, read as text. Its documentation: no stem without a file name; else the
/// whole name when it has no `.` but a leading one, else what precedes the last `.`.
#[verifier::external_body]
fn file_stem_of(p: &str) -> (r: Option<String>)
    ensures
        opt_view(r) == path_file_stem(p@),
{
    match std::path::Path::new(p).file_stem() {
        Some(n) => match n.to_str() {
            Some(t) => Some(t.to_string()),
            None => None,
        },
        None => None,
    }
}

/// `Path::parent`, read as text; `None` when there is none or it is not valid text.
#[verifier::external_body]
fn parent_of(p: &str) -> (r: Option<String>)
    ensures
        opt_view(r) == path_parent(p@),
{
    match std::path::Path::new(p).parent() {
        Some(n) => match n.to_str() {
            Some(t) => Some(t.to_string()),
            None => None,
        },
        None => None,
    }
}

/// `Path::extension`, read as text. Its documentation: none without a file name, none when the
/// name has no `.` but a leading one, else what follows the last `.`.
#[verifier::external_body]
fn extension_of(p: &str) -> (r: Option<String>)
    ensures
        opt_view(r) == path_extension(p@),
{
    match std::path::Path::new(p).extension() {
        Some(n) => match n.to_str() {
            Some(t) => Some(t.to_string()),
            None => None,
        },
        None => None,
    }
}

/// `Path::join`, written as text (both parts are text, so the result is). Joining a relative
/// name adjoins it as the path's new final component, and `Path::file_name` reads the final
/// component: so the joined path's file name is a plain name joined to it. Which file name a
/// joined path has for any other name is left unsaid.
#[verifier::external_body]
fn join_of(base: &str, name: &str) -> (r: String)
    ensures
        r@ == path_join(base@, name@),
        plain_name(name@) ==> path_file_name(r@) == Some(name@),
{
    std::path::Path::new(base).join(name).to_string_lossy().into_owned()
}

/// Whether an extension marks an event log rather than a board file.
pub open spec fn is_log_ext(ext: Option<Seq<char>>) -> bool {
    ext == Some("jsonl"@) || ext == Some("log"@)
}

/// Is this path an event log (as opposed to a board file)? Chosen by extension, `.jsonl` or
/// `.log`, so the same commands accept either source.
pub fn is_log_path(path: &str) -> (r: bool)
    ensures
        r == is_log_ext(path_extension(path@)),
{
    match extension_of(path) {
        Some(e) => str_eq(e.as_str(), "jsonl") || str_eq(e.as_str(), "log"),
        None => false,
    }
}

/// The directory a path sits in: its parent, or `.` for a bare file name.
pub open spec fn dir_of_spec(p: Seq<char>) -> Seq<char> {
    match path_parent(p) {
        Some(d) => if d.len() > 0 {
            d
        } else {
            "."@
        },
        None => "."@,
    }
}

/// The directory a path sits in: its parent, or `.` when it has none (a bare file name).
pub fn dir_of(path: &str) -> (r: String)
    ensures
        r@ == dir_of_spec(path@),
{
    match parent_of(path) {
        Some(d) => if d.as_str().is_empty() {
            ".".to_string()
        } else {
            d
        },
        None => ".".to_string(),
    }
}

/// `s` without the suffix `suf`, when it ends with it.
pub open spec fn strip_suffix(s: Seq<char>, suf: Seq<char>) -> Option<Seq<char>> {
    if suf.len() <= s.len() && s.subrange(s.len() - suf.len(), s.len() as int) == suf {
        Some(s.subrange(0, s.len() - suf.len()))
    } else {
        None
    }
}

/// The suffix of a board file.
pub open spec fn model_suffix() -> Seq<char> {
    ".model.json"@
}

/// The suffix that turns a board name into its event log's file name.
pub open spec fn log_suffix() -> Seq<char> {
    ".event-log.jsonl"@
}

/// The board name a source file names: its file name without a `.model.json` or
/// `.event-log.jsonl` suffix (when something is left), else its file stem, else `board`.
pub open spec fn output_stem_spec(p: Seq<char>) -> Seq<char> {
    let name = match path_file_name(p) {
        Some(n) => n,
        None => Seq::empty(),
    };
    match strip_suffix(name, model_suffix()) {
        Some(b) if b.len() > 0 => b,
        _ => match strip_suffix(name, log_suffix()) {
            Some(b) if b.len() > 0 => b,
            _ => match path_file_stem(p) {
                Some(s) if s.len() > 0 => s,
                _ => "board"@,
            },
        },
    }
}

fn strip_suffix_exec(s: &Vec<char>, suf: &str) -> (r: Option<Vec<char>>)
    ensures
        match r {
            Some(b) => strip_suffix(s@, suf@) == Some(b@),
            None => strip_suffix(s@, suf@) is None,
        },
{
    let t = crate::text::chars_of(suf);
    if t.len() > s.len() {
        return None;
    }
    let off = s.len() - t.len();
    let mut k: usize = 0;
    while k < t.len()
        invariant
            k <= t.len(),
            off + t.len() == s.len(),
            t@ == suf@,
            forall|q: int| 0 <= q < k ==> s@[off + q] == #[trigger] t@[q],
        decreases t.len() - k,
    {
        if s[off + k] != t[k] {
            assert(s@.subrange(off as int, s.len() as int)[k as int] != suf@[k as int]);
            return None;
        }
        k = k + 1;
    }
    assert(s@.subrange(off as int, s.len() as int) =~= suf@);
    let mut b: Vec<char> = Vec::new();
    let mut i: usize = 0;
    while i < off
        invariant
            i <= off <= s.len(),
            b@ == s@.subrange(0, i as int),
        decreases off - i,
    {
        b.push(s[i]);
        i = i + 1;
        assert(b@ =~= s@.subrange(0, i as int));
    }
    Some(b)
}

/// The board name derived from a source file: the join key for every file of one board, so
/// sibling boards in a directory keep apart. A board file and its log give the same name
/// (`orders.model.json` and `orders.event-log.jsonl` are both `orders`); another file gives its
/// stem (`foo.json` is `foo`), and a path with no usable stem gives `board`.
pub fn output_stem(source: &str) -> (r: String)
    ensures
        r@ == output_stem_spec(source@),
{
    let name = match file_name_of(source) {
        Some(n) => crate::text::chars_of(n.as_str()),
        None => Vec::new(),
    };
    proof {
        reveal_strlit(".model.json");
        reveal_strlit(".event-log.jsonl");
    }
    match strip_suffix_exec(&name, ".model.json") {
        Some(b) => {
            if b.len() > 0 {
                return string_of(&b);
            }
        },
        None => {},
    }
    match strip_suffix_exec(&name, ".event-log.jsonl") {
        Some(b) => {
            if b.len() > 0 {
                return string_of(&b);
            }
        },
        None => {},
    }
    match file_stem_of(source) {
        Some(s) => {
            if !s.as_str().is_empty() {
                return s;
            }
        },
        None => {},
    }
    "board".to_string()
}

/// The event log for a source: `<stem>.event-log.jsonl` in the source's directory, where `<stem>`
/// is the source's board name, so each board owns its own log.
pub open spec fn log_beside_spec(p: Seq<char>) -> Seq<char> {
    path_join(dir_of_spec(p), output_stem_spec(p) + log_suffix())
}

/// The event log for a source: `<stem>.event-log.jsonl` beside it
/// (`/a/b/orders.model.json` gives `/a/b/orders.event-log.jsonl`). A board file and its log share
/// one board name: the log's own board name is the source's, whenever that name is of plain
/// characters (on Windows a `\` or `:` in it would start a new root or a drive).
pub fn log_beside(source: &str) -> (r: String)
    ensures
        r@ == log_beside_spec(source@),
        plain_chars(output_stem_spec(source@)) ==> output_stem_spec(r@) == output_stem_spec(
            source@,
        ),
{
    let dir = dir_of(source);
    let stem = output_stem(source);
    let mut name = crate::text::chars_of(stem.as_str());
    let mut suf = crate::text::chars_of(".event-log.jsonl");
    name.append(&mut suf);
    let n = string_of(&name);
    proof {
        reveal_strlit(".event-log.jsonl");
        reveal_strlit(".model.json");
        reveal_strlit(".");
        reveal_strlit("..");
        let st = output_stem_spec(source@);
        let nv = n@;
        assert(nv == st + log_suffix());
        if plain_chars(st) {
            assert forall|i: int| 0 <= i < nv.len() implies #[trigger] nv[i] != '/' && nv[i]
                != '\\' && nv[i] != ':' by {
                if i < st.len() {
                    assert(nv[i] == st[i]);
                } else {
                    assert(nv[i] == log_suffix()[i - st.len()]);
                }
            }
            assert(nv.len() != "."@.len());
            assert(nv.len() != ".."@.len());
        }
    }
    let r = join_of(dir.as_str(), n.as_str());
    proof {
        let st = output_stem_spec(source@);
        let nv = n@;
        if plain_chars(st) {
            output_stem_is_never_empty(source@);
            assert(path_file_name(r@) == Some(nv));
            assert(nv.last() == 'l');
            assert(model_suffix().last() == 'n');
            assert(nv.subrange(nv.len() - model_suffix().len(), nv.len() as int).last() == 'l');
            assert(strip_suffix(nv, model_suffix()) is None);
            assert(nv.subrange(nv.len() - log_suffix().len(), nv.len() as int) =~= log_suffix());
            assert(nv.subrange(0, nv.len() - log_suffix().len()) =~= st);
            assert(strip_suffix(nv, log_suffix()) == Some(st));
        }
    }
    r
}

/// Where a rendered file of a board goes: `<stem>.<ext>` in the source's directory, named by the
/// source's board name (`/a/orders.model.json` with `svg` gives `/a/orders.svg`).
pub open spec fn output_path_spec(p: Seq<char>, ext: Seq<char>) -> Seq<char> {
    path_join(dir_of_spec(p), output_stem_spec(p) + seq!['.'] + ext)
}

/// Where a rendered file of a board goes: `<stem>.<ext>` beside the source, so every file of one
/// board shares its name.
pub fn output_path(source: &str, ext: &str) -> (r: String)
    ensures
        r@ == output_path_spec(source@, ext@),
{
    let dir = dir_of(source);
    let stem = output_stem(source);
    let mut name = crate::text::chars_of(stem.as_str());
    name.push('.');
    let mut e = crate::text::chars_of(ext);
    name.append(&mut e);
    let n = string_of(&name);
    proof {
        assert(n@ =~= output_stem_spec(source@) + seq!['.'] + ext@);
    }
    join_of(dir.as_str(), n.as_str())
}

/// Every source has a board name: the output stem is never empty (`board` when the path gives
/// none).
pub proof fn output_stem_is_never_empty(p: Seq<char>)
    ensures
        output_stem_spec(p).len() > 0,
{
    reveal_strlit("board");
}

} // verus!
