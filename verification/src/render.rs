//! The text side of drawing a board: the colour grammar (one lane, one colour), the id prefixes,
//! label wrapping and splitting, XML escaping, and the HTML page that wraps a drawn board.

use crate::model::{lane_of, lanes, Lane};
use crate::number::{int_text, push_int};
use crate::text::{chars_of, is_ws, str_eq, string_of, trim, trim_end};
use vstd::prelude::*;

verus! {

broadcast use vstd::string::group_string_axioms;

/// Each lane's id prefix, aligned with the lane order: `actor` and `aggregate` both start with
/// `a`, so the actor takes `X` and the external system `G`.
pub open spec fn lane_prefixes() -> Seq<char> {
    seq!['X', 'C', 'A', 'E', 'P', 'R', 'G', 'H']
}

/// The position of a lane in the top-to-bottom order.
pub open spec fn lane_rank(l: Lane) -> nat {
    match l {
        Lane::Actor => 0,
        Lane::Command => 1,
        Lane::Aggregate => 2,
        Lane::Event => 3,
        Lane::Policy => 4,
        Lane::ReadModel => 5,
        Lane::External => 6,
        Lane::Hotspot => 7,
    }
}

/// The id prefix for a lane `type`, or `None` when it names none of the eight lanes.
pub fn lane_prefix(kind: &str) -> (r: Option<char>)
    ensures
        r == (match lane_of(kind@) {
            Some(l) => Some(lane_prefixes()[lane_rank(l) as int]),
            None => None,
        }),
{
    match crate::model::lane_from_str(kind) {
        Some(l) => Some(
            match l {
                Lane::Actor => 'X',
                Lane::Command => 'C',
                Lane::Aggregate => 'A',
                Lane::Event => 'E',
                Lane::Policy => 'P',
                Lane::ReadModel => 'R',
                Lane::External => 'G',
                Lane::Hotspot => 'H',
            },
        ),
        None => None,
    }
}

/// The lane order agrees with the rank: the lane at each position has that rank.
pub proof fn lanes_are_ranked()
    ensures
        forall|i: int| 0 <= i < 8 ==> lane_rank(#[trigger] lanes()[i]) == i,
        lanes().len() == 8,
        lane_prefixes().len() == 8,
{
}

/// A lane's vertical rank (`actor` is 0, `hotspot` 7); a string naming no lane ranks 0.
pub fn lane_index(kind: &str) -> (r: usize)
    ensures
        r == (match lane_of(kind@) {
            Some(l) => lane_rank(l),
            None => 0,
        }),
{
    match crate::model::lane_from_str(kind) {
        Some(l) => match l {
            Lane::Actor => 0,
            Lane::Command => 1,
            Lane::Aggregate => 2,
            Lane::Event => 3,
            Lane::Policy => 4,
            Lane::ReadModel => 5,
            Lane::External => 6,
            Lane::Hotspot => 7,
        },
        None => 0,
    }
}

/// A lane's fill colour; grey for a string naming no lane.
pub open spec fn colour_spec(kind: Seq<char>) -> Seq<char> {
    match lane_of(kind) {
        Some(Lane::Actor) => "#FCEFA1"@,
        Some(Lane::Command) => "#1A6FAE"@,
        Some(Lane::Aggregate) => "#FFD23F"@,
        Some(Lane::Event) => "#FF9F1C"@,
        Some(Lane::Policy) => "#C39BD3"@,
        Some(Lane::ReadModel) => "#6FCF97"@,
        Some(Lane::External) => "#F2A0C9"@,
        Some(Lane::Hotspot) => "#C0392B"@,
        None => "#cccccc"@,
    }
}

/// A lane's fill colour (`command` and `hotspot` deepened so white label text stays legible).
pub fn colour(kind: &str) -> (r: &'static str)
    ensures
        r@ == colour_spec(kind@),
{
    match crate::model::lane_from_str(kind) {
        Some(Lane::Actor) => "#FCEFA1",
        Some(Lane::Command) => "#1A6FAE",
        Some(Lane::Aggregate) => "#FFD23F",
        Some(Lane::Event) => "#FF9F1C",
        Some(Lane::Policy) => "#C39BD3",
        Some(Lane::ReadModel) => "#6FCF97",
        Some(Lane::External) => "#F2A0C9",
        Some(Lane::Hotspot) => "#C0392B",
        None => "#cccccc",
    }
}

/// Whether a lane's label is written in dark text: every lane but `command` and `hotspot`.
pub fn text_dark(kind: &str) -> (r: bool)
    ensures
        r == (match lane_of(kind@) {
            Some(l) => l != Lane::Command && l != Lane::Hotspot,
            None => false,
        }),
{
    match crate::model::lane_from_str(kind) {
        Some(l) => match l {
            Lane::Command | Lane::Hotspot => false,
            _ => true,
        },
        None => false,
    }
}

/// The colour of a diff verdict.
pub open spec fn diff_colour_spec(s: Seq<char>) -> Seq<char> {
    if s == "added"@ {
        "#27ae60"@
    } else if s == "removed"@ {
        "#EB5757"@
    } else if s == "changed"@ || s == "moved"@ {
        "#E59500"@
    } else {
        "#999999"@
    }
}

/// The colour a diff verdict is drawn in (green, red, or amber for a change or a move).
pub fn diff_colour(s: &str) -> (r: &'static str)
    ensures
        r@ == diff_colour_spec(s@),
{
    if str_eq(s, "added") {
        "#27ae60"
    } else if str_eq(s, "removed") {
        "#EB5757"
    } else if str_eq(s, "changed") || str_eq(s, "moved") {
        "#E59500"
    } else {
        "#999999"
    }
}

/// The badge of a diff verdict.
pub open spec fn diff_badge_spec(s: Seq<char>) -> Option<Seq<char>> {
    if s == "added"@ {
        Some("+"@)
    } else if s == "removed"@ {
        Some("\u{2013}"@)
    } else if s == "changed"@ {
        Some("\u{2260}"@)
    } else if s == "moved"@ {
        Some("\u{2192}"@)
    } else {
        None
    }
}

/// The badge drawn beside a diff verdict (a plus, an en dash, an unequal sign or an arrow).
pub fn diff_badge(s: &str) -> (r: Option<&'static str>)
    ensures
        match r {
            Some(b) => diff_badge_spec(s@) == Some(b@),
            None => diff_badge_spec(s@) is None,
        },
{
    if str_eq(s, "added") {
        Some("+")
    } else if str_eq(s, "removed") {
        Some("\u{2013}")
    } else if str_eq(s, "changed") {
        Some("\u{2260}")
    } else if str_eq(s, "moved") {
        Some("\u{2192}")
    } else {
        None
    }
}

/// A region's diff verdict in the sticky vocabulary.
pub open spec fn phase_diff_kind_spec(diff: Option<Seq<char>>) -> Option<Seq<char>> {
    match diff {
        Some(d) => if d == "added"@ {
            Some("added"@)
        } else if d == "removed"@ {
            Some("removed"@)
        } else if d == "renamed"@ {
            Some("changed"@)
        } else if d == "resized"@ {
            Some("moved"@)
        } else {
            None
        },
        None => None,
    }
}

/// A region's diff verdict in the sticky vocabulary, so a changed region speaks the same visual
/// language as a changed sticky: a rename reads as a relabel, a resize as a relocation.
pub fn phase_diff_kind(diff: Option<&str>) -> (r: Option<&'static str>)
    ensures
        match r {
            Some(k) => phase_diff_kind_spec(crate::model::opt_str_view(diff)) == Some(k@),
            None => phase_diff_kind_spec(crate::model::opt_str_view(diff)) is None,
        },
{
    match diff {
        Some(d) => if str_eq(d, "added") {
            Some("added")
        } else if str_eq(d, "removed") {
            Some("removed")
        } else if str_eq(d, "renamed") {
            Some("changed")
        } else if str_eq(d, "resized") {
            Some("moved")
        } else {
            None
        },
        None => None,
    }
}

pub open spec fn upper(c: char) -> bool {
    'A' <= c && c <= 'Z'
}

pub open spec fn lower(c: char) -> bool {
    'a' <= c && c <= 'z'
}

pub open spec fn lower_or_digit(c: char) -> bool {
    lower(c) || ('0' <= c && c <= '9')
}

/// An ASCII capital.
pub fn is_upper(c: char) -> (r: bool)
    ensures
        r == upper(c),
{
    'A' <= c && c <= 'Z'
}

/// An ASCII lowercase letter or digit.
pub fn is_lower_or_digit(c: char) -> (r: bool)
    ensures
        r == lower_or_digit(c),
{
    ('a' <= c && c <= 'z') || ('0' <= c && c <= '9')
}

/// The text of an optional column: its number, or `None`.
pub open spec fn opt_col_spec(c: Option<i64>) -> Seq<char> {
    match c {
        Some(v) => int_text(v as int),
        None => "None"@,
    }
}

/// The text of an optional column: its number, or `None`.
pub fn opt_col(c: Option<i64>) -> (s: String)
    ensures
        s@ == opt_col_spec(c),
{
    match c {
        Some(v) => {
            let mut out: Vec<char> = Vec::new();
            push_int(v, &mut out);
            assert(out@ =~= int_text(v as int));
            string_of(&out)
        },
        None => "None".to_string(),
    }
}

/// How one character is written in XML text.
pub open spec fn esc_char(c: char) -> Seq<char> {
    if c == '&' {
        "&amp;"@
    } else if c == '<' {
        "&lt;"@
    } else if c == '>' {
        "&gt;"@
    } else if c == '"' {
        "&quot;"@
    } else if c == '\'' {
        "&#x27;"@
    } else {
        seq![c]
    }
}

/// A text with the five XML special characters written as entities.
pub open spec fn esc_spec(s: Seq<char>) -> Seq<char>
    decreases s.len(),
{
    if s.len() == 0 {
        Seq::empty()
    } else {
        esc_spec(s.drop_last()) + esc_char(s.last())
    }
}

/// Whether `w` is spelled in `t` from `i` on.
pub open spec fn spelled_at(t: Seq<char>, i: int, w: Seq<char>) -> bool {
    0 <= i && i + w.len() <= t.len() && t.subrange(i, i + w.len()) == w
}

/// Whether one of the five XML entities starts at `i`.
pub open spec fn entity_at(t: Seq<char>, i: int) -> bool {
    spelled_at(t, i, "&amp;"@) || spelled_at(t, i, "&lt;"@) || spelled_at(t, i, "&gt;"@)
        || spelled_at(t, i, "&quot;"@) || spelled_at(t, i, "&#x27;"@)
}

/// Whether a character is one XML gives a meaning in text or attributes.
pub open spec fn xml_special(c: char) -> bool {
    c == '&' || c == '<' || c == '>' || c == '"' || c == '\''
}

/// Escaped text is safe in XML text and attributes: no `<`, `>`, `"` or `'` is left, every `&`
/// starts one of the five entities, and a text with no special character is left as it is.
pub proof fn escaped_text_is_inert(s: Seq<char>)
    ensures
        forall|i: int|
            0 <= i < esc_spec(s).len() ==> {
                let c = #[trigger] esc_spec(s)[i];
                c != '<' && c != '>' && c != '"' && c != '\''
            },
        forall|i: int|
            0 <= i < esc_spec(s).len() && #[trigger] esc_spec(s)[i] == '&' ==> entity_at(esc_spec(s), i),
        (forall|i: int| 0 <= i < s.len() ==> !xml_special(#[trigger] s[i])) ==> esc_spec(s) == s,
    decreases s.len(),
{
    reveal_strlit("&amp;");
    reveal_strlit("&lt;");
    reveal_strlit("&gt;");
    reveal_strlit("&quot;");
    reveal_strlit("&#x27;");
    if s.len() > 0 {
        let d = s.drop_last();
        escaped_text_is_inert(d);
        let p = esc_spec(d);
        let e = esc_char(s.last());
        let t = esc_spec(s);
        assert(t == p + e);
        assert forall|i: int| 0 <= i < t.len() implies {
            let c = #[trigger] t[i];
            c != '<' && c != '>' && c != '"' && c != '\''
        } by {
            if i < p.len() {
                assert(t[i] == p[i]);
            } else {
                assert(t[i] == e[i - p.len()]);
            }
        }
        assert forall|i: int| 0 <= i < t.len() && #[trigger] t[i] == '&' implies entity_at(t, i) by {
            if i < p.len() {
                assert(t[i] == p[i]);
                assert(entity_at(p, i));
                assert forall|w: Seq<char>| spelled_at(p, i, w) implies spelled_at(t, i, w) by {
                    assert(t.subrange(i, i + w.len()) =~= p.subrange(i, i + w.len()));
                }
            } else {
                assert(t[i] == e[i - p.len()]);
                assert(i == p.len());
                assert(t.subrange(i, i + e.len()) =~= e);
            }
        }
        if forall|i: int| 0 <= i < s.len() ==> !xml_special(#[trigger] s[i]) {
            assert forall|i: int| 0 <= i < d.len() implies !xml_special(#[trigger] d[i]) by {
                assert(d[i] == s[i]);
            }
            assert(!xml_special(s[s.len() - 1]));
            assert(t =~= s);
        }
    }
}

fn append_str(v: &mut Vec<char>, s: &str)
    ensures
        final(v)@ == old(v)@ + s@,
{
    let mut w = chars_of(s);
    v.append(&mut w);
}

/// Escape the five XML special characters (`&`, `<`, `>`, `"`, `'`).
pub fn esc(s: &str) -> (r: String)
    ensures
        r@ == esc_spec(s@),
{
    let cs = chars_of(s);
    let mut out: Vec<char> = Vec::new();
    let mut i: usize = 0;
    while i < cs.len()
        invariant
            i <= cs.len(),
            cs@ == s@,
            out@ == esc_spec(cs@.take(i as int)),
        decreases cs.len() - i,
    {
        let c = cs[i];
        let ghost before = out@;
        if c == '&' {
            append_str(&mut out, "&amp;");
        } else if c == '<' {
            append_str(&mut out, "&lt;");
        } else if c == '>' {
            append_str(&mut out, "&gt;");
        } else if c == '"' {
            append_str(&mut out, "&quot;");
        } else if c == '\'' {
            append_str(&mut out, "&#x27;");
        } else {
            out.push(c);
        }
        proof {
            assert(cs@.take(i + 1).drop_last() =~= cs@.take(i as int));
            assert(cs@.take(i + 1).last() == c);
            assert(out@ =~= before + esc_char(c));
        }
        i = i + 1;
    }
    assert(cs@.take(cs.len() as int) =~= cs@);
    string_of(&out)
}


// ---- wrapping labels --------------------------------------------------------------------------

/// Whether a word breaks before position `i`: a capital after a lowercase letter or digit, or the
/// last capital of an acronym run (a capital between a capital and a lowercase letter).
pub open spec fn is_cut(c: Seq<char>, i: int) -> bool {
    1 <= i < c.len() && ((lower_or_digit(c[i - 1]) && upper(c[i])) || (upper(c[i - 1]) && upper(
        c[i],
    ) && i + 1 < c.len() && lower(c[i + 1])))
}

/// The humps of `c` from the piece that starts at `start`, scanning from `i`.
pub open spec fn humps_from(c: Seq<char>, start: int, i: int) -> Seq<Seq<char>>
    decreases c.len() - i,
{
    if i >= c.len() {
        seq![c.subrange(start, c.len() as int)]
    } else if is_cut(c, i) {
        seq![c.subrange(start, i)] + humps_from(c, i, i + 1)
    } else {
        humps_from(c, start, i + 1)
    }
}

/// The CamelCase humps of a word, in order; no character is added or lost.
pub open spec fn humps(c: Seq<char>) -> Seq<Seq<char>> {
    humps_from(c, 0, 1)
}

pub open spec fn strings_view(v: Seq<String>) -> Seq<Seq<char>> {
    v.map_values(|s: String| s@)
}

fn push_range(out: &mut Vec<String>, c: &Vec<char>, lo: usize, hi: usize)
    requires
        lo <= hi <= c.len(),
    ensures
        strings_view(final(out)@) == strings_view(old(out)@).push(c@.subrange(lo as int, hi as int)),
{
    let s = crate::text::string_of_range(c, lo, hi);
    let ghost before = strings_view(out@);
    out.push(s);
    assert(strings_view(out@) =~= before.push(s@));
}

/// Break a long CamelCase or Pascal token before a capital that follows a lowercase letter or
/// digit, and before the last capital of an acronym run; no space is inserted.
pub fn hump_split(word: &str) -> (r: Vec<String>)
    ensures
        strings_view(r@) == humps(word@),
{
    let c = chars_of(word);
    let n = c.len();
    let mut out: Vec<String> = Vec::new();
    let mut start: usize = 0;
    let mut i: usize = 1;
    assert(strings_view(out@) =~= Seq::<Seq<char>>::empty());
    if n == 0 {
        push_range(&mut out, &c, 0, 0);
        assert(strings_view(out@) =~= humps(word@));
        return out;
    }
    while i < n
        invariant
            1 <= i <= n,
            n == c.len(),
            c@ == word@,
            start < i,
            humps(c@) == strings_view(out@) + humps_from(c@, start as int, i as int),
        decreases n - i,
    {
        let prev = c[i - 1];
        let cur = c[i];
        let cond1 = is_lower_or_digit(prev) && is_upper(cur);
        let cond2 = is_upper(prev) && is_upper(cur) && i + 1 < n && 'a' <= c[i + 1] && c[i + 1]
            <= 'z';
        if cond1 || cond2 {
            let ghost before = strings_view(out@);
            push_range(&mut out, &c, start, i);
            assert(humps_from(c@, start as int, i as int) == seq![c@.subrange(start as int, i as int)]
                + humps_from(c@, i as int, i + 1));
            assert(before + humps_from(c@, start as int, i as int) =~= strings_view(out@)
                + humps_from(c@, i as int, i + 1));
            start = i;
        }
        i = i + 1;
    }
    let ghost before = strings_view(out@);
    push_range(&mut out, &c, start, n);
    assert(strings_view(out@) =~= before + humps_from(c@, start as int, n as int));
    out
}

/// A piece cut into chunks of at most `width` characters.
pub open spec fn chunks(p: Seq<char>, width: nat) -> Seq<Seq<char>>
    recommends
        width > 0,
    decreases p.len(),
{
    if width == 0 || p.len() <= width {
        seq![p]
    } else {
        seq![p.take(width as int)] + chunks(p.skip(width as int), width)
    }
}

/// The chunks of every piece, in order.
pub open spec fn chunk_all(ps: Seq<Seq<char>>, width: nat) -> Seq<Seq<char>>
    decreases ps.len(),
{
    if ps.len() == 0 {
        Seq::empty()
    } else {
        chunk_all(ps.drop_last(), width) + chunks(ps.last(), width)
    }
}

/// The wrap-able pieces of one token: CamelCase humps when it is longer than `width`, each then
/// hard-split into chunks of at most `width` characters.
pub open spec fn atoms_spec(word: Seq<char>, width: nat) -> Seq<Seq<char>> {
    let pieces = if word.len() > width { humps(word) } else { seq![word] };
    chunk_all(pieces, width)
}

fn push_chunks(out: &mut Vec<String>, p: &Vec<char>, width: usize)
    requires
        p@.len() > 0 ==> width > 0,
    ensures
        strings_view(final(out)@) == strings_view(old(out)@) + chunks(p@, width as nat),
{
    let mut lo: usize = 0;
    assert(p@.skip(0) =~= p@);
    while p.len() - lo > width
        invariant
            lo <= p.len(),
            p@.len() > 0 ==> width > 0,
            strings_view(old(out)@) + chunks(p@, width as nat) == strings_view(out@) + chunks(
                p@.skip(lo as int),
                width as nat,
            ),
        decreases p.len() - lo,
    {
        let ghost before = strings_view(out@);
        let ghost rest = p@.skip(lo as int);
        push_range(out, p, lo, lo + width);
        assert(rest.take(width as int) =~= p@.subrange(lo as int, lo + width));
        assert(rest.skip(width as int) =~= p@.skip(lo + width));
        assert(chunks(rest, width as nat) == seq![rest.take(width as int)] + chunks(
            rest.skip(width as int),
            width as nat,
        ));
        assert(before + chunks(rest, width as nat) =~= strings_view(out@) + chunks(
            p@.skip(lo + width),
            width as nat,
        ));
        lo = lo + width;
    }
    let ghost before = strings_view(out@);
    push_range(out, p, lo, p.len());
    assert(p@.skip(lo as int) =~= p@.subrange(lo as int, p.len() as int));
    assert(chunks(p@.skip(lo as int), width as nat) == seq![p@.skip(lo as int)]);
    assert(strings_view(out@) =~= before + chunks(p@.skip(lo as int), width as nat));
}

/// Break one over-long token into wrap-able pieces: CamelCase humps first, then a hard split
/// into chunks of `width` characters.
pub fn atoms(word: &str, width: usize) -> (r: Vec<String>)
    requires
        word@.len() > 0 ==> width > 0,
    ensures
        strings_view(r@) == atoms_spec(word@, width as nat),
{
    let wc = chars_of(word);
    let pieces: Vec<String> = if wc.len() > width {
        hump_split(word)
    } else {
        let mut v: Vec<String> = Vec::new();
        v.push(word.to_string());
        assert(strings_view(v@) =~= seq![word@]);
        v
    };
    let ghost ps = strings_view(pieces@);
    let mut out: Vec<String> = Vec::new();
    let mut k: usize = 0;
    assert(strings_view(out@) =~= Seq::<Seq<char>>::empty());
    while k < pieces.len()
        invariant
            k <= pieces.len(),
            width > 0 || ps == seq![word@],
            word@.len() > 0 ==> width > 0,
            ps == strings_view(pieces@),
            strings_view(out@) == chunk_all(ps.take(k as int), width as nat),
        decreases pieces.len() - k,
    {
        let pc = chars_of(pieces[k].as_str());
        assert(ps.take(k + 1).drop_last() =~= ps.take(k as int));
        assert(ps.take(k + 1).last() == pieces@[k as int]@);
        push_chunks(&mut out, &pc, width);
        k = k + 1;
    }
    assert(ps.take(pieces.len() as int) =~= ps);
    out
}


/// The length of the run of non-white-space characters that starts `s`.
pub open spec fn word_run(s: Seq<char>) -> nat
    decreases s.len(),
{
    if s.len() > 0 && !is_ws(s[0]) {
        1 + word_run(s.drop_first())
    } else {
        0
    }
}

pub proof fn lemma_word_run(s: Seq<char>)
    ensures
        word_run(s) <= s.len(),
        s.len() > 0 && !is_ws(s[0]) ==> word_run(s) > 0,
    decreases s.len(),
{
    if s.len() > 0 && !is_ws(s[0]) {
        lemma_word_run(s.drop_first());
    }
}

proof fn lemma_word_run_at(s: Seq<char>, j: int)
    requires
        0 <= j <= s.len(),
        forall|k: int| 0 <= k < j ==> !is_ws(#[trigger] s[k]),
        j == s.len() || is_ws(s[j]),
    ensures
        word_run(s) == j,
    decreases j,
{
    if j > 0 {
        assert forall|k: int| 0 <= k < j - 1 implies !is_ws(#[trigger] s.drop_first()[k]) by {
            assert(s.drop_first()[k] == s[k + 1]);
        }
        if j < s.len() {
            assert(s.drop_first()[j - 1] == s[j]);
        }
        lemma_word_run_at(s.drop_first(), j - 1);
    }
}

/// Whether a text holds a character other than white space.
pub open spec fn has_content(s: Seq<char>) -> bool {
    exists|i: int| 0 <= i < s.len() && !is_ws(#[trigger] s[i])
}

/// The white-space-separated words of a text (`str::split_whitespace`).
pub open spec fn words(s: Seq<char>) -> Seq<Seq<char>>
    decreases s.len(),
{
    if s.len() == 0 {
        Seq::empty()
    } else if is_ws(s[0]) {
        words(s.drop_first())
    } else {
        proof {
            lemma_word_run(s);
        }
        seq![s.take(word_run(s) as int)] + words(s.skip(word_run(s) as int))
    }
}

/// The words of the characters `c`.
fn split_words(c: &Vec<char>) -> (r: Vec<String>)
    ensures
        strings_view(r@) == words(c@),
{
    let mut out: Vec<String> = Vec::new();
    let mut i: usize = 0;
    assert(c@.skip(0) =~= c@);
    assert(strings_view(out@) =~= Seq::<Seq<char>>::empty());
    while i < c.len()
        invariant
            i <= c.len(),
            words(c@) == strings_view(out@) + words(c@.skip(i as int)),
        decreases c.len() - i,
    {
        let ghost rest = c@.skip(i as int);
        assert(rest[0] == c@[i as int]);
        if crate::text::is_whitespace(c[i]) {
            assert(rest.drop_first() =~= c@.skip(i + 1));
            i = i + 1;
        } else {
            let mut j = i;
            while j < c.len() && !crate::text::is_whitespace(c[j])
                invariant
                    i <= j <= c.len(),
                    forall|k: int| i <= k < j ==> !is_ws(#[trigger] c@[k]),
                decreases c.len() - j,
            {
                j = j + 1;
            }
            proof {
                assert forall|k: int| 0 <= k < j - i implies !is_ws(#[trigger] rest[k]) by {
                    assert(rest[k] == c@[i + k]);
                }
                if j < c.len() {
                    assert(rest[j - i] == c@[j as int]);
                }
                lemma_word_run_at(rest, j - i);
                assert(rest.take(j - i) =~= c@.subrange(i as int, j as int));
                assert(rest.skip(j - i) =~= c@.skip(j as int));
            }
            let ghost before = strings_view(out@);
            push_range(&mut out, c, i, j);
            assert(before + words(rest) =~= strings_view(out@) + words(c@.skip(j as int)));
            i = j;
        }
    }
    assert(c@.skip(c.len() as int) =~= Seq::<char>::empty());
    assert(strings_view(out@) + Seq::<Seq<char>>::empty() =~= strings_view(out@));
    out
}

/// The pieces of one word marked glued: each but the first rejoins the one before it with no
/// space.
pub open spec fn glued(a: Seq<Seq<char>>) -> Seq<(Seq<char>, bool)> {
    Seq::new(a.len(), |j: int| (a[j], j > 0))
}

/// The wrap tokens of a list of words: each word's atoms, glued after the first.
pub open spec fn tokens(ws: Seq<Seq<char>>, width: nat) -> Seq<(Seq<char>, bool)>
    decreases ws.len(),
{
    if ws.len() == 0 {
        Seq::empty()
    } else {
        tokens(ws.drop_last(), width) + glued(atoms_spec(ws.last(), width))
    }
}

/// One token placed: on the current line (after a space unless glued or first) when it fits in
/// `width`, else the current line is closed and the token starts the next.
pub open spec fn place(st: (Seq<Seq<char>>, Seq<char>), t: (Seq<char>, bool), width: nat) -> (
    Seq<Seq<char>>,
    Seq<char>,
) {
    let sep: Seq<char> = if t.1 || st.1.len() == 0 { Seq::empty() } else { seq![' '] };
    if st.1.len() > 0 && st.1.len() + sep.len() + t.0.len() > width {
        (st.0.push(st.1), t.0)
    } else {
        (st.0, st.1 + sep + t.0)
    }
}

/// The closed lines and the open line after placing every token greedily.
pub open spec fn fill(toks: Seq<(Seq<char>, bool)>, width: nat) -> (Seq<Seq<char>>, Seq<char>)
    decreases toks.len(),
{
    if toks.len() == 0 {
        (Seq::empty(), Seq::empty())
    } else {
        place(fill(toks.drop_last(), width), toks.last(), width)
    }
}

/// A label wrapped to lines of `width` characters, at most `max_lines` of them: a greedy fill of
/// its tokens; past the cap, the last kept line is cut to `width - 1` characters, trimmed, and
/// ends in an ellipsis; a blank label gives one empty line.
pub open spec fn wrap_spec(label: Seq<char>, width: nat, max_lines: nat) -> Seq<Seq<char>> {
    let (closed, cur) = fill(tokens(words(label), width), width);
    let lines = if cur.len() > 0 { closed.push(cur) } else { closed };
    if lines.len() > max_lines {
        let kept = lines.take(max_lines as int);
        let last = kept.last();
        let k: nat = if width >= 1 { (width - 1) as nat } else { 0 };
        let cut = if last.len() > k { last.take(k as int) } else { last };
        kept.update(max_lines - 1, trim_end(cut).push('\u{2026}'))
    } else if lines.len() == 0 {
        seq![Seq::empty()]
    } else {
        lines
    }
}

pub open spec fn toks_view(v: Seq<(String, bool)>) -> Seq<(Seq<char>, bool)> {
    v.map_values(|t: (String, bool)| (t.0@, t.1))
}

/// A CamelCase-aware greedy wrap: the pieces of one broken token rejoin with no space.
pub fn wrap(label: &str, width: usize, max_lines: usize) -> (r: Vec<String>)
    requires
        has_content(label@) ==> width > 0 && max_lines > 0,
    ensures
        strings_view(r@) == wrap_spec(label@, width as nat, max_lines as nat),
{
    let c = chars_of(label);
    let ws = split_words(&c);
    let ghost wv = strings_view(ws@);
    proof {
        assert(wv.len() == ws@.len());
        if !has_content(label@) {
            lemma_words_of_blank(label@);
            assert(wv.len() == 0);
        }
    }
    let mut toks: Vec<(String, bool)> = Vec::new();
    let mut w: usize = 0;
    assert(toks_view(toks@) =~= Seq::<(Seq<char>, bool)>::empty());
    while w < ws.len()
        invariant
            w <= ws.len(),
            ws.len() > 0 ==> width > 0 && max_lines > 0,
            wv == strings_view(ws@),
            toks_view(toks@) == tokens(wv.take(w as int), width as nat),
        decreases ws.len() - w,
    {
        let pieces = atoms(ws[w].as_str(), width);
        let ghost pv = strings_view(pieces@);
        let ghost before = toks_view(toks@);
        let mut j: usize = 0;
        while j < pieces.len()
            invariant
                j <= pieces.len(),
                pv == strings_view(pieces@),
                toks_view(toks@) == before + glued(pv).take(j as int),
            decreases pieces.len() - j,
        {
            let ghost prev = toks_view(toks@);
            assert(pv[j as int] == pieces@[j as int]@);
            let pc = pieces[j].clone();
            toks.push((pc, j > 0));
            assert(toks_view(toks@) == prev.push((pc@, j > 0)));
            assert(toks_view(toks@) =~= before + glued(pv).take(j + 1));
            j = j + 1;
        }
        assert(glued(pv).take(pieces.len() as int) =~= glued(pv));
        assert(wv.take(w + 1).drop_last() =~= wv.take(w as int));
        assert(wv.take(w + 1).last() == ws@[w as int]@);
        w = w + 1;
    }
    assert(wv.take(ws.len() as int) =~= wv);
    let ghost tv = toks_view(toks@);
    let mut lines: Vec<String> = Vec::new();
    let mut cur: Vec<char> = Vec::new();
    let mut t: usize = 0;
    assert(strings_view(lines@) =~= Seq::<Seq<char>>::empty());
    assert(tv.take(0) =~= Seq::<(Seq<char>, bool)>::empty());
    while t < toks.len()
        invariant
            t <= toks.len(),
            tv == toks_view(toks@),
            (strings_view(lines@), cur@) == fill(tv.take(t as int), width as nat),
        decreases toks.len() - t,
    {
        let text = chars_of(toks[t].0.as_str());
        let glue = toks[t].1;
        assert(tv.take(t + 1).drop_last() =~= tv.take(t as int));
        assert(tv.take(t + 1).last() == (toks@[t as int].0@, toks@[t as int].1));
        let sep: usize = if glue || cur.len() == 0 { 0 } else { 1 };
        if cur.len() > 0 && cur.len() as u128 + sep as u128 + text.len() as u128 > width as u128 {
            let ghost before = strings_view(lines@);
            let s = string_of(&cur);
            lines.push(s);
            assert(strings_view(lines@) =~= before.push(cur@));
            cur = text;
        } else {
            let ghost c0 = cur@;
            if sep == 1 {
                cur.push(' ');
            }
            let mut tx = text;
            let ghost tvw = tx@;
            cur.append(&mut tx);
            assert(cur@ =~= c0 + (if sep == 1 { seq![' '] } else { Seq::<char>::empty() }) + tvw);
        }
        t = t + 1;
    }
    assert(tv.take(toks.len() as int) =~= tv);
    if cur.len() > 0 {
        let ghost before = strings_view(lines@);
        let s = string_of(&cur);
        lines.push(s);
        assert(strings_view(lines@) =~= before.push(cur@));
    }
    let ghost lv = strings_view(lines@);
    proof {
        if wv.len() == 0 {
            assert(tv.len() == 0);
            assert(tv.take(0) =~= tv);
        }
    }
    if lines.len() > max_lines {
        let mut kept: Vec<String> = Vec::new();
        let mut q: usize = 0;
        while q < max_lines - 1
            invariant
                q <= max_lines - 1,
                max_lines < lines.len(),
                lv == strings_view(lines@),
                strings_view(kept@) == lv.take(q as int),
            decreases max_lines - 1 - q,
        {
            let ghost before = strings_view(kept@);
            assert(lv[q as int] == lines@[q as int]@);
            let lq = lines[q].clone();
            kept.push(lq);
            assert(strings_view(kept@) == before.push(lq@));
            assert(strings_view(kept@) =~= lv.take(q + 1));
            q = q + 1;
        }
        let last = chars_of(lines[max_lines - 1].as_str());
        let k = width - 1;
        let end = if last.len() > k { k } else { last.len() };
        let hi = crate::text::trim_end_bound(&last, end);
        proof {
            let cutv = if last@.len() > k { last@.take(k as int) } else { last@ };
            assert(last@.subrange(0, end as int) =~= cutv);
        }
        let mut tail: Vec<char> = Vec::new();
        let mut z: usize = 0;
        while z < hi
            invariant
                0 <= z <= hi <= last.len(),
                tail@ == last@.subrange(0, z as int),
            decreases hi - z,
        {
            tail.push(last[z]);
            z = z + 1;
            assert(tail@ =~= last@.subrange(0, z as int));
        }
        tail.push('\u{2026}');
        let ghost before = strings_view(kept@);
        kept.push(string_of(&tail));
        proof {
            let kp = lv.take(max_lines as int);
            assert(kp.last() == last@);
            assert(strings_view(kept@) =~= kp.update(max_lines - 1, trim_end(
                if last@.len() > k { last@.take(k as int) } else { last@ },
            ).push('\u{2026}')));
        }
        return kept;
    }
    if lines.len() == 0 {
        let mut one: Vec<String> = Vec::new();
        one.push(String::new());
        assert(strings_view(one@) =~= seq![Seq::<char>::empty()]);
        return one;
    }
    lines
}

/// Every line in `ls` holds at most `width` characters.
pub open spec fn lines_fit(ls: Seq<Seq<char>>, width: nat) -> bool {
    forall|i: int| 0 <= i < ls.len() ==> (#[trigger] ls[i]).len() <= width
}

proof fn lemma_chunks_fit(p: Seq<char>, width: nat)
    requires
        width > 0,
    ensures
        lines_fit(chunks(p, width), width),
    decreases p.len(),
{
    if p.len() > width {
        lemma_chunks_fit(p.skip(width as int), width);
        let rest = chunks(p.skip(width as int), width);
        let all = chunks(p, width);
        assert forall|i: int| 0 <= i < all.len() implies (#[trigger] all[i]).len() <= width by {
            if i > 0 {
                assert(all[i] == rest[i - 1]);
            }
        }
    }
}

proof fn lemma_chunk_all_fit(ps: Seq<Seq<char>>, width: nat)
    requires
        width > 0,
    ensures
        lines_fit(chunk_all(ps, width), width),
    decreases ps.len(),
{
    if ps.len() > 0 {
        lemma_chunk_all_fit(ps.drop_last(), width);
        lemma_chunks_fit(ps.last(), width);
        let a = chunk_all(ps.drop_last(), width);
        let b = chunks(ps.last(), width);
        assert forall|i: int| 0 <= i < (a + b).len() implies (#[trigger] (a + b)[i]).len()
            <= width by {
            if i >= a.len() {
                assert((a + b)[i] == b[i - a.len()]);
            } else {
                assert((a + b)[i] == a[i]);
            }
        }
    }
}

/// Every token's text holds at most `width` characters.
pub open spec fn tokens_fit(ts: Seq<(Seq<char>, bool)>, width: nat) -> bool {
    forall|i: int| 0 <= i < ts.len() ==> (#[trigger] ts[i]).0.len() <= width
}

proof fn lemma_tokens_fit(ws: Seq<Seq<char>>, width: nat)
    requires
        width > 0,
    ensures
        tokens_fit(tokens(ws, width), width),
    decreases ws.len(),
{
    if ws.len() > 0 {
        lemma_tokens_fit(ws.drop_last(), width);
        let word = ws.last();
        let pieces = if word.len() > width { humps(word) } else { seq![word] };
        lemma_chunk_all_fit(pieces, width);
        let a = tokens(ws.drop_last(), width);
        let at = atoms_spec(word, width);
        let b = glued(at);
        assert forall|i: int| 0 <= i < (a + b).len() implies (#[trigger] (a + b)[i]).0.len()
            <= width by {
            if i >= a.len() {
                assert((a + b)[i] == b[i - a.len()]);
                assert(b[i - a.len()].0 == at[i - a.len()]);
            } else {
                assert((a + b)[i] == a[i]);
            }
        }
    }
}

proof fn lemma_fill_fit(ts: Seq<(Seq<char>, bool)>, width: nat)
    requires
        tokens_fit(ts, width),
    ensures
        lines_fit(fill(ts, width).0, width),
        fill(ts, width).1.len() <= width,
    decreases ts.len(),
{
    if ts.len() > 0 {
        let init = ts.drop_last();
        assert forall|i: int| 0 <= i < init.len() implies (#[trigger] init[i]).0.len() <= width by {
            assert(init[i] == ts[i]);
        }
        lemma_fill_fit(init, width);
        let st = fill(init, width);
        let t = ts.last();
        assert(t == ts[ts.len() - 1]);
        let sep: Seq<char> = if t.1 || st.1.len() == 0 { Seq::empty() } else { seq![' '] };
        if st.1.len() > 0 && st.1.len() + sep.len() + t.0.len() > width {
            let c = st.0.push(st.1);
            assert forall|i: int| 0 <= i < c.len() implies (#[trigger] c[i]).len() <= width by {
                if i < st.0.len() {
                    assert(c[i] == st.0[i]);
                }
            }
        }
    }
}

proof fn lemma_words_of_blank(s: Seq<char>)
    requires
        forall|i: int| 0 <= i < s.len() ==> is_ws(#[trigger] s[i]),
    ensures
        words(s) == Seq::<Seq<char>>::empty(),
    decreases s.len(),
{
    if s.len() > 0 {
        assert(is_ws(s[0]));
        assert forall|i: int| 0 <= i < s.drop_first().len() implies is_ws(
            #[trigger] s.drop_first()[i],
        ) by {
            assert(s.drop_first()[i] == s[i + 1]);
        }
        lemma_words_of_blank(s.drop_first());
    }
}

/// A wrapped label, for a positive width and line cap, has at least one line and at most
/// `max_lines` of them, and no line is longer than `width` characters (an ellipsis that marks a
/// cut counts as one); a label of nothing but white space wraps to one empty line.
pub proof fn wrap_fits(label: Seq<char>, width: nat, max_lines: nat)
    requires
        width > 0,
        max_lines > 0,
    ensures
        1 <= wrap_spec(label, width, max_lines).len() <= max_lines,
        lines_fit(wrap_spec(label, width, max_lines), width),
        (forall|i: int| 0 <= i < label.len() ==> is_ws(#[trigger] label[i])) ==> wrap_spec(
            label,
            width,
            max_lines,
        ) == seq![Seq::<char>::empty()],
{
    let ts = tokens(words(label), width);
    lemma_tokens_fit(words(label), width);
    lemma_fill_fit(ts, width);
    let (closed, cur) = fill(ts, width);
    let lines = if cur.len() > 0 { closed.push(cur) } else { closed };
    assert(lines_fit(lines, width)) by {
        assert forall|i: int| 0 <= i < lines.len() implies (#[trigger] lines[i]).len() <= width by {
            if i < closed.len() {
                assert(lines[i] == closed[i]);
            }
        }
    }
    let r = wrap_spec(label, width, max_lines);
    if lines.len() > max_lines {
        let kept = lines.take(max_lines as int);
        let last = kept.last();
        let k: nat = (width - 1) as nat;
        let cut = if last.len() > k { last.take(k as int) } else { last };
        lemma_trim_end_is_prefix(cut);
        assert(last == lines[max_lines - 1]);
        assert forall|i: int| 0 <= i < r.len() implies (#[trigger] r[i]).len() <= width by {
            if i < max_lines - 1 {
                assert(r[i] == lines[i]);
            }
        }
    }
    if forall|i: int| 0 <= i < label.len() ==> is_ws(#[trigger] label[i]) {
        lemma_words_of_blank(label);
        assert(ts == Seq::<(Seq<char>, bool)>::empty());
    }
}


// ---- label parts and the page -----------------------------------------------------------------

/// The first index at or after `i` of the character `ch`.
pub open spec fn first_index(s: Seq<char>, ch: char, i: int) -> Option<int>
    decreases s.len() - i,
{
    if i < 0 || i >= s.len() {
        None
    } else if s[i] == ch {
        Some(i)
    } else {
        first_index(s, ch, i + 1)
    }
}

/// A sticky read as a hero line and a smaller detail: an explicit non-empty detail wins;
/// otherwise a trailing parenthetical (after some text) becomes the detail. Both parts trimmed.
pub open spec fn split_label_spec(label: Seq<char>, detail: Option<Seq<char>>) -> (Seq<char>, Seq<char>) {
    if detail is Some && detail->0.len() > 0 {
        (trim(label), trim(detail->0))
    } else {
        let r = trim_end(label);
        match first_index(label, '(', 0) {
            Some(i) => if i > 0 && r.len() > 0 && r.last() == ')' {
                (trim(label.take(i)), trim(label.subrange(i + 1, r.len() - 1)))
            } else {
                (trim(label), Seq::empty())
            },
            None => (trim(label), Seq::empty()),
        }
    }
}

proof fn lemma_first_index(s: Seq<char>, ch: char, i: int)
    requires
        0 <= i,
    ensures
        first_index(s, ch, i) matches Some(k) ==> i <= k < s.len() && s[k] == ch,
        first_index(s, ch, i) is None ==> forall|j: int| i <= j < s.len() ==> #[trigger] s[j] != ch,
    decreases s.len() - i,
{
    if i < s.len() && s[i] != ch {
        lemma_first_index(s, ch, i + 1);
    }
}

proof fn lemma_trim_end_is_prefix(t: Seq<char>)
    ensures
        trim_end(t).len() <= t.len(),
        trim_end(t) == t.take(trim_end(t).len() as int),
        forall|k: int| trim_end(t).len() <= k < t.len() ==> is_ws(#[trigger] t[k]),
    decreases t.len(),
{
    if t.len() > 0 && is_ws(t.last()) {
        lemma_trim_end_is_prefix(t.drop_last());
        let u = trim_end(t.drop_last());
        assert(t.drop_last().take(u.len() as int) =~= t.take(u.len() as int));
        assert forall|k: int| trim_end(t).len() <= k < t.len() implies is_ws(#[trigger] t[k]) by {
            if k < t.len() - 1 {
                assert(t[k] == t.drop_last()[k]);
            }
        }
    } else {
        assert(t.take(t.len() as int) =~= t);
    }
}

/// A sticky read as a hero line and a smaller detail: an explicit detail wins; otherwise a
/// trailing parenthetical becomes the detail.
pub fn split_label(label: &str, detail: Option<&str>) -> (r: (String, String))
    ensures
        (r.0@, r.1@) == split_label_spec(label@, crate::model::opt_str_view(detail)),
{
    if let Some(d) = detail {
        if !d.is_empty() {
            return (crate::text::trim_str(label), crate::text::trim_str(d));
        }
    }
    let c = chars_of(label);
    let mut i: usize = 0;
    proof {
        lemma_first_index(c@, '(', 0);
    }
    while i < c.len() && c[i] != '('
        invariant
            i <= c.len(),
            first_index(c@, '(', 0) == first_index(c@, '(', i as int),
        decreases c.len() - i,
    {
        i = i + 1;
    }
    let end = crate::text::trim_end_bound(&c, c.len());
    proof {
        assert(c@.subrange(0, c.len() as int) =~= c@);
        lemma_trim_end_is_prefix(c@);
    }
    if i < c.len() && i > 0 && end > 0 && c[end - 1] == ')' {
        proof {
            assert(first_index(c@, '(', i as int) == Some(i as int));
            assert(c@.subrange(0, end as int).last() == c@[end - 1]);
            if i >= end - 1 {
                assert(is_ws(c@[i as int]) || i == end - 1);
            }
        }
        let (lo, hi) = crate::text::trim_bounds(&c, 0, i);
        let head = crate::text::string_of_range(&c, lo, hi);
        let (lo2, hi2) = crate::text::trim_bounds(&c, i + 1, end - 1);
        let tail = crate::text::string_of_range(&c, lo2, hi2);
        assert(c@.subrange(0, i as int) =~= label@.take(i as int));
        return (head, tail);
    }
    proof {
        if i < c.len() {
            assert(first_index(c@, '(', i as int) == Some(i as int));
        }
        if end > 0 {
            assert(c@.subrange(0, end as int).last() == c@[end - 1]);
        }
    }
    (crate::text::trim_str(label), String::new())
}

/// Every occurrence of `pat` in `s` replaced by `rep`, left to right, without overlaps.
pub open spec fn replace_all(s: Seq<char>, pat: Seq<char>, rep: Seq<char>) -> Seq<char>
    decreases s.len(),
{
    if pat.len() == 0 || s.len() < pat.len() {
        s
    } else if s.take(pat.len() as int) == pat {
        rep + replace_all(s.skip(pat.len() as int), pat, rep)
    } else {
        seq![s[0]] + replace_all(s.drop_first(), pat, rep)
    }
}

fn starts_at(c: &Vec<char>, i: usize, p: &Vec<char>) -> (r: bool)
    requires
        i <= c.len(),
    ensures
        r == (p.len() <= c.len() - i && c@.skip(i as int).take(p.len() as int) == p@),
{
    if p.len() > c.len() - i {
        return false;
    }
    let mut k: usize = 0;
    while k < p.len()
        invariant
            k <= p.len(),
            p.len() <= c.len() - i,
            forall|q: int| 0 <= q < k ==> c@[i + q] == #[trigger] p@[q],
        decreases p.len() - k,
    {
        if c[i + k] != p[k] {
            assert(c@.skip(i as int).take(p.len() as int)[k as int] != p@[k as int]);
            return false;
        }
        k = k + 1;
    }
    assert(c@.skip(i as int).take(p.len() as int) =~= p@);
    true
}

/// Every occurrence of `pat` in `s` replaced by `rep` (`str::replace`).
pub fn replace_str(s: &str, pat: &str, rep: &str) -> (r: String)
    ensures
        r@ == replace_all(s@, pat@, rep@),
{
    let c = chars_of(s);
    let p = chars_of(pat);
    let rv = chars_of(rep);
    if p.len() == 0 {
        return s.to_string();
    }
    let mut out: Vec<char> = Vec::new();
    let mut i: usize = 0;
    assert(c@.skip(0) =~= c@);
    while i < c.len()
        invariant
            i <= c.len(),
            p.len() > 0,
            p@ == pat@,
            rv@ == rep@,
            replace_all(c@, p@, rv@) == out@ + replace_all(c@.skip(i as int), p@, rv@),
        decreases c.len() - i,
    {
        let ghost rest = c@.skip(i as int);
        if starts_at(&c, i, &p) {
            let ghost before = out@;
            let mut copy = rv.clone();
            out.append(&mut copy);
            assert(rest.skip(p.len() as int) =~= c@.skip(i + p.len()));
            assert(before + replace_all(rest, p@, rv@) =~= out@ + replace_all(
                c@.skip(i + p.len()),
                p@,
                rv@,
            ));
            i = i + p.len();
        } else {
            let ghost before = out@;
            out.push(c[i]);
            assert(rest[0] == c@[i as int]);
            assert(rest.drop_first() =~= c@.skip(i + 1));
            proof {
                if rest.len() < p@.len() {
                    assert(replace_all(rest, p@, rv@) == rest);
                    assert(replace_all(rest.drop_first(), p@, rv@) == rest.drop_first());
                }
            }
            assert(before + replace_all(rest, p@, rv@) =~= out@ + replace_all(
                c@.skip(i + 1),
                p@,
                rv@,
            ));
            i = i + 1;
        }
    }
    assert(c@.skip(c.len() as int) =~= Seq::<char>::empty());
    assert(out@ + Seq::<char>::empty() =~= out@);
    string_of(&out)
}

/// The geometry the page's script reuses to re-place a moved sticky: the renderer is the single
/// source of these numbers.
pub open spec fn geometry_config() -> Seq<char> {
    "{\"colW\":210,\"stickyW\":176,\"stickyH\":74,\"rowPitch\":92,\"laneVpad\":16,\"regionTabH\":19,\"regionTabCharW\":6.6,\"regionTabPad\":18}"@
}

/// The page a drawn board is wrapped in, with its three slots.
pub open spec fn page_template() -> Seq<char> {
    "<!DOCTYPE html>\n<html lang=\"en\">\n<head>\n<meta charset=\"utf-8\">\n<title>__TITLE__</title>\n<style>body{margin:0;background:#fbfbfd;font-family:system-ui,sans-serif}svg{display:block}</style>\n</head>\n<body>\n__SVG__\n<script>window.FACETO_CONFIG = __CONFIG__;</script>\n</body>\n</html>\n"@
}

/// The page of a drawn board: the template with the escaped title, the drawing and the geometry
/// config put in its slots, in that order.
pub open spec fn render_html_spec(svg: Seq<char>, title: Seq<char>) -> Seq<char> {
    replace_all(
        replace_all(
            replace_all(page_template(), "__TITLE__"@, esc_spec(title)),
            "__SVG__"@,
            svg,
        ),
        "__CONFIG__"@,
        geometry_config(),
    )
}

/// Wrap a drawn board in its page, with the geometry config the page's script reuses.
pub fn render_html(svg: &str, title: &str) -> (r: String)
    ensures
        r@ == render_html_spec(svg@, title@),
{
    let template = "<!DOCTYPE html>\n<html lang=\"en\">\n<head>\n<meta charset=\"utf-8\">\n<title>__TITLE__</title>\n<style>body{margin:0;background:#fbfbfd;font-family:system-ui,sans-serif}svg{display:block}</style>\n</head>\n<body>\n__SVG__\n<script>window.FACETO_CONFIG = __CONFIG__;</script>\n</body>\n</html>\n";
    let cfg = "{\"colW\":210,\"stickyW\":176,\"stickyH\":74,\"rowPitch\":92,\"laneVpad\":16,\"regionTabH\":19,\"regionTabCharW\":6.6,\"regionTabPad\":18}";
    let t = esc(title);
    let a = replace_str(template, "__TITLE__", t.as_str());
    let b = replace_str(a.as_str(), "__SVG__", svg);
    replace_str(b.as_str(), "__CONFIG__", cfg)
}

} // verus!
