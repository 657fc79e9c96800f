//! What the JSON reader accepts beyond the writer's own text (a `\u` escape of any scalar value,
//! the two-character escapes, white space around and inside a value), and what the writer's
//! string text looks like.

use crate::json::{
    escape_char, escaped, hex_char, str_text, is_json_ws, is_scalar, jtext, p_array, p_elems, p_hex, p_members,
    p_object, p_str, p_value, parse_spec, scalar_text, ws_end, ws_run, JsonV,
};
use crate::reread::{
    ends_value, exact_json, lemma_hex_char, lemma_jtext_head, lemma_p_str_text,
    lemma_p_value_text, lemma_spelled_split, lemma_ws_end_at, spelled,
};
use vstd::prelude::*;

verus! {

/// The four lowercase hex digits of a 16-bit code unit.
pub open spec fn hex4(u: nat) -> Seq<char> {
    seq![hex_char((u / 4096) % 16), hex_char((u / 256) % 16), hex_char((u / 16) % 16), hex_char(u % 16)]
}

/// A character spelled as a `\u` escape: its code point in four hex digits, or above the basic
/// plane its UTF-16 surrogate pair as two escapes.
pub open spec fn u_escape(ch: char) -> Seq<char> {
    let cp = ch as u32 as nat;
    if cp < 0x10000 {
        seq!['\\', 'u'] + hex4(cp)
    } else {
        let v = (cp - 0x10000) as nat;
        seq!['\\', 'u'] + hex4(0xD800 + v / 1024) + seq!['\\', 'u'] + hex4(0xDC00 + v % 1024)
    }
}

/// A text with every character spelled as a `\u` escape.
pub open spec fn u_escaped(s: Seq<char>) -> Seq<char>
    decreases s.len(),
{
    if s.len() == 0 {
        Seq::empty()
    } else {
        u_escape(s[0]) + u_escaped(s.drop_first())
    }
}

proof fn lemma_hex4(c: Seq<char>, j: int, u: nat)
    requires
        u < 0x10000,
        spelled(c, j, hex4(u)),
    ensures
        p_hex(c, j, 0, 0) == Ok::<u32, Seq<char>>(u as u32),
{
    let h = hex4(u);
    let x = u as u32;
    assert(c[j + 0] == h[0] && c[j + 1] == h[1] && c[j + 2] == h[2] && c[j + 3] == h[3]);
    lemma_hex_char((u / 4096) % 16);
    lemma_hex_char((u / 256) % 16);
    lemma_hex_char((u / 16) % 16);
    lemma_hex_char(u % 16);
    assert((x / 4096) % 16 == (u / 4096) % 16 && (x / 256) % 16 == (u / 256) % 16);
    assert((x / 16) % 16 == (u / 16) % 16 && x % 16 == u % 16);
    let d3 = (x / 4096) % 16;
    let d2 = (x / 256) % 16;
    let d1 = (x / 16) % 16;
    let d0 = x % 16;
    assert((((d3 * 16 + d2) * 16 + d1) * 16 + d0) as u32 == x) by (bit_vector)
        requires
            x < 0x10000,
            d3 == (x / 4096) % 16,
            d2 == (x / 256) % 16,
            d1 == (x / 16) % 16,
            d0 == x % 16,
    ;
    reveal_with_fuel(p_hex, 5);
    assert(p_hex(c, j, 4, (((d3 * 16 + d2) * 16 + d1) * 16 + d0) as u32) == Ok::<u32, Seq<char>>(x));
    assert(p_hex(c, j, 3, ((d3 * 16 + d2) * 16 + d1) as u32) == Ok::<u32, Seq<char>>(x));
    assert(p_hex(c, j, 2, (d3 * 16 + d2) as u32) == Ok::<u32, Seq<char>>(x));
    assert(p_hex(c, j, 1, d3) == Ok::<u32, Seq<char>>(x));
}

proof fn lemma_u_step(c: Seq<char>, j: int, acc: Seq<char>, ch: char)
    requires
        spelled(c, j, u_escape(ch)),
    ensures
        p_str(c, j, acc) == p_str(c, j + u_escape(ch).len(), acc.push(ch)),
{
    let e = u_escape(ch);
    let cp = ch as u32;
    vstd::utf8::char_u32_cast(ch, cp);
    assert(is_scalar(cp));
    assert(scalar_text(cp) =~= seq![ch]);
    assert(acc + seq![ch] =~= acc.push(ch));
    assert(c[j + 0] == e[0] && c[j + 1] == e[1]);
    if (cp as nat) < 0x10000 {
        let h = hex4(cp as nat);
        assert(e =~= seq!['\\', 'u'] + h);
        lemma_spelled_split(c, j, seq!['\\', 'u'], h);
        lemma_hex4(c, j + 2, cp as nat);
        assert(e.len() == 6);
    } else {
        let v = (cp as nat - 0x10000) as nat;
        let hi = (0xD800 + v / 1024) as nat;
        let lo = (0xDC00 + v % 1024) as nat;
        let ph = seq!['\\', 'u'] + hex4(hi);
        let pl = seq!['\\', 'u'] + hex4(lo);
        assert(e =~= ph + pl);
        lemma_spelled_split(c, j, ph, pl);
        lemma_spelled_split(c, j, seq!['\\', 'u'], hex4(hi));
        lemma_spelled_split(c, j + 6, seq!['\\', 'u'], hex4(lo));
        assert(v < 0x100000);
        assert(v / 1024 < 1024) by (nonlinear_arith)
            requires
                v < 0x100000,
        ;
        assert(v % 1024 < 1024) by (nonlinear_arith);
        lemma_hex4(c, j + 2, hi);
        lemma_hex4(c, j + 8, lo);
        assert(c[j + 6] == pl[0] && c[j + 7] == pl[1]);
        assert((v / 1024) * 1024 + v % 1024 == v) by (nonlinear_arith);
        assert(crate::json::combine_surrogates(hi as u32, lo as u32) == cp);
        assert(e.len() == 12);
    }
}

proof fn lemma_p_str_u(c: Seq<char>, j: int, acc: Seq<char>, s: Seq<char>)
    requires
        spelled(c, j, u_escaped(s).push('"')),
    ensures
        p_str(c, j, acc) == Ok::<(Seq<char>, int), Seq<char>>((acc + s, j + u_escaped(s).len() + 1)),
    decreases s.len(),
{
    if s.len() == 0 {
        assert(u_escaped(s) =~= Seq::<char>::empty());
        assert(c[j + 0] == u_escaped(s).push('"')[0]);
        assert(acc + s =~= acc);
    } else {
        let ch = s[0];
        let rest = s.drop_first();
        let e = u_escape(ch);
        assert(u_escaped(s).push('"') =~= e + u_escaped(rest).push('"'));
        lemma_spelled_split(c, j, e, u_escaped(rest).push('"'));
        lemma_p_str_u(c, j + e.len(), acc.push(ch), rest);
        assert(acc.push(ch) + rest =~= acc + s);
        lemma_u_step(c, j, acc, ch);
    }
}

/// Every `\u` escape of a scalar value reads as its character, not only the escapes the writer
/// emits: a string literal that spells each character of `s` as a `\u` escape (a surrogate pair
/// above the basic plane) parses to `s`.
pub proof fn unicode_escapes_read_as_their_characters(s: Seq<char>)
    ensures
        parse_spec(seq!['"'] + u_escaped(s) + seq!['"']) == Ok::<JsonV, Seq<char>>(JsonV::Str(s)),
{
    let c = seq!['"'] + u_escaped(s) + seq!['"'];
    let u = u_escaped(s);
    assert forall|t: int| 0 <= t < u.push('"').len() implies #[trigger] c[1 + t] == u.push('"')[t] by {
        if t < u.len() {
            assert(c[1 + t] == u[t]);
        }
    }
    assert(spelled(c, 1, u.push('"')));
    lemma_p_str_u(c, 1, Seq::empty(), s);
    assert(Seq::<char>::empty() + s =~= s);
    assert(c.skip(0) =~= c);
    assert(ws_run(c.skip(0)) == 0);
    assert(c.skip(c.len() as int) =~= Seq::<char>::empty());
    assert(ws_run(c.skip(c.len() as int)) == 0);
}

/// A character spelled with JSON's two-character escapes where one exists (`\"`, `\\`, `\/`,
/// `\b`, `\f`, `\n`, `\r`, `\t`), as itself otherwise.
pub open spec fn short_escape(ch: char) -> Seq<char> {
    if ch == '"' {
        seq!['\\', '"']
    } else if ch == '\\' {
        seq!['\\', '\\']
    } else if ch == '/' {
        seq!['\\', '/']
    } else if ch == '\u{8}' {
        seq!['\\', 'b']
    } else if ch == '\u{c}' {
        seq!['\\', 'f']
    } else if ch == '\n' {
        seq!['\\', 'n']
    } else if ch == '\r' {
        seq!['\\', 'r']
    } else if ch == '\t' {
        seq!['\\', 't']
    } else {
        seq![ch]
    }
}

/// A text with every character that has a two-character escape spelled with it.
pub open spec fn short_escaped(s: Seq<char>) -> Seq<char>
    decreases s.len(),
{
    if s.len() == 0 {
        Seq::empty()
    } else {
        short_escape(s[0]) + short_escaped(s.drop_first())
    }
}

proof fn lemma_p_str_short(c: Seq<char>, j: int, acc: Seq<char>, s: Seq<char>)
    requires
        spelled(c, j, short_escaped(s).push('"')),
    ensures
        p_str(c, j, acc) == Ok::<(Seq<char>, int), Seq<char>>((acc + s, j + short_escaped(s).len() + 1)),
    decreases s.len(),
{
    if s.len() == 0 {
        assert(short_escaped(s) =~= Seq::<char>::empty());
        assert(c[j + 0] == short_escaped(s).push('"')[0]);
        assert(acc + s =~= acc);
    } else {
        let ch = s[0];
        let rest = s.drop_first();
        let e = short_escape(ch);
        assert(short_escaped(s).push('"') =~= e + short_escaped(rest).push('"'));
        lemma_spelled_split(c, j, e, short_escaped(rest).push('"'));
        lemma_p_str_short(c, j + e.len(), acc.push(ch), rest);
        assert(acc.push(ch) + rest =~= acc + s);
        assert(c[j + 0] == e[0]);
        if e.len() == 2 {
            assert(c[j + 1] == e[1]);
        }
    }
}

/// JSON's two-character escapes read as the characters they name, wherever they stand: a string
/// literal that spells `"`, `\`, `/`, backspace, form feed, newline, carriage return and tab with
/// their escapes, and every other character as itself, parses to the text it spells.
pub proof fn short_escapes_read_as_their_characters(s: Seq<char>)
    ensures
        parse_spec(seq!['"'] + short_escaped(s) + seq!['"']) == Ok::<JsonV, Seq<char>>(JsonV::Str(s)),
{
    let c = seq!['"'] + short_escaped(s) + seq!['"'];
    let u = short_escaped(s);
    assert forall|t: int| 0 <= t < u.push('"').len() implies #[trigger] c[1 + t] == u.push('"')[t] by {
        if t < u.len() {
            assert(c[1 + t] == u[t]);
        }
    }
    assert(spelled(c, 1, u.push('"')));
    lemma_p_str_short(c, 1, Seq::empty(), s);
    assert(Seq::<char>::empty() + s =~= s);
    assert(c.skip(0) =~= c);
    assert(ws_run(c.skip(0)) == 0);
    assert(c.skip(c.len() as int) =~= Seq::<char>::empty());
    assert(ws_run(c.skip(c.len() as int)) == 0);
}

/// Whether a text is JSON white space only.
pub open spec fn all_ws(w: Seq<char>) -> bool {
    forall|i: int| 0 <= i < w.len() ==> is_json_ws(#[trigger] w[i])
}

proof fn lemma_ws_run_prefix(w: Seq<char>, r: Seq<char>)
    requires
        all_ws(w),
    ensures
        ws_run(w + r) == w.len() + ws_run(r),
    decreases w.len(),
{
    if w.len() > 0 {
        assert((w + r)[0] == w[0]);
        assert((w + r).drop_first() =~= w.drop_first() + r);
        assert forall|i: int| 0 <= i < w.drop_first().len() implies is_json_ws(#[trigger] w.drop_first()[i]) by {
            assert(w.drop_first()[i] == w[i + 1]);
        }
        lemma_ws_run_prefix(w.drop_first(), r);
    } else {
        assert(w + r =~= r);
    }
}

/// White space around a value changes nothing: a value's text with any JSON white space before
/// and after it parses to the value, for every value whose numbers are exact.
pub proof fn surrounding_white_space_is_ignored(w1: Seq<char>, v: JsonV, w2: Seq<char>)
    requires
        exact_json(v),
        all_ws(w1),
        all_ws(w2),
    ensures
        parse_spec(w1 + jtext(v) + w2) == Ok::<JsonV, Seq<char>>(v),
{
    let t = jtext(v);
    let c = w1 + t + w2;
    let i = w1.len() as int;
    lemma_jtext_head(v);
    assert forall|q: int| 0 <= q < t.len() implies #[trigger] c[i + q] == t[q] by {
        assert(c[i + q] == (w1 + t)[i + q]);
    }
    assert(spelled(c, i, t));
    let e: int = i + t.len();
    if e < c.len() {
        assert(c[e] == w2[0]);
        assert(is_json_ws(w2[0]));
    }
    assert(ends_value(c, e));
    lemma_p_value_text(c, i, v);
    assert(c.skip(0) =~= w1 + (t + w2));
    lemma_ws_run_prefix(w1, t + w2);
    assert((t + w2)[0] == t[0]);
    assert(ws_run(t + w2) == 0);
    assert(ws_end(c, 0) == i);
    assert(c[i] == t[0]);
    lemma_ws_end_at(c, i);
    assert(p_value(c, 0) == p_value(c, i));
    assert(c.skip(e) =~= w2 + Seq::<char>::empty());
    lemma_ws_run_prefix(w2, Seq::<char>::empty());
    assert(ws_run(Seq::<char>::empty()) == 0);
    assert(ws_end(c, e) == c.len());
}

proof fn lemma_ws_end_over(c: Seq<char>, i: int, w: Seq<char>)
    requires
        all_ws(w),
        0 <= i,
        i + w.len() < c.len(),
        c.subrange(i, i + w.len()) =~= w,
        !is_json_ws(c[i + w.len()]),
    ensures
        ws_end(c, i) == i + w.len(),
{
    assert(c.skip(i) =~= w + c.skip(i + w.len()));
    lemma_ws_run_prefix(w, c.skip(i + w.len()));
    assert(c.skip(i + w.len())[0] == c[i + w.len()]);
}

proof fn lemma_spelled_sub(c: Seq<char>, i: int, t: Seq<char>)
    requires
        0 <= i,
        i + t.len() <= c.len(),
        c.subrange(i, i + t.len()) =~= t,
    ensures
        spelled(c, i, t),
{
    assert forall|q: int| 0 <= q < t.len() implies #[trigger] c[i + q] == t[q] by {
        assert(c.subrange(i, i + t.len())[q] == c[i + q]);
    }
}

/// A value's text at `i`, after white space `w` starting at `j`, ending before a character that
/// cannot continue it: the value is read from `j`.
proof fn lemma_value_after_ws(c: Seq<char>, j: int, w: Seq<char>, v: JsonV)
    requires
        exact_json(v),
        all_ws(w),
        0 <= j,
        j + w.len() + jtext(v).len() <= c.len(),
        c.subrange(j, j + w.len()) =~= w,
        c.subrange(j + w.len(), j + w.len() + jtext(v).len()) =~= jtext(v),
        ends_value(c, j + w.len() + jtext(v).len()),
    ensures
        p_value(c, j) == Ok::<(JsonV, int), Seq<char>>((v, j + w.len() + jtext(v).len())),
{
    let i = j + w.len();
    lemma_jtext_head(v);
    lemma_spelled_sub(c, i, jtext(v));
    lemma_p_value_text(c, i, v);
    assert(c[i] == jtext(v)[0]);
    lemma_ws_end_over(c, j, w);
    lemma_ws_end_at(c, i);
    assert(p_value(c, j) == p_value(c, i));
}

proof fn lemma_sub_prefix(p: Seq<char>, r: Seq<char>, x: int, y: int)
    requires
        0 <= x <= y <= p.len(),
    ensures
        (p + r).subrange(x, y) == p.subrange(x, y),
{
    assert((p + r).subrange(x, y) =~= p.subrange(x, y));
}

proof fn lemma_elems_two(c: Seq<char>, a: int, e1: int, comma: int, e2: int, close: int, v1: JsonV, v2: JsonV)
    requires
        0 <= a <= e1 <= comma < close < c.len(),
        p_value(c, a) == Ok::<(JsonV, int), Seq<char>>((v1, e1)),
        ws_end(c, e1) == comma,
        c[comma] == ',',
        comma + 1 <= e2 <= close,
        p_value(c, comma + 1) == Ok::<(JsonV, int), Seq<char>>((v2, e2)),
        ws_end(c, e2) == close,
        c[close] == ']',
    ensures
        p_elems(c, a, Seq::empty()) == Ok::<(JsonV, int), Seq<char>>((JsonV::Arr(seq![v1, v2]), close + 1)),
{
    assert(seq![v1].push(v2) =~= seq![v1, v2]);
    assert(Seq::<JsonV>::empty().push(v1) =~= seq![v1]);
    assert(p_elems(c, comma + 1, seq![v1]) == Ok::<(JsonV, int), Seq<char>>((JsonV::Arr(seq![v1, v2]), close + 1)));
}

/// White space inside an array changes nothing: two values' texts between brackets and around
/// their comma, with any white space before and after each, parse to the array of the two.
#[verifier::spinoff_prover]
#[verifier::rlimit(60)]
pub proof fn white_space_inside_an_array_is_ignored(
    w1: Seq<char>,
    v1: JsonV,
    w2: Seq<char>,
    w3: Seq<char>,
    v2: JsonV,
    w4: Seq<char>,
)
    requires
        exact_json(v1),
        exact_json(v2),
        all_ws(w1),
        all_ws(w2),
        all_ws(w3),
        all_ws(w4),
    ensures
        parse_spec(seq!['['] + w1 + jtext(v1) + w2 + seq![','] + w3 + jtext(v2) + w4 + seq![']'])
            == Ok::<JsonV, Seq<char>>(JsonV::Arr(seq![v1, v2])),
{
    let t1 = jtext(v1);
    let t2 = jtext(v2);
    let p1 = seq!['['] + w1;
    let p2 = p1 + t1;
    let p3 = p2 + w2;
    let p4 = p3 + seq![','];
    let p5 = p4 + w3;
    let p6 = p5 + t2;
    let p7 = p6 + w4;
    let c = p7 + seq![']'];
    lemma_jtext_head(v1);
    lemma_jtext_head(v2);
    let a: int = p1.len() as int;
    let e1: int = p2.len() as int;
    let comma: int = p3.len() as int;
    let b: int = p4.len() as int;
    let m: int = p5.len() as int;
    let e2: int = p6.len() as int;
    let close: int = p7.len() as int;
    assert(c =~= seq!['['] + w1 + jtext(v1) + w2 + seq![','] + w3 + jtext(v2) + w4 + seq![']']);
    assert(p1.subrange(1, a) =~= w1);
    lemma_sub_prefix(p1, t1, 1, a);
    lemma_sub_prefix(p2, w2, 1, a);
    lemma_sub_prefix(p3, seq![','], 1, a);
    lemma_sub_prefix(p4, w3, 1, a);
    lemma_sub_prefix(p5, t2, 1, a);
    lemma_sub_prefix(p6, w4, 1, a);
    lemma_sub_prefix(p7, seq![']'], 1, a);
    assert(p2.subrange(a, e1) =~= t1);
    lemma_sub_prefix(p2, w2, a, e1);
    lemma_sub_prefix(p3, seq![','], a, e1);
    lemma_sub_prefix(p4, w3, a, e1);
    lemma_sub_prefix(p5, t2, a, e1);
    lemma_sub_prefix(p6, w4, a, e1);
    lemma_sub_prefix(p7, seq![']'], a, e1);
    assert(p3.subrange(e1, comma) =~= w2);
    lemma_sub_prefix(p3, seq![','], e1, comma);
    lemma_sub_prefix(p4, w3, e1, comma);
    lemma_sub_prefix(p5, t2, e1, comma);
    lemma_sub_prefix(p6, w4, e1, comma);
    lemma_sub_prefix(p7, seq![']'], e1, comma);
    assert(p5.subrange(b, m) =~= w3);
    lemma_sub_prefix(p5, t2, b, m);
    lemma_sub_prefix(p6, w4, b, m);
    lemma_sub_prefix(p7, seq![']'], b, m);
    assert(p6.subrange(m, e2) =~= t2);
    lemma_sub_prefix(p6, w4, m, e2);
    lemma_sub_prefix(p7, seq![']'], m, e2);
    assert(p7.subrange(e2, close) =~= w4);
    lemma_sub_prefix(p7, seq![']'], e2, close);
    assert(c[0] == '[');
    assert(c[comma] == ',');
    assert(c[close] == ']');
    assert(c[a] == t1[0]);
    assert(c[m] == t2[0]);
    if w2.len() > 0 {
        assert(c[e1] == w2[0]);
    }
    if w4.len() > 0 {
        assert(c[e2] == w4[0]);
    }
    assert(ends_value(c, e1));
    assert(ends_value(c, e2));
    lemma_value_after_ws(c, 1, w1, v1);
    lemma_value_after_ws(c, b, w3, v2);
    lemma_ws_end_over(c, e1, w2);
    lemma_ws_end_over(c, e2, w4);
    lemma_ws_end_over(c, 1, w1);
    lemma_ws_end_at(c, 0);
    lemma_elems_two(c, a, e1, comma, e2, close, v1, v2);
    assert(p_array(c, 0) == Ok::<(JsonV, int), Seq<char>>((JsonV::Arr(seq![v1, v2]), close + 1)));
    assert(c.skip(c.len() as int) =~= Seq::<char>::empty());
    assert(ws_run(c.skip(c.len() as int)) == 0);
}

/// White space inside an object changes nothing: a member's key and value text between braces,
/// with any white space before and after the key, the colon and the value, parse to the object of
/// that member.
#[verifier::spinoff_prover]
#[verifier::rlimit(60)]
pub proof fn white_space_inside_an_object_is_ignored(
    w1: Seq<char>,
    key: Seq<char>,
    w2: Seq<char>,
    w3: Seq<char>,
    v: JsonV,
    w4: Seq<char>,
)
    requires
        exact_json(v),
        all_ws(w1),
        all_ws(w2),
        all_ws(w3),
        all_ws(w4),
    ensures
        parse_spec(
            seq!['{'] + w1 + seq!['"'] + escaped(key) + seq!['"'] + w2 + seq![':'] + w3 + jtext(v) + w4
                + seq!['}'],
        ) == Ok::<JsonV, Seq<char>>(JsonV::Obj(seq![(key, v)])),
{
    let ek = escaped(key);
    let t = jtext(v);
    let p1 = seq!['{'] + w1;
    let p2 = p1 + seq!['"'];
    let p3 = p2 + ek;
    let p4 = p3 + seq!['"'];
    let p5 = p4 + w2;
    let p6 = p5 + seq![':'];
    let p7 = p6 + w3;
    let p8 = p7 + t;
    let p9 = p8 + w4;
    let c = p9 + seq!['}'];
    lemma_jtext_head(v);
    let q: int = p1.len() as int;
    let kend: int = p4.len() as int;
    let colon: int = p5.len() as int;
    let b: int = p6.len() as int;
    let m: int = p7.len() as int;
    let e: int = p8.len() as int;
    let close: int = p9.len() as int;
    assert(c =~= seq!['{'] + w1 + seq!['"'] + escaped(key) + seq!['"'] + w2 + seq![':'] + w3 + jtext(v) + w4 + seq!['}']);
    assert(p1.subrange(1, q) =~= w1);
    lemma_sub_prefix(p1, seq!['"'], 1, q);
    lemma_sub_prefix(p2, ek, 1, q);
    lemma_sub_prefix(p3, seq!['"'], 1, q);
    lemma_sub_prefix(p4, w2, 1, q);
    lemma_sub_prefix(p5, seq![':'], 1, q);
    lemma_sub_prefix(p6, w3, 1, q);
    lemma_sub_prefix(p7, t, 1, q);
    lemma_sub_prefix(p8, w4, 1, q);
    lemma_sub_prefix(p9, seq!['}'], 1, q);
    assert(p5.subrange(kend, colon) =~= w2);
    lemma_sub_prefix(p5, seq![':'], kend, colon);
    lemma_sub_prefix(p6, w3, kend, colon);
    lemma_sub_prefix(p7, t, kend, colon);
    lemma_sub_prefix(p8, w4, kend, colon);
    lemma_sub_prefix(p9, seq!['}'], kend, colon);
    assert(p7.subrange(b, m) =~= w3);
    lemma_sub_prefix(p7, t, b, m);
    lemma_sub_prefix(p8, w4, b, m);
    lemma_sub_prefix(p9, seq!['}'], b, m);
    assert(p8.subrange(m, e) =~= t);
    lemma_sub_prefix(p8, w4, m, e);
    lemma_sub_prefix(p9, seq!['}'], m, e);
    assert(p9.subrange(e, close) =~= w4);
    lemma_sub_prefix(p9, seq!['}'], e, close);
    assert(p4.subrange(q + 1, kend) =~= ek.push('"'));
    lemma_sub_prefix(p4, w2, q + 1, kend);
    lemma_sub_prefix(p5, seq![':'], q + 1, kend);
    lemma_sub_prefix(p6, w3, q + 1, kend);
    lemma_sub_prefix(p7, t, q + 1, kend);
    lemma_sub_prefix(p8, w4, q + 1, kend);
    lemma_sub_prefix(p9, seq!['}'], q + 1, kend);
    assert(c[0] == '{');
    assert(c[q] == '"');
    assert(c[colon] == ':');
    assert(c[close] == '}');
    assert(c[m] == t[0]);
    if w4.len() > 0 {
        assert(c[e] == w4[0]);
    }
    assert(ends_value(c, e));
    lemma_spelled_sub(c, q + 1, ek.push('"'));
    lemma_p_str_text(c, q + 1, Seq::empty(), key);
    assert(Seq::<char>::empty() + key =~= key);
    lemma_value_after_ws(c, b, w3, v);
    lemma_ws_end_over(c, 1, w1);
    lemma_ws_end_over(c, kend, w2);
    lemma_ws_end_over(c, e, w4);
    lemma_ws_end_at(c, 0);
    assert(Seq::<(Seq<char>, JsonV)>::empty().push((key, v)) =~= seq![(key, v)]);
    assert(p_members(c, 1, Seq::empty()) == Ok::<(JsonV, int), Seq<char>>((JsonV::Obj(seq![(key, v)]), close + 1)));
    assert(p_object(c, 0) == Ok::<(JsonV, int), Seq<char>>((JsonV::Obj(seq![(key, v)]), close + 1)));
    assert(c.skip(c.len() as int) =~= Seq::<char>::empty());
    assert(ws_run(c.skip(c.len() as int)) == 0);
}

/// The writer leaves a plain text as it is: a string with no quote, backslash or control
/// character is written as itself between quotes.
pub proof fn plain_text_is_written_as_itself(s: Seq<char>)
    requires
        forall|i: int| 0 <= i < s.len() ==> #[trigger] s[i] != '"' && s[i] != '\\' && (s[i] as u32) >= 0x20,
    ensures
        escaped(s) == s,
        str_text(s) == seq!['"'] + s + seq!['"'],
    decreases s.len(),
{
    if s.len() > 0 {
        let d = s.drop_last();
        assert forall|i: int| 0 <= i < d.len() implies #[trigger] d[i] != '"' && d[i] != '\\' && (d[i] as u32)
            >= 0x20 by {
            assert(d[i] == s[i]);
        }
        plain_text_is_written_as_itself(d);
        assert(s[s.len() - 1] == s.last());
        assert(escape_char(s.last()) == seq![s.last()]);
        assert(escaped(s) =~= s);
    } else {
        assert(escaped(s) =~= s);
    }
}

/// The writer never leaves a control character raw: every character of a string's written text
/// is at or above U+0020, whatever the string holds.
pub proof fn written_text_holds_no_control_character(s: Seq<char>)
    ensures
        forall|i: int| 0 <= i < escaped(s).len() ==> (#[trigger] escaped(s)[i] as u32) >= 0x20,
    decreases s.len(),
{
    if s.len() > 0 {
        let d = s.drop_last();
        written_text_holds_no_control_character(d);
        let ch = s.last();
        let e = escape_char(ch);
        let v = ch as u32;
        if v < 0x20 && ch != '\n' && ch != '\r' && ch != '\t' && ch != '"' && ch != '\\' {
            crate::reread::lemma_hex_char_range((v / 16) as nat);
            crate::reread::lemma_hex_char_range((v % 16) as nat);
        }
        assert forall|i: int| 0 <= i < e.len() implies (#[trigger] e[i] as u32) >= 0x20 by {}
        let t = escaped(s);
        assert(t == escaped(d) + e);
        assert forall|i: int| 0 <= i < t.len() implies (#[trigger] t[i] as u32) >= 0x20 by {
            if i < escaped(d).len() {
                assert(t[i] == escaped(d)[i]);
            } else {
                assert(t[i] == e[i - escaped(d).len()]);
            }
        }
    }
}

} // verus!
