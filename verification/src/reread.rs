//! Writing then reading: the compact text of a JSON value reads back as the value that was
//! written, the line of an event as the event, and a written log as its batch.
//!
//! The reader and the writer are stated separately in [`crate::json`] (`p_value`, `jtext`); the
//! proofs here walk the written text left to right the way the reader does.

use crate::json::{
    escape_char, escaped, hex_char, hex_val, is_json_ws, is_num_char, is_scalar, items_text, jtext,
    members_text, num_run, p_array, p_elems, p_hex, p_members, p_number, p_object, p_str, p_value,
    parse_spec, scalar_text, str_text, unescape, word_at, ws_end, ws_run, JsonV,
};
use crate::codec::{
    event_members, jsonl_spec, line_spec, names_unknown_lane, opt_int, opt_member, opt_num,
    opt_str, parse_event_round_trip, parse_event_spec, to_json_spec, Rejected,
};
use crate::log::{
    lemma_split_lines_len, parse_log_spec, read_record, read_records, records_of, records_spec,
    split_lines, ReadState,
};
use crate::genesis::{
    added_events, compact_round_trip, compact_spec, edge_events, element_events, from_model_spec,
    header_events, phase_events,
};
use crate::model::{format_declared_spec, format_round_trip, EdgeV, ElementV, ModelV, PhaseV};
use crate::replay::replay_spec;
use crate::text::{is_ws, trim, trim_end, trim_start};
use crate::event::EventV;
use crate::number::{
    canonical, dec_digits, is_digit, lemma_dec_digits_shape, lemma_number_text_round_trip,
    lemma_of_int_exact, lex_number, number_text, of_int, pow10, zeros, Number, MANT_DIGITS,
};
use vstd::prelude::*;

verus! {

/// Whether `w` is spelled in `c` from position `j` on.
pub open spec fn spelled(c: Seq<char>, j: int, w: Seq<char>) -> bool {
    &&& 0 <= j
    &&& j + w.len() <= c.len()
    &&& forall|t: int| 0 <= t < w.len() ==> #[trigger] c[j + t] == w[t]
}

/// Whether a number is written and read back exactly: canonical, with at most eighteen
/// significant digits.
pub open spec fn exact_number(n: Number) -> bool {
    canonical(n) && n.mant < pow10(MANT_DIGITS as nat)
}

/// Whether every number inside a value is written and read back exactly.
pub open spec fn exact_json(j: JsonV) -> bool
    decreases j,
{
    match j {
        JsonV::Num(n) => exact_number(n),
        JsonV::Arr(a) => forall|i: int| 0 <= i < a.len() ==> exact_json(#[trigger] a[i]),
        JsonV::Obj(o) => forall|i: int| 0 <= i < o.len() ==> exact_json(#[trigger] o[i].1),
        _ => true,
    }
}

// ---- strings ---------------------------------------------------------------------------------

pub(crate) proof fn lemma_spelled_split(c: Seq<char>, j: int, a: Seq<char>, b: Seq<char>)
    requires
        spelled(c, j, a + b),
    ensures
        spelled(c, j, a),
        spelled(c, j + a.len(), b),
{
    assert forall|t: int| 0 <= t < a.len() implies #[trigger] c[j + t] == a[t] by {
        assert(c[j + t] == (a + b)[t]);
    }
    assert forall|t: int| 0 <= t < b.len() implies #[trigger] c[j + a.len() + t] == b[t] by {
        assert(c[j + (a.len() + t)] == (a + b)[a.len() + t]);
        assert(j + (a.len() + t) == j + a.len() + t);
    }
}

/// The escaped text of a string, taken from the front.
proof fn lemma_escaped_front(s: Seq<char>)
    requires
        s.len() > 0,
    ensures
        escaped(s) == escape_char(s[0]) + escaped(s.drop_first()),
    decreases s.len(),
{
    if s.len() == 1 {
        assert(s.drop_last() =~= Seq::<char>::empty());
        assert(s.drop_first() =~= Seq::<char>::empty());
        assert(escaped(Seq::<char>::empty()) =~= Seq::<char>::empty());
        assert(escape_char(s[0]) + Seq::<char>::empty() =~= escape_char(s[0]));
    } else {
        lemma_escaped_front(s.drop_last());
        assert(s.drop_last()[0] == s[0]);
        assert(s.drop_last().drop_first() =~= s.drop_first().drop_last());
        assert(s.drop_first().last() == s.last());
        assert(escaped(s.drop_first()) == escaped(s.drop_first().drop_last()) + escape_char(
            s.drop_first().last(),
        ));
        assert(escaped(s) =~= escape_char(s[0]) + escaped(s.drop_first()));
    }
}

pub(crate) proof fn lemma_hex_char(d: nat)
    requires
        d < 16,
    ensures
        hex_val(hex_char(d)) == Some(d as u32),
{
    if d < 10 {
        assert(((d + 48) as u8) as char as u32 == d + 48);
    } else {
        assert(((d + 87) as u8) as char as u32 == d + 87);
    }
}

/// A hex digit is a printable character.
pub(crate) proof fn lemma_hex_char_range(d: nat)
    requires
        d < 16,
    ensures
        (hex_char(d) as u32) >= 0x30,
{
    if d < 10 {
        assert(((d + 48) as u8) as char as u32 == d + 48);
    } else {
        assert(((d + 87) as u8) as char as u32 == d + 87);
    }
}

/// A control character written as `\u00XY` reads back as itself.
proof fn lemma_control_escape(c: Seq<char>, j: int, ch: char)
    requires
        (ch as u32) < 0x20,
        spelled(c, j, escape_char(ch)),
        ch != '\n' && ch != '\r' && ch != '\t',
    ensures
        escape_char(ch).len() == 6,
        c[j] == '\\',
        c[j + 1] == 'u',
        p_hex(c, j + 2, 0, 0) == Ok::<u32, Seq<char>>(ch as u32),
{
    let v = ch as u32;
    let e = escape_char(ch);
    assert(ch != '"' && ch != '\\');
    assert(e == seq!['\\', 'u', '0', '0', hex_char((v / 16) as nat), hex_char((v % 16) as nat)]);
    assert(c[j + 0] == e[0] && c[j + 1] == e[1] && c[j + 2] == e[2] && c[j + 3] == e[3]);
    assert(c[j + 4] == e[4] && c[j + 5] == e[5]);
    lemma_hex_char(0);
    assert(hex_char(0) == '0');
    lemma_hex_char((v / 16) as nat);
    lemma_hex_char((v % 16) as nat);
    reveal_with_fuel(p_hex, 5);
    assert(((v / 16) * 16 + v % 16) as u32 == v);
}

/// A string's escaped text and closing quote read back as the string.
pub proof fn lemma_p_str_text(c: Seq<char>, j: int, acc: Seq<char>, s: Seq<char>)
    requires
        spelled(c, j, escaped(s).push('"')),
    ensures
        p_str(c, j, acc) == Ok::<(Seq<char>, int), Seq<char>>((acc + s, j + escaped(s).len() + 1)),
    decreases s.len(),
{
    if s.len() == 0 {
        assert(escaped(s) =~= Seq::<char>::empty());
        assert(c[j + 0] == escaped(s).push('"')[0]);
        assert(acc + s =~= acc);
    } else {
        let ch = s[0];
        let rest = s.drop_first();
        let e = escape_char(ch);
        lemma_escaped_front(s);
        assert(escaped(s).push('"') =~= e + escaped(rest).push('"'));
        lemma_spelled_split(c, j, e, escaped(rest).push('"'));
        lemma_p_str_text(c, j + e.len(), acc.push(ch), rest);
        assert(acc.push(ch) + rest =~= acc + s);
        assert(j + e.len() + escaped(rest).len() + 1 == j + escaped(s).len() + 1);
        if ch == '"' || ch == '\\' || ch == '\n' || ch == '\r' || ch == '\t' {
            assert(c[j + 0] == e[0]);
            assert(c[j + 1] == e[1]);
            assert(unescape(c[j + 1]) == ch);
        } else if (ch as u32) < 0x20 {
            lemma_control_escape(c, j, ch);
            assert(is_scalar(ch as u32));
            vstd::utf8::char_u32_cast(ch, ch as u32);
            assert(scalar_text(ch as u32) =~= seq![ch]);
            assert(acc + seq![ch] =~= acc.push(ch));
        } else {
            assert(c[j + 0] == e[0]);
        }
    }
}

// ---- numbers ---------------------------------------------------------------------------------

/// The text of a number is made of number characters and starts with a sign or a digit.
pub proof fn lemma_number_text_chars(n: Number)
    ensures
        number_text(n).len() > 0,
        forall|i: int| 0 <= i < number_text(n).len() ==> is_num_char(#[trigger] number_text(n)[i]),
        number_text(n)[0] == '-' || is_digit(number_text(n)[0]),
{
    let t = number_text(n);
    if n.mant != 0 {
        let d = dec_digits(n.mant as nat);
        lemma_dec_digits_shape(n.mant as nat);
        assert forall|i: int| 0 <= i < t.len() implies is_num_char(#[trigger] t[i]) by {
            let sign: Seq<char> = if n.neg { seq!['-'] } else { Seq::empty() };
            let sl = sign.len() as int;
            if i >= sl {
                let r = i - sl;
                if n.exp >= 0 {
                    assert(t == sign + d + zeros(n.exp as nat));
                    if r < d.len() {
                        assert(t[i] == d[r]);
                    } else {
                        assert(t[i] == '0');
                    }
                } else {
                    let k = -n.exp;
                    if k < d.len() {
                        assert(t == sign + d.take(d.len() - k) + seq!['.'] + d.skip(d.len() - k));
                        if r < d.len() - k {
                            assert(t[i] == d[r]);
                        } else if r > d.len() - k {
                            assert(t[i] == d[r - 1]);
                        }
                    } else {
                        let zz = (k - d.len()) as nat;
                        assert(t == sign + seq!['0', '.'] + zeros(zz) + d);
                        if r >= 2 + zz {
                            assert(t[i] == d[r - 2 - zz]);
                        } else if r >= 2 {
                            assert(t[i] == '0');
                        }
                    }
                }
            }
        }
        if !n.neg {
            if n.exp >= 0 {
                assert(t[0] == d[0]);
            } else {
                let k = -n.exp;
                if k < d.len() {
                    assert(t[0] == d[0]);
                }
            }
        }
    }
}

/// A run of number characters ends where the number characters do.
proof fn lemma_num_run_prefix(t: Seq<char>, r: Seq<char>)
    requires
        forall|i: int| 0 <= i < t.len() ==> is_num_char(#[trigger] t[i]),
        r.len() == 0 || !is_num_char(r[0]),
    ensures
        num_run(t + r) == t.len(),
    decreases t.len(),
{
    if t.len() == 0 {
        assert(t + r =~= r);
    } else {
        assert((t + r).drop_first() =~= t.drop_first() + r);
        assert((t + r)[0] == t[0]);
        assert forall|i: int| 0 <= i < t.drop_first().len() implies is_num_char(
            #[trigger] t.drop_first()[i],
        ) by {
            assert(t.drop_first()[i] == t[i + 1]);
        }
        lemma_num_run_prefix(t.drop_first(), r);
    }
}

// ---- values ----------------------------------------------------------------------------------

/// Whether the character at `k` (if any) cannot continue a number literal.
pub open spec fn ends_value(c: Seq<char>, k: int) -> bool {
    k >= c.len() || !is_num_char(c[k])
}

/// One member of an object, written `"key":value`.
pub open spec fn member_text(p: (Seq<char>, JsonV)) -> Seq<char> {
    str_text(p.0) + seq![':'] + jtext(p.1)
}

pub(crate) proof fn lemma_ws_end_at(c: Seq<char>, k: int)
    requires
        0 <= k < c.len(),
        !is_json_ws(c[k]),
    ensures
        ws_end(c, k) == k,
{
    assert(c.skip(k)[0] == c[k]);
}

/// A value's text starts with a character that is no white space, separator or closing bracket.
pub(crate) proof fn lemma_jtext_head(v: JsonV)
    ensures
        jtext(v).len() > 0,
        !is_json_ws(jtext(v)[0]),
        jtext(v)[0] != ',' && jtext(v)[0] != ']' && jtext(v)[0] != '}' && jtext(v)[0] != ':',
{
    reveal_strlit("null");
    reveal_strlit("true");
    reveal_strlit("false");
    match v {
        JsonV::Num(n) => {
            lemma_number_text_chars(n);
        },
        _ => {},
    }
}

/// The elements of an array, taken from the front.
proof fn lemma_items_front(a: Seq<JsonV>)
    requires
        a.len() > 0,
    ensures
        items_text(a) == jtext(a[0]) + (if a.len() > 1 {
            seq![','] + items_text(a.subrange(1, a.len() as int))
        } else {
            Seq::<char>::empty()
        }),
    decreases a.len(),
{
    let init = a.subrange(0, a.len() - 1);
    if a.len() == 1 {
        assert(init =~= Seq::<JsonV>::empty());
        assert(items_text(init) =~= Seq::<char>::empty());
        assert(items_text(a) =~= jtext(a[0]));
    } else {
        lemma_items_front(init);
        let rest = a.subrange(1, a.len() as int);
        assert(rest.subrange(0, rest.len() - 1) =~= init.subrange(1, init.len() as int));
        assert(rest[rest.len() - 1] == a[a.len() - 1]);
        assert(init[0] == a[0]);
        if a.len() == 2 {
            assert(rest.subrange(0, rest.len() - 1) =~= Seq::<JsonV>::empty());
            assert(items_text(Seq::<JsonV>::empty()) =~= Seq::<char>::empty());
            assert(rest[0] == a[1]);
            assert(items_text(rest) =~= Seq::<char>::empty() + Seq::<char>::empty() + jtext(
                rest[0],
            ));
            assert(items_text(rest) =~= jtext(a[1]));
            assert(items_text(a) =~= jtext(a[0]) + seq![','] + items_text(rest));
        } else {
            assert(items_text(a) =~= jtext(a[0]) + (seq![','] + items_text(rest)));
        }
    }
}

/// The members of an object, taken from the front.
proof fn lemma_members_front(o: Seq<(Seq<char>, JsonV)>)
    requires
        o.len() > 0,
    ensures
        members_text(o) == member_text(o[0]) + (if o.len() > 1 {
            seq![','] + members_text(o.subrange(1, o.len() as int))
        } else {
            Seq::<char>::empty()
        }),
    decreases o.len(),
{
    let init = o.subrange(0, o.len() - 1);
    let last = o[o.len() - 1];
    if o.len() == 1 {
        assert(init =~= Seq::<(Seq<char>, JsonV)>::empty());
        assert(members_text(init) =~= Seq::<char>::empty());
        assert(members_text(o) =~= member_text(o[0]));
    } else {
        lemma_members_front(init);
        let rest = o.subrange(1, o.len() as int);
        assert(rest.subrange(0, rest.len() - 1) =~= init.subrange(1, init.len() as int));
        assert(rest[rest.len() - 1] == last);
        assert(init[0] == o[0]);
        if o.len() == 2 {
            assert(rest.subrange(0, rest.len() - 1) =~= Seq::<(Seq<char>, JsonV)>::empty());
            assert(members_text(Seq::<(Seq<char>, JsonV)>::empty()) =~= Seq::<char>::empty());
            assert(rest[0] == o[1]);
            assert(members_text(rest) =~= Seq::<char>::empty() + Seq::<char>::empty() + str_text(
                rest[0].0,
            ) + seq![':'] + jtext(rest[0].1));
            assert(members_text(rest) =~= member_text(o[1]));
            assert(members_text(o) =~= member_text(o[0]) + seq![','] + members_text(rest));
        } else {
            assert(members_text(o) =~= member_text(o[0]) + (seq![','] + members_text(rest)));
        }
    }
}

/// A number's text, followed by anything that cannot continue it, reads back as the number.
proof fn lemma_p_number_text(c: Seq<char>, i: int, n: Number)
    requires
        exact_number(n),
        spelled(c, i, number_text(n)),
        ends_value(c, i + number_text(n).len()),
    ensures
        p_number(c, i) == Ok::<(JsonV, int), Seq<char>>((JsonV::Num(n), i + number_text(n).len())),
{
    let t = number_text(n);
    let e = i + t.len();
    lemma_number_text_chars(n);
    assert(c.skip(i) =~= t + c.skip(e)) by {
        assert forall|x: int| 0 <= x < t.len() implies #[trigger] c.skip(i)[x] == (t + c.skip(e))[x] by {
            assert(c[i + x] == t[x]);
        }
    }
    if e < c.len() {
        assert(c.skip(e)[0] == c[e]);
    }
    lemma_num_run_prefix(t, c.skip(e));
    assert(c.subrange(i, e) =~= t) by {
        assert forall|x: int| 0 <= x < t.len() implies #[trigger] c.subrange(i, e)[x] == t[x] by {
            assert(c[i + x] == t[x]);
        }
    }
    lemma_number_text_round_trip(n);
}

/// The text of a value, followed by anything that cannot continue it, reads back as the value.
#[verifier::spinoff_prover]
pub proof fn lemma_p_value_text(c: Seq<char>, i: int, v: JsonV)
    requires
        exact_json(v),
        spelled(c, i, jtext(v)),
        ends_value(c, i + jtext(v).len()),
    ensures
        p_value(c, i) == Ok::<(JsonV, int), Seq<char>>((v, i + jtext(v).len())),
    decreases v, 1int,
{
    lemma_jtext_head(v);
    let w = jtext(v);
    assert(c[i + 0] == w[0]);
    lemma_ws_end_at(c, i);
    reveal_strlit("null");
    reveal_strlit("true");
    reveal_strlit("false");
    match v {
        JsonV::Null => {
            assert(c.subrange(i, i + 4) =~= "null"@) by {
                assert forall|x: int| 0 <= x < 4 implies #[trigger] c.subrange(i, i + 4)[x] == w[x] by {
                    assert(c[i + x] == w[x]);
                }
            }
            assert(word_at(c, i, "null"@));
            assert(w.len() == 4);
            assert(c[i] == 'n');
            assert(p_value(c, i) == Ok::<(JsonV, int), Seq<char>>((JsonV::Null, i + 4)));
        },
        JsonV::Bool(b) => {
            if b {
                assert(c.subrange(i, i + 4) =~= "true"@) by {
                    assert forall|x: int| 0 <= x < 4 implies #[trigger] c.subrange(i, i + 4)[x] == w[x] by {
                        assert(c[i + x] == w[x]);
                    }
                }
                assert(word_at(c, i, "true"@));
            } else {
                assert(c.subrange(i, i + 5) =~= "false"@) by {
                    assert forall|x: int| 0 <= x < 5 implies #[trigger] c.subrange(i, i + 5)[x] == w[x] by {
                        assert(c[i + x] == w[x]);
                    }
                }
                assert(word_at(c, i, "false"@));
            }
            assert(p_value(c, i) == Ok::<(JsonV, int), Seq<char>>((v, i + w.len())));
        },
        JsonV::Num(n) => {
            lemma_number_text_chars(n);
            lemma_p_number_text(c, i, n);
            assert(p_value(c, i) == Ok::<(JsonV, int), Seq<char>>((v, i + w.len())));
        },
        JsonV::Str(s) => {
            assert(w =~= seq!['"'] + escaped(s).push('"'));
            lemma_spelled_split(c, i, seq!['"'], escaped(s).push('"'));
            lemma_p_str_text(c, i + 1, Seq::empty(), s);
            assert(Seq::<char>::empty() + s =~= s);
            assert(p_value(c, i) == Ok::<(JsonV, int), Seq<char>>((v, i + w.len())));
        },
        JsonV::Arr(a) => {
            if a.len() == 0 {
                assert(items_text(a) =~= Seq::<char>::empty());
                assert(w =~= seq!['[', ']']);
                assert(c[i + 1] == w[1]);
                lemma_ws_end_at(c, i + 1);
            } else {
                let it = items_text(a);
                assert(w =~= seq!['['] + it.push(']'));
                lemma_spelled_split(c, i, seq!['['], it.push(']'));
                lemma_items_front(a);
                lemma_jtext_head(a[0]);
                assert(it[0] == jtext(a[0])[0]);
                assert(c[i + 1 + 0] == it.push(']')[0]);
                lemma_ws_end_at(c, i + 1);
                lemma_p_elems_text(c, i + 1, Seq::empty(), a);
                assert(Seq::<JsonV>::empty() + a =~= a);
            }
            assert(p_value(c, i) == Ok::<(JsonV, int), Seq<char>>((v, i + w.len())));
        },
        JsonV::Obj(o) => {
            if o.len() == 0 {
                assert(members_text(o) =~= Seq::<char>::empty());
                assert(w =~= seq!['{', '}']);
                assert(c[i + 1] == w[1]);
                lemma_ws_end_at(c, i + 1);
            } else {
                let mt = members_text(o);
                assert(w =~= seq!['{'] + mt.push('}'));
                lemma_spelled_split(c, i, seq!['{'], mt.push('}'));
                lemma_members_front(o);
                assert(mt[0] == '"');
                assert(c[i + 1 + 0] == mt.push('}')[0]);
                lemma_ws_end_at(c, i + 1);
                lemma_p_members_text(c, i + 1, Seq::empty(), o);
                assert(Seq::<(Seq<char>, JsonV)>::empty() + o =~= o);
            }
            assert(p_value(c, i) == Ok::<(JsonV, int), Seq<char>>((v, i + w.len())));
        },
    }
}

/// The elements of an array and its `]` read back as the array.
proof fn lemma_p_elems_text(c: Seq<char>, k: int, acc: Seq<JsonV>, a: Seq<JsonV>)
    requires
        a.len() > 0,
        forall|x: int| 0 <= x < a.len() ==> exact_json(#[trigger] a[x]),
        spelled(c, k, items_text(a).push(']')),
    ensures
        p_elems(c, k, acc) == Ok::<(JsonV, int), Seq<char>>(
            (JsonV::Arr(acc + a), k + items_text(a).len() + 1),
        ),
    decreases a, 0int,
{
    lemma_items_front(a);
    let h = jtext(a[0]);
    let hl = h.len() as int;
    let rest = a.subrange(1, a.len() as int);
    if a.len() > 1 {
        let tail = seq![','] + items_text(rest).push(']');
        assert(items_text(a).push(']') =~= h + tail);
        lemma_spelled_split(c, k, h, tail);
        assert(c[k + hl + 0] == tail[0]);
        lemma_p_value_text(c, k, a[0]);
        lemma_ws_end_at(c, k + hl);
        lemma_spelled_split(c, k + hl, seq![','], items_text(rest).push(']'));
        assert forall|x: int| 0 <= x < rest.len() implies exact_json(#[trigger] rest[x]) by {
            assert(rest[x] == a[x + 1]);
        }
        lemma_p_elems_text(c, k + hl + 1, acc.push(a[0]), rest);
        assert(acc.push(a[0]) + rest =~= acc + a);
    } else {
        let tail = seq![']'];
        assert(items_text(a).push(']') =~= h + tail);
        lemma_spelled_split(c, k, h, tail);
        assert(c[k + hl + 0] == tail[0]);
        lemma_p_value_text(c, k, a[0]);
        lemma_ws_end_at(c, k + hl);
        assert(acc.push(a[0]) =~= acc + a);
    }
}

/// The members of an object and its `}` read back as the object.
proof fn lemma_p_members_text(
    c: Seq<char>,
    j: int,
    acc: Seq<(Seq<char>, JsonV)>,
    o: Seq<(Seq<char>, JsonV)>,
)
    requires
        o.len() > 0,
        forall|x: int| 0 <= x < o.len() ==> exact_json(#[trigger] o[x].1),
        spelled(c, j, members_text(o).push('}')),
    ensures
        p_members(c, j, acc) == Ok::<(JsonV, int), Seq<char>>(
            (JsonV::Obj(acc + o), j + members_text(o).len() + 1),
        ),
    decreases o, 0int,
{
    lemma_members_front(o);
    let key = o[0].0;
    let val = o[0].1;
    let ks = str_text(key);
    let h = member_text(o[0]);
    let rest = o.subrange(1, o.len() as int);
    let tail: Seq<char> = if o.len() > 1 {
        seq![','] + members_text(rest).push('}')
    } else {
        seq!['}']
    };
    assert(members_text(o).push('}') =~= h + tail);
    lemma_spelled_split(c, j, h, tail);
    assert(h =~= seq!['"'] + (escaped(key).push('"') + (seq![':'] + jtext(val))));
    lemma_spelled_split(c, j, seq!['"'], escaped(key).push('"') + (seq![':'] + jtext(val)));
    lemma_spelled_split(c, j + 1, escaped(key).push('"'), seq![':'] + jtext(val));
    let k2 = j + 1 + escaped(key).len() + 1;
    lemma_spelled_split(c, k2, seq![':'], jtext(val));
    assert(c[j + 0] == '"');
    lemma_ws_end_at(c, j);
    lemma_p_str_text(c, j + 1, Seq::empty(), key);
    assert(Seq::<char>::empty() + key =~= key);
    assert(c[k2 + 0] == ':');
    lemma_ws_end_at(c, k2);
    let k4 = k2 + 1 + jtext(val).len();
    assert(k4 == j + h.len());
    assert(c[k4 + 0] == tail[0]);
    lemma_p_value_text(c, k2 + 1, val);
    lemma_ws_end_at(c, k4);
    if o.len() > 1 {
        lemma_spelled_split(c, k4, seq![','], members_text(rest).push('}'));
        assert forall|x: int| 0 <= x < rest.len() implies exact_json(#[trigger] rest[x].1) by {
            assert(rest[x] == o[x + 1]);
        }
        lemma_p_members_text(c, k4 + 1, acc.push((key, val)), rest);
        assert(acc.push((key, val)) + rest =~= acc + o);
    } else {
        assert(acc.push((key, val)) =~= acc + o);
    }
}

/// Writing then reading a value gives the value back: the compact text of every value whose
/// numbers are exact reads back as that value.
pub proof fn json_text_round_trip(v: JsonV)
    requires
        exact_json(v),
    ensures
        parse_spec(jtext(v)) == Ok::<JsonV, Seq<char>>(v),
{
    lemma_p_value_text(jtext(v), 0, v);
}

// ---- events ----------------------------------------------------------------------------------

/// Whether an integer has at most eighteen digits, so its text reads back exactly.
pub open spec fn exact_int(i: i64) -> bool {
    -(pow10(MANT_DIGITS as nat) as int) < i < pow10(MANT_DIGITS as nat)
}

pub open spec fn exact_opt_int(c: Option<i64>) -> bool {
    match c {
        Some(i) => exact_int(i),
        None => true,
    }
}

pub open spec fn exact_opt_number(y: Option<Number>) -> bool {
    match y {
        Some(n) => exact_number(n),
        None => true,
    }
}

/// Whether every number an event carries reads back exactly from its text.
pub open spec fn exact_event(ev: EventV) -> bool {
    match ev {
        EventV::PhaseAdded { from_col, to_col, .. } => exact_int(from_col) && exact_int(to_col),
        EventV::PhaseResized { from_col, to_col, .. } => exact_int(from_col) && exact_int(to_col),
        EventV::FrontierMoved { col, .. } => exact_int(col),
        EventV::PhaseSplit { at_col, .. } => exact_int(at_col),
        EventV::ElementAdded { col, y, .. } => exact_opt_int(col) && exact_opt_number(y),
        EventV::ElementMoved { col, y, .. } => exact_opt_int(col) && exact_opt_number(y),
        EventV::LogCompacted { folded } => exact_int(folded),
        _ => true,
    }
}

/// Whether every member value of an object reads back exactly.
pub open spec fn exact_members(o: Seq<(Seq<char>, JsonV)>) -> bool {
    forall|x: int| 0 <= x < o.len() ==> exact_json(#[trigger] o[x].1)
}

broadcast proof fn lemma_exact_push(o: Seq<(Seq<char>, JsonV)>, p: (Seq<char>, JsonV))
    requires
        exact_members(o),
        exact_json(p.1),
    ensures
        #[trigger] exact_members(o.push(p)),
{
    assert forall|x: int| 0 <= x < o.push(p).len() implies exact_json(#[trigger] o.push(p)[x].1) by {
        if x < o.len() {
            assert(o.push(p)[x] == o[x]);
        }
    }
}

broadcast proof fn lemma_exact_concat(a: Seq<(Seq<char>, JsonV)>, b: Seq<(Seq<char>, JsonV)>)
    requires
        exact_members(a),
        exact_members(b),
    ensures
        #[trigger] exact_members(a + b),
{
    assert forall|x: int| 0 <= x < (a + b).len() implies exact_json(#[trigger] (a + b)[x].1) by {
        if x < a.len() {
            assert((a + b)[x] == a[x]);
        } else {
            assert((a + b)[x] == b[x - a.len()]);
        }
    }
}

proof fn lemma_exact_opt(k: Seq<char>, v: Option<JsonV>)
    requires
        v matches Some(x) ==> exact_json(x),
    ensures
        exact_members(opt_member(k, v)),
{
    if let Some(x) = v {
        assert(opt_member(k, v)[0] == (k, x));
    }
}

proof fn lemma_exact_int(i: i64)
    requires
        exact_int(i),
    ensures
        exact_json(JsonV::Num(of_int(i as int))),
{
    lemma_of_int_exact(i);
}

proof fn lemma_exact_opt_int(k: Seq<char>, c: Option<i64>)
    requires
        exact_opt_int(c),
    ensures
        exact_members(opt_member(k, opt_int(c))),
{
    if let Some(i) = c {
        lemma_exact_int(i);
    }
    lemma_exact_opt(k, opt_int(c));
}

/// The members of an event's object all read back exactly.
proof fn lemma_event_exact(ev: EventV)
    requires
        exact_event(ev),
    ensures
        exact_members(event_members(ev)),
{
    broadcast use lemma_exact_push, lemma_exact_concat;

    assert(exact_members(Seq::<(Seq<char>, JsonV)>::empty()));
    match ev {
        EventV::PhaseAdded { id, from_col, to_col, .. } => {
            lemma_exact_int(from_col);
            lemma_exact_int(to_col);
            lemma_exact_opt("id"@, opt_str(id));
        },
        EventV::PhaseResized { from_col, to_col, .. } => {
            lemma_exact_int(from_col);
            lemma_exact_int(to_col);
        },
        EventV::FrontierMoved { col, .. } => {
            lemma_exact_int(col);
        },
        EventV::PhaseSplit { at_col, .. } => {
            lemma_exact_int(at_col);
        },
        EventV::ElementAdded { col, detail, y, links, .. } => {
            lemma_exact_opt_int("col"@, col);
            lemma_exact_opt("detail"@, opt_str(detail));
            lemma_exact_opt("y"@, opt_num(y));
            let a = links.map_values(|l: Seq<char>| JsonV::Str(l));
            assert forall|x: int| 0 <= x < a.len() implies exact_json(#[trigger] a[x]) by {
                assert(a[x] == JsonV::Str(links[x]));
            }
            assert(exact_json(JsonV::Arr(a)));
        },
        EventV::ElementMoved { col, kind, y, .. } => {
            lemma_exact_opt_int("col"@, col);
            lemma_exact_opt(
                "type"@,
                match kind {
                    Some(l) => Some(JsonV::Str(crate::model::lane_wire(l))),
                    None => None,
                },
            );
            lemma_exact_opt("y"@, opt_num(y));
        },
        EventV::EdgeAdded { label, .. } => {
            lemma_exact_opt("label"@, opt_str(label));
        },
        EventV::LogCompacted { folded } => {
            lemma_exact_int(folded);
        },
        _ => {},
    }
}

/// Writing then reading an event gives the event back: the line written for an event parses to
/// the event's object, and that object reads as the event, for every event whose numbers have at
/// most eighteen significant digits.
pub proof fn event_line_round_trip(ev: EventV)
    requires
        exact_event(ev),
    ensures
        parse_spec(line_spec(ev)) == Ok::<JsonV, Seq<char>>(to_json_spec(ev)),
        parse_event_spec(to_json_spec(ev)) == Ok::<EventV, Rejected>(ev),
{
    lemma_event_exact(ev);
    json_text_round_trip(to_json_spec(ev));
    parse_event_round_trip(ev);
}

// ---- logs ------------------------------------------------------------------------------------

/// Whether a text holds no line break.
pub open spec fn no_newline(s: Seq<char>) -> bool {
    forall|i: int| 0 <= i < s.len() ==> #[trigger] s[i] != '\n'
}

broadcast proof fn lemma_no_newline_concat(a: Seq<char>, b: Seq<char>)
    requires
        no_newline(a),
        no_newline(b),
    ensures
        #[trigger] no_newline(a + b),
{
    assert forall|i: int| 0 <= i < (a + b).len() implies #[trigger] (a + b)[i] != '\n' by {
        if i < a.len() {
            assert((a + b)[i] == a[i]);
        } else {
            assert((a + b)[i] == b[i - a.len()]);
        }
    }
}

proof fn lemma_escaped_no_newline(s: Seq<char>)
    ensures
        no_newline(escaped(s)),
    decreases s.len(),
{
    broadcast use lemma_no_newline_concat;

    if s.len() > 0 {
        lemma_escaped_no_newline(s.drop_last());
        let ch = s.last();
        let e = escape_char(ch);
        if ch != '"' && ch != '\\' && ch != '\n' && ch != '\r' && ch != '\t' && (ch as u32) < 0x20 {
            let v = ch as u32;
            lemma_hex_char((v / 16) as nat);
            lemma_hex_char((v % 16) as nat);
            assert(e[4] == hex_char((v / 16) as nat));
            assert(e[5] == hex_char((v % 16) as nat));
        }
        assert(no_newline(e));
    } else {
        assert(escaped(s) =~= Seq::<char>::empty());
    }
}

/// The compact text of a value holds no line break.
proof fn lemma_jtext_no_newline(v: JsonV)
    ensures
        no_newline(jtext(v)),
    decreases v, 1int,
{
    broadcast use lemma_no_newline_concat;

    reveal_strlit("null");
    reveal_strlit("true");
    reveal_strlit("false");
    match v {
        JsonV::Num(n) => {
            lemma_number_text_chars(n);
        },
        JsonV::Str(s) => {
            lemma_escaped_no_newline(s);
        },
        JsonV::Arr(a) => {
            lemma_items_no_newline(a);
        },
        JsonV::Obj(o) => {
            lemma_members_no_newline(o);
        },
        _ => {},
    }
}

proof fn lemma_items_no_newline(a: Seq<JsonV>)
    ensures
        no_newline(items_text(a)),
    decreases a, 0int,
{
    broadcast use lemma_no_newline_concat;

    if a.len() > 0 {
        lemma_items_no_newline(a.subrange(0, a.len() - 1));
        lemma_jtext_no_newline(a[a.len() - 1]);
    } else {
        assert(items_text(a) =~= Seq::<char>::empty());
    }
}

proof fn lemma_members_no_newline(o: Seq<(Seq<char>, JsonV)>)
    ensures
        no_newline(members_text(o)),
    decreases o, 0int,
{
    broadcast use lemma_no_newline_concat;

    if o.len() > 0 {
        lemma_members_no_newline(o.subrange(0, o.len() - 1));
        lemma_jtext_no_newline(o[o.len() - 1].1);
        lemma_escaped_no_newline(o[o.len() - 1].0);
    } else {
        assert(members_text(o) =~= Seq::<char>::empty());
    }
}

/// An event's line holds no line break and no white space at either end.
proof fn lemma_line_shape(ev: EventV)
    ensures
        no_newline(line_spec(ev)),
        line_spec(ev).len() > 0,
        trim(line_spec(ev)) == line_spec(ev),
{
    let l = line_spec(ev);
    lemma_jtext_no_newline(to_json_spec(ev));
    assert(l[0] == '{');
    assert(l.last() == '}');
    assert(!is_ws('{'));
    assert(!is_ws('}'));
    assert(trim_start(l) == l);
    assert(trim_end(l) == l);
}

/// Text without a line break extends the last line.
proof fn lemma_split_plain(s: Seq<char>, t: Seq<char>)
    requires
        no_newline(t),
    ensures
        split_lines(s + t) == split_lines(s).update(
            split_lines(s).len() - 1,
            split_lines(s).last() + t,
        ),
    decreases t.len(),
{
    lemma_split_lines_len(s);
    let r = split_lines(s);
    if t.len() == 0 {
        assert(s + t =~= s);
        assert(r.update(r.len() - 1, r.last() + t) =~= r);
    } else {
        let t1 = t.drop_last();
        assert(no_newline(t1)) by {
            assert forall|i: int| 0 <= i < t1.len() implies #[trigger] t1[i] != '\n' by {
                assert(t1[i] == t[i]);
            }
        }
        lemma_split_plain(s, t1);
        assert((s + t).drop_last() =~= s + t1);
        assert((s + t).last() == t.last());
        assert(t.last() != '\n');
        let r1 = r.update(r.len() - 1, r.last() + t1);
        assert(r1.last().push(t.last()) =~= r.last() + t);
        assert(r1.update(r1.len() - 1, r1.last().push(t.last())) =~= r.update(
            r.len() - 1,
            r.last() + t,
        ));
    }
}

/// The lines of a batch, one per event.
pub open spec fn lines_of(evs: Seq<EventV>) -> Seq<Seq<char>> {
    evs.map_values(|e: EventV| line_spec(e))
}

/// The records of a batch's lines: each line with its 1-based number.
pub open spec fn records_from(evs: Seq<EventV>) -> Seq<(int, Seq<char>)> {
    Seq::new(evs.len(), |i: int| (i + 1, line_spec(evs[i])))
}

/// A batch's JSONL text splits into its lines and an empty last one.
proof fn lemma_split_jsonl(evs: Seq<EventV>)
    ensures
        split_lines(jsonl_spec(evs)) == lines_of(evs).push(Seq::<char>::empty()),
    decreases evs.len(),
{
    if evs.len() == 0 {
        assert(jsonl_spec(evs) =~= Seq::<char>::empty());
        assert(lines_of(evs).push(Seq::<char>::empty()) =~= seq![Seq::<char>::empty()]);
    } else {
        let init = evs.drop_last();
        let ev = evs.last();
        lemma_split_jsonl(init);
        lemma_line_shape(ev);
        let a = jsonl_spec(init) + line_spec(ev);
        assert(jsonl_spec(evs) =~= a.push('\n'));
        assert(a.push('\n').drop_last() =~= a);
        lemma_split_plain(jsonl_spec(init), line_spec(ev));
        let r = lines_of(init).push(Seq::<char>::empty());
        assert(r.update(r.len() - 1, r.last() + line_spec(ev)) =~= lines_of(evs));
    }
}

/// The records of a batch's lines are the lines themselves, numbered from one.
proof fn lemma_records_lines(evs: Seq<EventV>)
    ensures
        records_of(lines_of(evs)) == records_from(evs),
    decreases evs.len(),
{
    if evs.len() == 0 {
        assert(records_of(lines_of(evs)) =~= records_from(evs));
    } else {
        let init = evs.drop_last();
        lemma_records_lines(init);
        lemma_line_shape(evs.last());
        assert(lines_of(evs).drop_last() =~= lines_of(init));
        assert(lines_of(evs).last() == line_spec(evs.last()));
        assert(records_from(init).push((evs.len() as int, line_spec(evs.last()))) =~= records_from(
            evs,
        ));
    }
}

/// Whether an event reads back from a log: its numbers are exact, and a format tag it carries
/// names a format this build projects.
pub open spec fn log_readable(ev: EventV) -> bool {
    &&& exact_event(ev)
    &&& (ev matches EventV::BoardFormat { format } ==> format_declared_spec(Some(format)) is Ok)
}

/// Reading a batch's records one by one collects the batch and skips nothing.
proof fn lemma_read_lines(evs: Seq<EventV>)
    requires
        forall|i: int| 0 <= i < evs.len() ==> log_readable(#[trigger] evs[i]),
    ensures
        read_records(records_from(evs)) == Ok::<ReadState, Seq<char>>(
            ReadState { events: evs, foreign: 0, unknown_lane: 0, unnamed: 0 },
        ),
    decreases evs.len(),
{
    let recs = records_from(evs);
    if evs.len() == 0 {
        assert(evs =~= Seq::<EventV>::empty());
    } else {
        let init = evs.drop_last();
        let ev = evs.last();
        assert(log_readable(evs[evs.len() - 1]));
        assert forall|i: int| 0 <= i < init.len() implies log_readable(#[trigger] init[i]) by {
            assert(init[i] == evs[i]);
        }
        lemma_read_lines(init);
        assert(recs.drop_last() =~= records_from(init));
        event_line_round_trip(ev);
        parse_event_round_trip(ev);
        let st = ReadState { events: init, foreign: 0, unknown_lane: 0, unnamed: 0 };
        assert(init.push(ev) =~= evs);
        assert(read_record(st, evs.len() as int, line_spec(ev)) == Ok::<ReadState, Seq<char>>(
            ReadState { events: evs, foreign: 0, unknown_lane: 0, unnamed: 0 },
        ));
    }
}

/// Writing a batch as a log and reading the log back gives the batch, with nothing skipped: for
/// every batch whose numbers have at most eighteen significant digits and whose format tags name
/// a format this build projects.
pub proof fn jsonl_round_trip(evs: Seq<EventV>)
    requires
        forall|i: int| 0 <= i < evs.len() ==> log_readable(#[trigger] evs[i]),
    ensures
        parse_log_spec(jsonl_spec(evs)) == Ok::<(Seq<EventV>, nat, nat), Seq<char>>((evs, 0, 0)),
{
    lemma_split_jsonl(evs);
    lemma_records_lines(evs);
    let lines = lines_of(evs);
    assert(lines.push(Seq::<char>::empty()).drop_last() =~= lines);
    assert(trim(Seq::<char>::empty()) =~= Seq::<char>::empty());
    assert(records_spec(jsonl_spec(evs)) == records_from(evs));
    lemma_read_lines(evs);
}

// ---- compacted logs --------------------------------------------------------------------------

/// Whether every event of a batch reads back from a log.
pub open spec fn all_log_readable(evs: Seq<EventV>) -> bool {
    forall|i: int| 0 <= i < evs.len() ==> log_readable(#[trigger] evs[i])
}

/// Whether every number a board carries reads back exactly from text: region bounds, sticky
/// columns and sticky sub-positions.
pub open spec fn exact_board(m: ModelV) -> bool {
    &&& forall|i: int|
        0 <= i < m.phases.len() ==> exact_int(#[trigger] m.phases[i].from_col) && exact_int(
            m.phases[i].to_col,
        )
    &&& forall|i: int|
        0 <= i < m.elements.len() ==> exact_opt_int(#[trigger] m.elements[i].col)
            && exact_opt_number(m.elements[i].y)
}

broadcast proof fn lemma_readable_concat(a: Seq<EventV>, b: Seq<EventV>)
    requires
        all_log_readable(a),
        all_log_readable(b),
    ensures
        #[trigger] all_log_readable(a + b),
{
    assert forall|i: int| 0 <= i < (a + b).len() implies log_readable(#[trigger] (a + b)[i]) by {
        if i < a.len() {
            assert((a + b)[i] == a[i]);
        } else {
            assert((a + b)[i] == b[i - a.len()]);
        }
    }
}

broadcast proof fn lemma_readable_push(a: Seq<EventV>, e: EventV)
    requires
        all_log_readable(a),
        log_readable(e),
    ensures
        #[trigger] all_log_readable(a.push(e)),
{
    assert forall|i: int| 0 <= i < a.push(e).len() implies log_readable(#[trigger] a.push(e)[i]) by {
        if i < a.len() {
            assert(a.push(e)[i] == a[i]);
        }
    }
}

proof fn lemma_phase_events_readable(ps: Seq<PhaseV>)
    requires
        forall|i: int|
            0 <= i < ps.len() ==> exact_int(#[trigger] ps[i].from_col) && exact_int(ps[i].to_col),
    ensures
        all_log_readable(phase_events(ps)),
    decreases ps.len(),
{
    broadcast use lemma_readable_push;

    if ps.len() > 0 {
        let init = ps.drop_last();
        assert forall|i: int| 0 <= i < init.len() implies exact_int(#[trigger] init[i].from_col)
            && exact_int(init[i].to_col) by {
            assert(init[i] == ps[i]);
        }
        lemma_phase_events_readable(init);
        assert(ps.last() == ps[ps.len() - 1]);
    } else {
        assert(all_log_readable(phase_events(ps)));
    }
}

proof fn lemma_element_events_readable(es: Seq<ElementV>)
    requires
        forall|i: int|
            0 <= i < es.len() ==> exact_opt_int(#[trigger] es[i].col) && exact_opt_number(es[i].y),
    ensures
        all_log_readable(element_events(es)),
    decreases es.len(),
{
    broadcast use lemma_readable_concat, lemma_readable_push;

    if es.len() > 0 {
        let init = es.drop_last();
        assert forall|i: int| 0 <= i < init.len() implies exact_opt_int(#[trigger] init[i].col)
            && exact_opt_number(init[i].y) by {
            assert(init[i] == es[i]);
        }
        lemma_element_events_readable(init);
        let e = es.last();
        assert(e == es[es.len() - 1]);
        assert(all_log_readable(Seq::<EventV>::empty()));
        assert(all_log_readable(added_events(e)));
    } else {
        assert(all_log_readable(element_events(es)));
    }
}

proof fn lemma_edge_events_readable(es: Seq<EdgeV>)
    ensures
        all_log_readable(edge_events(es)),
    decreases es.len(),
{
    broadcast use lemma_readable_push;

    if es.len() > 0 {
        lemma_edge_events_readable(es.drop_last());
    } else {
        assert(all_log_readable(edge_events(es)));
    }
}

/// A board's genesis batch reads back from a log when the board's numbers are exact.
proof fn lemma_genesis_readable(m: ModelV)
    requires
        exact_board(m),
    ensures
        all_log_readable(from_model_spec(m)),
{
    broadcast use lemma_readable_concat;

    format_round_trip(m.format);
    assert(all_log_readable(Seq::<EventV>::empty()));
    assert(all_log_readable(header_events(m))) by {
        let t: Seq<EventV> = if m.title.len() > 0 {
            seq![EventV::BoardTitled { title: m.title }]
        } else {
            Seq::empty()
        };
        let f: Seq<EventV> = if m.format != crate::model::Format::EventStorming {
            seq![EventV::BoardFormat { format: crate::model::format_wire(m.format) }]
        } else {
            Seq::empty()
        };
        let l: Seq<EventV> = if m.level != crate::model::Level::BigPicture {
            seq![EventV::BoardLeveled { level: crate::model::level_wire(m.level) }]
        } else {
            Seq::empty()
        };
        assert(all_log_readable(t));
        assert(all_log_readable(f));
        assert(all_log_readable(l));
        assert(header_events(m) == t + f + l);
    }
    lemma_phase_events_readable(m.phases);
    lemma_element_events_readable(m.elements);
    lemma_edge_events_readable(m.edges);
}

/// A compacted log, written out and read back, is the compacted batch with nothing skipped, and it
/// replays to the board of the log it folded: for every log whose board has regions clear of the
/// `i64::MAX` column, numbers of at most eighteen significant digits, and fewer than `10^18`
/// events.
pub proof fn compacted_log_reads_back(evs: Seq<EventV>)
    requires
        forall|k: int|
            0 <= k < replay_spec(evs).phases.len() ==> (#[trigger] replay_spec(evs).phases[k]).to_col
                < i64::MAX,
        exact_board(replay_spec(evs)),
        evs.len() < pow10(MANT_DIGITS as nat),
    ensures
        parse_log_spec(jsonl_spec(compact_spec(evs))) == Ok::<(Seq<EventV>, nat, nat), Seq<char>>(
            (compact_spec(evs), 0, 0),
        ),
        replay_spec(compact_spec(evs)) == replay_spec(evs),
{
    broadcast use lemma_readable_concat;

    lemma_genesis_readable(replay_spec(evs));
    let mark = seq![EventV::LogCompacted { folded: evs.len() as i64 }];
    assert(evs.len() < 0x8000_0000_0000_0000) by {
        crate::number::lemma_pow10_18();
    }
    assert(all_log_readable(mark));
    jsonl_round_trip(compact_spec(evs));
    compact_round_trip(evs);
}

} // verus!
