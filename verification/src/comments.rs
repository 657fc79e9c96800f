//! Comments as events: map one posted comment to the events it implies
//! ([`comment_to_events`]) and fold a legacy comments file into events ([`from_comments`]).

use crate::event::{events_view, Event, EventV};
use crate::json::{field_int, field_num, field_str, jget, parse, parse_spec, Json, JsonV};
use crate::log::{jsonl_records, records_spec};
use crate::number::{clamp_y_spec, MAX_TEXT};
use crate::model::{empty_model, ModelV};
use crate::replay::{
    fold_from, fold_keeps_labels, labels_nonblank, labels_ok, lemma_fold_one, lemma_fold_two, present,
    presence_step, step, fold_events, lemma_fold_append, replay_spec,
};
use crate::text::{str_eq, trim, trim_str};
use vstd::prelude::*;

pub use crate::number::clamp_y;

verus! {

broadcast use vstd::string::group_string_axioms;

/// A label with content: the string trimmed, or `None` when it is blank.
pub open spec fn nonblank_spec(s: Seq<char>) -> Option<Seq<char>> {
    if trim(s).len() > 0 {
        Some(trim(s))
    } else {
        None
    }
}

/// A label with content: the string trimmed, or `None` when it is blank. A blank label would
/// mint or rename into a permanent empty box.
pub fn nonblank(s: &str) -> (r: Option<String>)
    ensures
        match r {
            Some(t) => nonblank_spec(s@) == Some(t@),
            None => nonblank_spec(s@) is None,
        },
{
    let t = trim_str(s);
    if t.as_str().is_empty() {
        None
    } else {
        Some(t)
    }
}

/// A region span with content: `from_col < to_col`. An inverted or zero-width span would make a
/// region no column can fall in.
pub fn valid_span(from_col: i64, to_col: i64) -> (r: bool)
    ensures
        r == (from_col < to_col),
{
    from_col < to_col
}

/// The events of a `move` comment on `id`: the move (the target column and the clamped,
/// rounded sub-position, each when given), and when it displaces another sticky (`swapId`,
/// `swapCol`) the counter-move; nothing when it carries neither a column nor a sub-position.
pub open spec fn move_events_spec(v: JsonV, id: Seq<char>) -> Seq<EventV> {
    let col = field_int(v, "col"@);
    let y = match field_num(v, "y"@) {
        Some(n) => Some(clamp_y_spec(n)),
        None => None,
    };
    if col is None && y is None {
        Seq::empty()
    } else {
        let first = EventV::ElementMoved { id, col, kind: None, y };
        match (field_str(v, "swapId"@), field_int(v, "swapCol"@)) {
            (Some(swap_id), Some(swap_col)) => if swap_id != id {
                seq![
                    first,
                    EventV::ElementMoved { id: swap_id, col: Some(swap_col), kind: None, y: None },
                ]
            } else {
                seq![first]
            },
            _ => seq![first],
        }
    }
}

/// The events of a region comment (`region-resize`, `frontier-move`, `region-rename`,
/// `region-remove`), keyed by `regionId`; nothing when a guard fails.
pub open spec fn region_events_spec(v: JsonV, kind: Seq<char>) -> Seq<EventV> {
    match field_str(v, "regionId"@) {
        None => Seq::empty(),
        Some(id) => if kind == "region-resize"@ {
            match (field_int(v, "fromCol"@), field_int(v, "toCol"@)) {
                (Some(from_col), Some(to_col)) => if from_col < to_col {
                    seq![EventV::PhaseResized { id, from_col, to_col }]
                } else {
                    Seq::empty()
                },
                _ => Seq::empty(),
            }
        } else if kind == "frontier-move"@ {
            match (field_str(v, "edge"@), field_int(v, "col"@)) {
                (Some(edge), Some(col)) => if edge == "start"@ || edge == "end"@ {
                    seq![EventV::FrontierMoved { id, edge, col }]
                } else {
                    Seq::empty()
                },
                _ => Seq::empty(),
            }
        } else if kind == "region-rename"@ {
            let text = match field_str(v, "text"@) {
                Some(t) => t,
                None => Seq::empty(),
            };
            match nonblank_spec(text) {
                Some(label) => seq![EventV::PhaseRenamed { id, label }],
                None => Seq::empty(),
            }
        } else if kind == "region-remove"@ {
            seq![EventV::PhaseRemoved { id }]
        } else {
            Seq::empty()
        },
    }
}

/// Whether a comment kind edits a region.
pub open spec fn is_region_kind(kind: Seq<char>) -> bool {
    kind == "region-resize"@ || kind == "region-rename"@ || kind == "region-remove"@ || kind
        == "frontier-move"@
}

/// The events one comment persists. `move`, `resolve`, `rename` and `drop` carry structural
/// intent; any other kind (`comment` when absent) is an annotation. Nothing when the comment names
/// no sticky, when a `move` has no target, or when a `rename` is blank.
pub open spec fn comment_events_spec(v: JsonV) -> Seq<EventV> {
    let kind = match field_str(v, "kind"@) {
        Some(k) => k,
        None => "comment"@,
    };
    if is_region_kind(kind) {
        region_events_spec(v, kind)
    } else {
        match field_str(v, "elemId"@) {
            None => Seq::empty(),
            Some(id) => {
                let text = match field_str(v, "text"@) {
                    Some(t) => t,
                    None => Seq::empty(),
                };
                if kind == "move"@ {
                    move_events_spec(v, id)
                } else if kind == "resolve"@ {
                    seq![EventV::HotspotResolved { id, resolution: text }]
                } else if kind == "rename"@ {
                    match nonblank_spec(text) {
                        Some(label) => seq![EventV::ElementRenamed { id, label }],
                        None => Seq::empty(),
                    }
                } else if kind == "drop"@ {
                    seq![EventV::ElementRemoved { id }]
                } else {
                    seq![EventV::ElementAnnotated { id, text }]
                }
            },
        }
    }
}

fn move_events(v: &Json, id: String) -> (r: Vec<Event>)
    ensures
        events_view(r@) == move_events_spec(v@, id@),
{
    let col = v.get_i64("col");
    let y = match v.get_num("y") {
        Some(n) => Some(clamp_y(n)),
        None => None,
    };
    if col.is_none() && y.is_none() {
        let r: Vec<Event> = Vec::new();
        assert(events_view(r@) =~= Seq::<EventV>::empty());
        return r;
    }
    let mut evs: Vec<Event> = Vec::new();
    let first = Event::ElementMoved { id: id.clone(), col, kind: None, y };
    evs.push(first);
    match (v.get_str("swapId"), v.get_i64("swapCol")) {
        (Some(swap_id), Some(swap_col)) => {
            if !str_eq(swap_id, id.as_str()) {
                let second = Event::ElementMoved {
                    id: swap_id.to_string(),
                    col: Some(swap_col),
                    kind: None,
                    y: None,
                };
                evs.push(second);
                assert(events_view(evs@) =~= seq![first@, second@]);
            } else {
                assert(events_view(evs@) =~= seq![first@]);
            }
        },
        _ => {
            assert(events_view(evs@) =~= seq![first@]);
        },
    }
    evs
}

fn one(ev: Event) -> (r: Vec<Event>)
    ensures
        events_view(r@) == seq![ev@],
{
    let mut r: Vec<Event> = Vec::new();
    r.push(ev);
    assert(events_view(r@) =~= seq![ev@]);
    r
}

fn none() -> (r: Vec<Event>)
    ensures
        events_view(r@) == Seq::<EventV>::empty(),
{
    let r: Vec<Event> = Vec::new();
    assert(events_view(r@) =~= Seq::<EventV>::empty());
    r
}

fn region_comment_to_events(v: &Json, kind: &str) -> (r: Vec<Event>)
    ensures
        events_view(r@) == region_events_spec(v@, kind@),
{
    let id = match v.get_str("regionId") {
        Some(i) => i.to_string(),
        None => {
            return none();
        },
    };
    if str_eq(kind, "region-resize") {
        match (v.get_i64("fromCol"), v.get_i64("toCol")) {
            (Some(from_col), Some(to_col)) => {
                if valid_span(from_col, to_col) {
                    one(Event::PhaseResized { id, from_col, to_col })
                } else {
                    none()
                }
            },
            _ => none(),
        }
    } else if str_eq(kind, "frontier-move") {
        match (v.get_str("edge"), v.get_i64("col")) {
            (Some(edge), Some(col)) => {
                if str_eq(edge, "start") || str_eq(edge, "end") {
                    one(Event::FrontierMoved { id, edge: edge.to_string(), col })
                } else {
                    none()
                }
            },
            _ => none(),
        }
    } else if str_eq(kind, "region-rename") {
        let text = match v.get_str("text") {
            Some(t) => t,
            None => "",
        };
        proof {
            reveal_strlit("");
        }
        match nonblank(text) {
            Some(label) => one(Event::PhaseRenamed { id, label }),
            None => none(),
        }
    } else if str_eq(kind, "region-remove") {
        one(Event::PhaseRemoved { id })
    } else {
        none()
    }
}

/// Map one posted or stored comment to the events it persists: the single translation shared by a
/// live server and the comments-file migration. A `move` that displaces an occupant gives two
/// moves, so the swap round-trips; an empty result means "nothing to persist".
pub fn comment_to_events(v: &Json) -> (r: Vec<Event>)
    ensures
        events_view(r@) == comment_events_spec(v@),
{
    let kind = match v.get_str("kind") {
        Some(k) => k,
        None => "comment",
    };
    if str_eq(kind, "region-resize") || str_eq(kind, "region-rename") || str_eq(
        kind,
        "region-remove",
    ) || str_eq(kind, "frontier-move") {
        return region_comment_to_events(v, kind);
    }
    let id = match v.get_str("elemId") {
        Some(i) => i.to_string(),
        None => {
            return none();
        },
    };
    let text = match v.get_str("text") {
        Some(t) => t.to_string(),
        None => String::new(),
    };
    if str_eq(kind, "move") {
        move_events(v, id)
    } else if str_eq(kind, "resolve") {
        one(Event::HotspotResolved { id, resolution: text })
    } else if str_eq(kind, "rename") {
        match nonblank(text.as_str()) {
            Some(label) => one(Event::ElementRenamed { id, label }),
            None => none(),
        }
    } else if str_eq(kind, "drop") {
        one(Event::ElementRemoved { id })
    } else {
        one(Event::ElementAnnotated { id, text })
    }
}

/// The events of a list of comment records and the count of records that persisted nothing: a
/// line that is not a JSON object, or a comment naming nothing.
pub open spec fn fold_comments(recs: Seq<(int, Seq<char>)>) -> (Seq<EventV>, nat)
    decreases recs.len(),
{
    if recs.len() == 0 {
        (Seq::empty(), 0)
    } else {
        let (evs, skipped) = fold_comments(recs.drop_last());
        match parse_spec(recs.last().1) {
            Ok(v) => if v is Obj && comment_events_spec(v).len() > 0 {
                (evs + comment_events_spec(v), skipped)
            } else {
                (evs, skipped + 1)
            },
            Err(_) => (evs, skipped + 1),
        }
    }
}

/// Fold a legacy comments file into events: each line's comment mapped through
/// [`comment_to_events`], and the count of lines that persisted nothing.
pub fn from_comments(text: &str) -> (r: (Vec<Event>, usize))
    requires
        text@.len() < MAX_TEXT,
    ensures
        (events_view(r.0@), r.1 as nat) == fold_comments(records_spec(text@)),
{
    let recs = jsonl_records(text);
    let ghost rs = records_spec(text@);
    proof {
        crate::log::lemma_records_bound(text@);
    }
    let mut out: Vec<Event> = Vec::new();
    let mut skipped: usize = 0;
    let mut i: usize = 0;
    assert(events_view(out@) =~= Seq::<EventV>::empty());
    assert(rs.take(0) =~= Seq::<(int, Seq<char>)>::empty());
    while i < recs.len()
        invariant
            i <= recs.len(),
            recs@.len() == rs.len(),
            rs == records_spec(text@),
            text@.len() < MAX_TEXT,
            forall|q: int| 0 <= q < rs.len() ==> rs[q].1.len() <= text@.len(),
            forall|k: int| 0 <= k < recs@.len() ==> (#[trigger] recs@[k]).1@ == rs[k].1,
            skipped <= i,
            (events_view(out@), skipped as nat) == fold_comments(rs.take(i as int)),
        decreases recs.len() - i,
    {
        proof {
            assert(rs.take(i + 1).drop_last() =~= rs.take(i as int));
            assert(rs.take(i + 1).last() == rs[i as int]);
        }
        match parse(recs[i].1.as_str()) {
            Ok(v) => {
                let is_obj = match &v {
                    Json::Obj(_) => true,
                    _ => false,
                };
                if is_obj {
                    let mut evs = comment_to_events(&v);
                    if evs.len() == 0 {
                        skipped = skipped + 1;
                    } else {
                        let ghost before = events_view(out@);
                        let ghost added = events_view(evs@);
                        out.append(&mut evs);
                        assert(events_view(out@) =~= before + added);
                    }
                } else {
                    skipped = skipped + 1;
                }
            },
            Err(_) => {
                skipped = skipped + 1;
            },
        }
        i = i + 1;
    }
    assert(rs.take(recs.len() as int) =~= rs);
    (out, skipped)
}


/// Whether a comment is a `drop` of the sticky `id`.
pub open spec fn drops(c: JsonV, id: Seq<char>) -> bool {
    field_str(c, "kind"@) == Some("drop"@) && field_str(c, "elemId"@) == Some(id)
}

proof fn lemma_fold_keeps_presence(s: (ModelV, u32), evs: Seq<EventV>, id: Seq<char>)
    requires
        forall|i: int|
            0 <= i < evs.len() ==> !(#[trigger] evs[i] is ElementAdded) && !(evs[i] is ElementRemoved),
    ensures
        present(fold_from(s, evs).0, id) == present(s.0, id),
    decreases evs.len(),
{
    if evs.len() > 0 {
        let d = evs.drop_last();
        assert forall|i: int| 0 <= i < d.len() implies !(#[trigger] d[i] is ElementAdded) && !(
        d[i] is ElementRemoved) by {
            assert(d[i] == evs[i]);
        }
        lemma_fold_keeps_presence(s, d, id);
        let st = fold_from(s, d);
        assert(evs.last() == evs[evs.len() - 1]);
        presence_step(st.0, st.1, evs.last(), id);
    }
}

/// A comment never creates a sticky, and only a `drop` removes one: folding the events of any
/// comment onto a board leaves every sticky present except the one a `drop` names.
pub proof fn comment_presence(m: ModelV, w: u32, c: JsonV, id: Seq<char>)
    ensures
        present(fold_from((m, w), comment_events_spec(c)).0, id) == (present(m, id) && !drops(c, id)),
{
    reveal_strlit("drop");
    reveal_strlit("region-resize");
    reveal_strlit("region-rename");
    reveal_strlit("region-remove");
    reveal_strlit("frontier-move");
    reveal_strlit("comment");
    reveal_strlit("move");
    reveal_strlit("resolve");
    reveal_strlit("rename");
    assert("drop"@[0] != "move"@[0]);
    assert("drop"@.len() != "resolve"@.len() && "drop"@.len() != "rename"@.len());
    let evs = comment_events_spec(c);
    let s0 = (m, w);
    let kind = match field_str(c, "kind"@) {
        Some(k) => k,
        None => "comment"@,
    };
    if !is_region_kind(kind) && kind == "drop"@ && field_str(c, "elemId"@) is Some {
        let eid = field_str(c, "elemId"@)->0;
        assert(evs == seq![EventV::ElementRemoved { id: eid }]);
        lemma_fold_one(s0, EventV::ElementRemoved { id: eid });
        presence_step(m, w, EventV::ElementRemoved { id: eid }, id);
    } else {
        assert(!drops(c, id));
        assert forall|i: int| 0 <= i < evs.len() implies !(#[trigger] evs[i] is ElementAdded) && !(
        evs[i] is ElementRemoved) by {
            if is_region_kind(kind) {
                assert(evs == region_events_spec(c, kind));
            } else if let Some(eid) = field_str(c, "elemId"@) {
                if kind == "move"@ {
                    assert(evs == move_events_spec(c, eid));
                }
            }
        }
        lemma_fold_keeps_presence(s0, evs, id);
    }
}


/// No comment ever leaves a sticky with a blank label: a rename's label is trimmed and a blank
/// one persists nothing.
pub proof fn comment_never_blanks_a_label(m: ModelV, w: u32, c: JsonV)
    requires
        labels_nonblank(m),
    ensures
        labels_nonblank(fold_from((m, w), comment_events_spec(c)).0),
{
    let evs = comment_events_spec(c);
    if let Some(t) = field_str(c, "text"@) {
        crate::text::lemma_trim_idempotent(t);
    }
    crate::text::lemma_trim_idempotent(Seq::<char>::empty());
    assert forall|i: int| 0 <= i < evs.len() implies labels_ok(#[trigger] evs[i]) by {
        let kind = match field_str(c, "kind"@) {
            Some(k) => k,
            None => "comment"@,
        };
        if !is_region_kind(kind) {
            if let Some(eid) = field_str(c, "elemId"@) {
                if kind == "move"@ {
                    assert(evs == move_events_spec(c, eid));
                }
            }
        }
    }
    fold_keeps_labels((m, w), evs);
}

/// The events a list of comment bodies persists, one body after another.
pub open spec fn comments_events(cs: Seq<JsonV>) -> Seq<EventV>
    decreases cs.len(),
{
    if cs.len() == 0 {
        Seq::empty()
    } else {
        comments_events(cs.drop_last()) + comment_events_spec(cs.last())
    }
}

/// Whether one of the comments is a `drop` of the sticky `id`.
pub open spec fn dropped_by(cs: Seq<JsonV>, id: Seq<char>) -> bool {
    exists|i: int| 0 <= i < cs.len() && drops(#[trigger] cs[i], id)
}

proof fn lemma_comments_fold(s: (ModelV, u32), cs: Seq<JsonV>, id: Seq<char>)
    ensures
        present(fold_from(s, comments_events(cs)).0, id) == (present(s.0, id) && !dropped_by(cs, id)),
        labels_nonblank(s.0) ==> labels_nonblank(fold_from(s, comments_events(cs)).0),
    decreases cs.len(),
{
    if cs.len() == 0 {
        assert(comments_events(cs) =~= Seq::<EventV>::empty());
        assert(fold_from(s, Seq::<EventV>::empty()) == s);
    } else {
        let init = cs.drop_last();
        let c = cs.last();
        lemma_comments_fold(s, init, id);
        lemma_fold_append(s, comments_events(init), comment_events_spec(c));
        let s1 = fold_from(s, comments_events(init));
        assert(s1 == (s1.0, s1.1));
        comment_presence(s1.0, s1.1, c, id);
        if labels_nonblank(s.0) {
            comment_never_blanks_a_label(s1.0, s1.1, c);
        }
        if dropped_by(init, id) {
            let i = choose|i: int| 0 <= i < init.len() && drops(#[trigger] init[i], id);
            assert(cs[i] == init[i]);
        }
        if drops(c, id) {
            assert(cs[cs.len() - 1] == c);
        }
        if dropped_by(cs, id) && !drops(c, id) {
            let i = choose|i: int| 0 <= i < cs.len() && drops(#[trigger] cs[i], id);
            assert(i < cs.len() - 1);
            assert(init[i] == cs[i]);
        }
    }
}

/// A log of comments folded after a board never invents a sticky, and only a `drop` removes one:
/// after the comments' events, a sticky is on the replayed board exactly when it was before and
/// no comment drops it. And no such log blanks a label: if every label had content before, every
/// label still has.
pub proof fn comment_log_keeps_stickies(g: Seq<EventV>, cs: Seq<JsonV>, id: Seq<char>)
    ensures
        present(replay_spec(g + comments_events(cs)), id) == (present(replay_spec(g), id)
            && !dropped_by(cs, id)),
        labels_nonblank(replay_spec(g)) ==> labels_nonblank(replay_spec(g + comments_events(cs))),
{
    let s0 = (empty_model(), 0u32);
    lemma_fold_append(s0, g, comments_events(cs));
    let s = fold_events(g);
    assert(s == (s.0, s.1));
    lemma_comments_fold(s, cs, id);
}


/// Whether an event is an `ElementAdded` for the sticky `id`.
pub open spec fn adds(ev: EventV, id: Seq<char>) -> bool {
    match ev {
        EventV::ElementAdded { id: added, .. } => added == id,
        _ => false,
    }
}

/// Whether a log is made of `ElementAdded` events alone, each with a label that has content.
pub open spec fn stickies_only(g: Seq<EventV>) -> bool {
    forall|i: int| 0 <= i < g.len() ==> (#[trigger] g[i] is ElementAdded) && labels_ok(g[i])
}

proof fn lemma_stickies_fold(g: Seq<EventV>, id: Seq<char>)
    requires
        stickies_only(g),
    ensures
        present(fold_events(g).0, id) == exists|i: int| 0 <= i < g.len() && adds(#[trigger] g[i], id),
    decreases g.len(),
{
    if g.len() > 0 {
        let d = g.drop_last();
        assert forall|i: int| 0 <= i < d.len() implies (#[trigger] d[i] is ElementAdded) && labels_ok(
            d[i],
        ) by {
            assert(d[i] == g[i]);
        }
        lemma_stickies_fold(d, id);
        let (m, w) = fold_events(d);
        presence_step(m, w, g.last(), id);
        assert(g[g.len() - 1] is ElementAdded);
        if exists|i: int| 0 <= i < d.len() && adds(#[trigger] d[i], id) {
            let i = choose|i: int| 0 <= i < d.len() && adds(#[trigger] d[i], id);
            assert(g[i] == d[i]);
        }
        if exists|i: int| 0 <= i < g.len() && adds(#[trigger] g[i], id) {
            let i = choose|i: int| 0 <= i < g.len() && adds(#[trigger] g[i], id);
            if i < d.len() {
                assert(d[i] == g[i]);
            }
        }
    }
}

/// A log of new stickies followed by comments: the replayed board holds exactly the stickies the
/// log added and no comment drops (a comment never invents one, and only a `drop` removes one),
/// and every label on it has content, whatever text the comments carry.
pub proof fn comments_after_stickies(g: Seq<EventV>, cs: Seq<JsonV>, id: Seq<char>)
    requires
        stickies_only(g),
    ensures
        present(replay_spec(g + comments_events(cs)), id) == ((exists|i: int|
            0 <= i < g.len() && adds(#[trigger] g[i], id)) && !dropped_by(cs, id)),
        labels_nonblank(replay_spec(g + comments_events(cs))),
{
    lemma_stickies_fold(g, id);
    fold_keeps_labels((empty_model(), 0u32), g);
    comment_log_keeps_stickies(g, cs, id);
}


/// The comment kinds are spelled apart.
proof fn lemma_kinds_differ()
    ensures
        "region-resize"@ != "frontier-move"@,
        "region-resize"@ != "region-rename"@,
        "region-resize"@ != "region-remove"@,
        "region-resize"@ != "move"@,
        "region-resize"@ != "resolve"@,
        "region-resize"@ != "rename"@,
        "region-resize"@ != "drop"@,
        "region-resize"@ != "comment"@,
        "frontier-move"@ != "region-rename"@,
        "frontier-move"@ != "region-remove"@,
        "frontier-move"@ != "move"@,
        "frontier-move"@ != "resolve"@,
        "frontier-move"@ != "rename"@,
        "frontier-move"@ != "drop"@,
        "frontier-move"@ != "comment"@,
        "region-rename"@ != "region-remove"@,
        "region-rename"@ != "move"@,
        "region-rename"@ != "resolve"@,
        "region-rename"@ != "rename"@,
        "region-rename"@ != "drop"@,
        "region-rename"@ != "comment"@,
        "region-remove"@ != "move"@,
        "region-remove"@ != "resolve"@,
        "region-remove"@ != "rename"@,
        "region-remove"@ != "drop"@,
        "region-remove"@ != "comment"@,
        "move"@ != "resolve"@,
        "move"@ != "rename"@,
        "move"@ != "drop"@,
        "move"@ != "comment"@,
        "resolve"@ != "rename"@,
        "resolve"@ != "drop"@,
        "resolve"@ != "comment"@,
        "rename"@ != "drop"@,
        "rename"@ != "comment"@,
        "drop"@ != "comment"@,
{
    reveal_strlit("region-resize");
    reveal_strlit("frontier-move");
    reveal_strlit("region-rename");
    reveal_strlit("region-remove");
    reveal_strlit("move");
    reveal_strlit("resolve");
    reveal_strlit("rename");
    reveal_strlit("drop");
    reveal_strlit("comment");
    assert("region-resize"@[0] != "frontier-move"@[0]);
    assert("region-resize"@[9] != "region-rename"@[9]);
    assert("region-resize"@[9] != "region-remove"@[9]);
    assert("region-resize"@.len() != "move"@.len());
    assert("region-resize"@.len() != "resolve"@.len());
    assert("region-resize"@.len() != "rename"@.len());
    assert("region-resize"@.len() != "drop"@.len());
    assert("region-resize"@.len() != "comment"@.len());
    assert("frontier-move"@[0] != "region-rename"@[0]);
    assert("frontier-move"@[0] != "region-remove"@[0]);
    assert("frontier-move"@.len() != "move"@.len());
    assert("frontier-move"@.len() != "resolve"@.len());
    assert("frontier-move"@.len() != "rename"@.len());
    assert("frontier-move"@.len() != "drop"@.len());
    assert("frontier-move"@.len() != "comment"@.len());
    assert("region-rename"@[9] != "region-remove"@[9]);
    assert("region-rename"@.len() != "move"@.len());
    assert("region-rename"@.len() != "resolve"@.len());
    assert("region-rename"@.len() != "rename"@.len());
    assert("region-rename"@.len() != "drop"@.len());
    assert("region-rename"@.len() != "comment"@.len());
    assert("region-remove"@.len() != "move"@.len());
    assert("region-remove"@.len() != "resolve"@.len());
    assert("region-remove"@.len() != "rename"@.len());
    assert("region-remove"@.len() != "drop"@.len());
    assert("region-remove"@.len() != "comment"@.len());
    assert("move"@.len() != "resolve"@.len());
    assert("move"@.len() != "rename"@.len());
    assert("move"@[0] != "drop"@[0]);
    assert("move"@.len() != "comment"@.len());
    assert("resolve"@.len() != "rename"@.len());
    assert("resolve"@.len() != "drop"@.len());
    assert("resolve"@[0] != "comment"@[0]);
    assert("rename"@.len() != "drop"@.len());
    assert("rename"@.len() != "comment"@.len());
    assert("drop"@.len() != "comment"@.len());
}

/// A `region-remove` comment persists exactly the removal of the region it names.
pub proof fn a_region_removal_persists(v: JsonV, r: Seq<char>)
    requires
        field_str(v, "kind"@) == Some("region-remove"@),
        field_str(v, "regionId"@) == Some(r),
    ensures
        comment_events_spec(v) == seq![EventV::PhaseRemoved { id: r }],
{
    lemma_kinds_differ();
    reveal_strlit("start");
    reveal_strlit("end");
}

/// A `region-rename` comment persists exactly the relabelling of its region to the trimmed text,
/// and nothing when the text is blank.
pub proof fn a_region_rename_persists(v: JsonV, r: Seq<char>, t: Seq<char>)
    requires
        field_str(v, "kind"@) == Some("region-rename"@),
        field_str(v, "regionId"@) == Some(r),
        field_str(v, "text"@) == Some(t),
    ensures
        trim(t).len() > 0 ==> comment_events_spec(v) == seq![EventV::PhaseRenamed { id: r, label: trim(t) }],
        trim(t).len() == 0 ==> comment_events_spec(v).len() == 0,
{
    lemma_kinds_differ();
    reveal_strlit("start");
    reveal_strlit("end");
}

/// A `region-resize` comment persists exactly the new span of its region when the span is
/// well ordered, and nothing otherwise.
pub proof fn a_region_resize_persists(v: JsonV, r: Seq<char>, from_col: i64, to_col: i64)
    requires
        field_str(v, "kind"@) == Some("region-resize"@),
        field_str(v, "regionId"@) == Some(r),
        field_int(v, "fromCol"@) == Some(from_col),
        field_int(v, "toCol"@) == Some(to_col),
    ensures
        from_col < to_col ==> comment_events_spec(v) == seq![EventV::PhaseResized { id: r, from_col, to_col }],
        from_col >= to_col ==> comment_events_spec(v).len() == 0,
{
    lemma_kinds_differ();
    reveal_strlit("start");
    reveal_strlit("end");
}

/// A `frontier-move` comment persists exactly the move of the named border of its region to the
/// posted column, when the border is `start` or `end`, and nothing otherwise.
pub proof fn a_frontier_move_persists(v: JsonV, r: Seq<char>, edge: Seq<char>, col: i64)
    requires
        field_str(v, "kind"@) == Some("frontier-move"@),
        field_str(v, "regionId"@) == Some(r),
        field_str(v, "edge"@) == Some(edge),
        field_int(v, "col"@) == Some(col),
    ensures
        edge == "start"@ || edge == "end"@ ==> comment_events_spec(v) == seq![EventV::FrontierMoved { id: r, edge, col }],
        !(edge == "start"@ || edge == "end"@) ==> comment_events_spec(v).len() == 0,
{
    lemma_kinds_differ();
    reveal_strlit("start");
    reveal_strlit("end");
}

/// A `drop` comment persists exactly the removal of the sticky it names.
pub proof fn a_drop_persists(v: JsonV, id: Seq<char>)
    requires
        field_str(v, "kind"@) == Some("drop"@),
        field_str(v, "elemId"@) == Some(id),
    ensures
        comment_events_spec(v) == seq![EventV::ElementRemoved { id }],
{
    lemma_kinds_differ();
    reveal_strlit("start");
    reveal_strlit("end");
}

/// A `resolve` comment persists exactly the resolution of its sticky, the text (empty when
/// absent) as the resolution.
pub proof fn a_resolve_persists(v: JsonV, id: Seq<char>)
    requires
        field_str(v, "kind"@) == Some("resolve"@),
        field_str(v, "elemId"@) == Some(id),
    ensures
        comment_events_spec(v) == seq![
            EventV::HotspotResolved {
                id,
                resolution: if field_str(v, "text"@) is Some { field_str(v, "text"@)->0 } else { Seq::empty() },
            },
        ],
{
    lemma_kinds_differ();
    reveal_strlit("start");
    reveal_strlit("end");
}

/// A `rename` comment persists exactly the relabelling of its sticky to the trimmed text, and
/// nothing when the text is blank or absent.
pub proof fn a_rename_persists(v: JsonV, id: Seq<char>, t: Seq<char>)
    requires
        field_str(v, "kind"@) == Some("rename"@),
        field_str(v, "elemId"@) == Some(id),
        field_str(v, "text"@) == Some(t),
    ensures
        trim(t).len() > 0 ==> comment_events_spec(v) == seq![EventV::ElementRenamed { id, label: trim(t) }],
        trim(t).len() == 0 ==> comment_events_spec(v).len() == 0,
{
    lemma_kinds_differ();
    reveal_strlit("start");
    reveal_strlit("end");
}

/// A plain comment (no kind, or `comment`) persists exactly its text as the sticky's note.
pub proof fn a_note_persists(v: JsonV, id: Seq<char>, t: Seq<char>)
    requires
        field_str(v, "kind"@) is None || field_str(v, "kind"@) == Some("comment"@),
        field_str(v, "elemId"@) == Some(id),
        field_str(v, "text"@) == Some(t),
    ensures
        comment_events_spec(v) == seq![EventV::ElementAnnotated { id, text: t }],
{
    lemma_kinds_differ();
    reveal_strlit("start");
    reveal_strlit("end");
}

/// A `move` comment persists the relocation of its sticky to the posted column and to the posted
/// sub-position clamped into `[0, 1]` at four places, its lane untouched; then, when it displaces
/// another sticky (`swapId`, `swapCol`), that sticky's move to the vacated column. Nothing when it
/// carries neither a column nor a sub-position.
pub proof fn a_move_persists(v: JsonV, id: Seq<char>)
    requires
        field_str(v, "kind"@) == Some("move"@),
        field_str(v, "elemId"@) == Some(id),
    ensures
        ({
            let evs = comment_events_spec(v);
            let col = field_int(v, "col"@);
            let y = field_num(v, "y"@);
            &&& (col is None && y is None) ==> evs.len() == 0
            &&& !(col is None && y is None) ==> {
                &&& evs.len() >= 1
                &&& evs[0] == (EventV::ElementMoved {
                    id,
                    col,
                    kind: None,
                    y: if y is Some { Some(clamp_y_spec(y->0)) } else { None },
                })
                &&& (field_str(v, "swapId"@) matches Some(sid) && sid != id && field_int(v, "swapCol"@) is Some)
                    ==> evs == seq![evs[0], EventV::ElementMoved { id: field_str(v, "swapId"@)->0, col: field_int(v, "swapCol"@), kind: None, y: None }]
                &&& !(field_str(v, "swapId"@) matches Some(sid) && sid != id && field_int(v, "swapCol"@) is Some)
                    ==> evs.len() == 1
            }
        }),
{
    lemma_kinds_differ();
    reveal_strlit("start");
    reveal_strlit("end");
}

/// A comments file folds line by line: the events of two runs of records are the events of the
/// first then those of the second, and their skipped counts add up.
pub proof fn comment_files_fold_line_by_line(a: Seq<(int, Seq<char>)>, b: Seq<(int, Seq<char>)>)
    ensures
        fold_comments(a + b) == (fold_comments(a).0 + fold_comments(b).0, fold_comments(a).1
            + fold_comments(b).1),
    decreases b.len(),
{
    if b.len() == 0 {
        assert(a + b =~= a);
        assert(fold_comments(a).0 + Seq::<EventV>::empty() =~= fold_comments(a).0);
    } else {
        comment_files_fold_line_by_line(a, b.drop_last());
        assert((a + b).drop_last() =~= a + b.drop_last());
        assert((a + b).last() == b.last());
        let (ea, sa) = fold_comments(a);
        let (eb, sb) = fold_comments(b.drop_last());
        match parse_spec(b.last().1) {
            Ok(v) => if v is Obj && comment_events_spec(v).len() > 0 {
                assert(ea + eb + comment_events_spec(v) =~= ea + (eb + comment_events_spec(v)));
            },
            Err(_) => {},
        }
    }
}

/// One line of a comments file: a comment object that persists events contributes exactly those
/// events and is not skipped; any other line contributes nothing and is counted as skipped.
pub proof fn a_comment_line_contributes_its_events(r: (int, Seq<char>))
    ensures
        (parse_spec(r.1) matches Ok(v) && v is Obj && comment_events_spec(v).len() > 0) ==> fold_comments(
            seq![r],
        ) == (comment_events_spec(parse_spec(r.1)->Ok_0), 0nat),
        !(parse_spec(r.1) matches Ok(v) && v is Obj && comment_events_spec(v).len() > 0) ==> fold_comments(
            seq![r],
        ) == (Seq::<EventV>::empty(), 1nat),
{
    let one = seq![r];
    assert(one.drop_last() =~= Seq::<(int, Seq<char>)>::empty());
    assert(one.last() == r);
    assert(fold_comments(one.drop_last()) == (Seq::<EventV>::empty(), 0nat));
    assert(Seq::<EventV>::empty() + comment_events_spec(parse_spec(r.1)->Ok_0) =~= comment_events_spec(
        parse_spec(r.1)->Ok_0,
    ));
}

} // verus!
