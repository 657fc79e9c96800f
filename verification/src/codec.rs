//! The JSON codec for [`Event`]: read a raw log record into an event (through the legacy-kind
//! [`upcast`] seam) and write one back out ([`to_json`], [`line`], [`to_jsonl`]).

use crate::event::{events_view, Event, EventV};
use crate::json::{
    field_int, field_num, field_str, jget, jtext, lemma_obj_view, obj_view, Json, JsonV,
};
use crate::model::{
    lane_from_str, lane_of, lane_to_str, lane_wire, links_from, links_spec, opt_json, opt_view,
    strings_view, Lane,
};
use crate::number::{from_i64, of_int, Number};
use crate::text::{chars_of, str_eq, string_of};
use vstd::prelude::*;

verus! {

broadcast use vstd::string::group_string_axioms;

/// The event kinds this build understands: the current schema, then the legacy aliases
/// [`upcast`] migrates forward.
pub open spec fn known_kinds() -> Seq<Seq<char>> {
    seq![
        "BoardTitled"@,
        "BoardFormat"@,
        "BoardLeveled"@,
        "PhaseAdded"@,
        "PhaseResized"@,
        "PhaseRenamed"@,
        "PhaseRemoved"@,
        "FrontierMoved"@,
        "PhaseSplit"@,
        "ElementAdded"@,
        "ElementRenamed"@,
        "ElementMoved"@,
        "ElementAnnotated"@,
        "HotspotResolved"@,
        "ElementRemoved"@,
        "EdgeAdded"@,
        "EdgeRemoved"@,
        "LogCompacted"@,
        "CommentAdded"@,
        "Comment"@,
    ]
}

/// Whether `kind` is one this build recognises (the current schema or a legacy alias): a record
/// of a known kind that cannot be built is malformed, one of any other kind is skipped.
pub fn is_known_kind(kind: &str) -> (r: bool)
    ensures
        r == known_kinds().contains(kind@),
{
    let r = str_eq(kind, "BoardTitled") || str_eq(kind, "BoardFormat") || str_eq(
        kind,
        "BoardLeveled",
    ) || str_eq(kind, "PhaseAdded") || str_eq(kind, "PhaseResized") || str_eq(
        kind,
        "PhaseRenamed",
    ) || str_eq(kind, "PhaseRemoved") || str_eq(kind, "FrontierMoved") || str_eq(
        kind,
        "PhaseSplit",
    ) || str_eq(kind, "ElementAdded") || str_eq(kind, "ElementRenamed") || str_eq(
        kind,
        "ElementMoved",
    ) || str_eq(kind, "ElementAnnotated") || str_eq(kind, "HotspotResolved") || str_eq(
        kind,
        "ElementRemoved",
    ) || str_eq(kind, "EdgeAdded") || str_eq(kind, "EdgeRemoved") || str_eq(
        kind,
        "LogCompacted",
    ) || str_eq(kind, "CommentAdded") || str_eq(kind, "Comment");
    proof {
        let k = known_kinds();
        if r {
            assert(k.contains(kind@)) by {
                if kind@ == "BoardTitled"@ {
                    assert(k[0] == kind@);
                } else if kind@ == "BoardFormat"@ {
                    assert(k[1] == kind@);
                } else if kind@ == "BoardLeveled"@ {
                    assert(k[2] == kind@);
                } else if kind@ == "PhaseAdded"@ {
                    assert(k[3] == kind@);
                } else if kind@ == "PhaseResized"@ {
                    assert(k[4] == kind@);
                } else if kind@ == "PhaseRenamed"@ {
                    assert(k[5] == kind@);
                } else if kind@ == "PhaseRemoved"@ {
                    assert(k[6] == kind@);
                } else if kind@ == "FrontierMoved"@ {
                    assert(k[7] == kind@);
                } else if kind@ == "PhaseSplit"@ {
                    assert(k[8] == kind@);
                } else if kind@ == "ElementAdded"@ {
                    assert(k[9] == kind@);
                } else if kind@ == "ElementRenamed"@ {
                    assert(k[10] == kind@);
                } else if kind@ == "ElementMoved"@ {
                    assert(k[11] == kind@);
                } else if kind@ == "ElementAnnotated"@ {
                    assert(k[12] == kind@);
                } else if kind@ == "HotspotResolved"@ {
                    assert(k[13] == kind@);
                } else if kind@ == "ElementRemoved"@ {
                    assert(k[14] == kind@);
                } else if kind@ == "EdgeAdded"@ {
                    assert(k[15] == kind@);
                } else if kind@ == "EdgeRemoved"@ {
                    assert(k[16] == kind@);
                } else if kind@ == "LogCompacted"@ {
                    assert(k[17] == kind@);
                } else if kind@ == "CommentAdded"@ {
                    assert(k[18] == kind@);
                } else {
                    assert(k[19] == kind@);
                }
            }
        }
    }
    r
}

/// Why a raw record did not become an event. Three of the four are the ordinary way a schema
/// evolves; one is a corrupt log.
#[derive(Clone, Copy, PartialEq, Eq, Structural, Debug)]
pub enum Rejected {
    /// Not an object, or an absent or non-string `event`: a broken line.
    Unnamed,
    /// A kind this build does not know (a newer build's, or another tool's). Skipped.
    UnknownKind,
    /// An add naming a lane outside the grammar: there is no lane to put the sticky in. Skipped.
    /// (A move naming one keeps the rest of the move, with no lane change.)
    UnknownLane,
    /// A known kind missing a required field or mis-typing one.
    Malformed,
}

/// Every member of an object, with each `event` member's value replaced by the string `to`.
pub open spec fn rename_kind(pairs: Seq<(Seq<char>, JsonV)>, to: Seq<char>) -> Seq<(Seq<char>, JsonV)> {
    pairs.map_values(
        |p: (Seq<char>, JsonV)|
            if p.0 == "event"@ {
                (p.0, JsonV::Str(to))
            } else {
                p
            },
    )
}

/// A raw record migrated to the current schema: the legacy annotation kinds `CommentAdded` and
/// `Comment` are read as `ElementAnnotated`; every other record is left as it is.
pub open spec fn upcast_spec(j: JsonV) -> JsonV {
    match j {
        JsonV::Obj(pairs) => match field_str(j, "event"@) {
            Some(k) => if k == "CommentAdded"@ || k == "Comment"@ {
                JsonV::Obj(rename_kind(pairs, "ElementAnnotated"@))
            } else {
                j
            },
            None => j,
        },
        _ => j,
    }
}

/// Migrate a raw record to the current schema: the single seam where a renamed event kind is
/// repaired (a legacy `CommentAdded` or `Comment` becomes `ElementAnnotated`, every other field
/// kept in order); any other record is returned as it is.
pub fn upcast(j: &Json) -> (r: Json)
    ensures
        r@ == upcast_spec(j@),
{
    match j {
        Json::Obj(pairs) => {
            let legacy = match j.get_str("event") {
                Some(k) => str_eq(k, "CommentAdded") || str_eq(k, "Comment"),
                None => false,
            };
            if !legacy {
                return j.deep_clone();
            }
            let mut out: Vec<(String, Json)> = Vec::new();
            let mut i: usize = 0;
            proof {
                lemma_obj_view(pairs@);
            }
            while i < pairs.len()
                invariant
                    i <= pairs.len(),
                    obj_view(pairs@).len() == pairs.len(),
                    forall|q: int|
                        0 <= q < pairs.len() ==> #[trigger] obj_view(pairs@)[q] == (
                            pairs@[q].0@,
                            pairs@[q].1@,
                        ),
                    obj_view(out@) == rename_kind(obj_view(pairs@), "ElementAnnotated"@).take(
                        i as int,
                    ),
                decreases pairs.len() - i,
            {
                let k = pairs[i].0.clone();
                let v = if str_eq(pairs[i].0.as_str(), "event") {
                    Json::Str("ElementAnnotated".to_string())
                } else {
                    pairs[i].1.deep_clone()
                };
                let ghost prev = out@;
                out.push((k, v));
                proof {
                    assert(out@.subrange(0, out@.len() - 1) =~= prev);
                    let rk = rename_kind(obj_view(pairs@), "ElementAnnotated"@);
                    assert(obj_view(pairs@)[i as int] == (pairs@[i as int].0@, pairs@[i as int].1@));
                    assert(rk[i as int] == (
                        if pairs@[i as int].0@ == "event"@ {
                            (pairs@[i as int].0@, JsonV::Str("ElementAnnotated"@))
                        } else {
                            (pairs@[i as int].0@, pairs@[i as int].1@)
                        }
                    ));
                    assert(obj_view(out@) == obj_view(prev).push((k@, v@)));
                    assert(obj_view(out@) =~= rename_kind(obj_view(pairs@), "ElementAnnotated"@).take(
                        i + 1,
                    ));
                }
                i = i + 1;
            }
            assert(rename_kind(obj_view(pairs@), "ElementAnnotated"@).take(pairs.len() as int)
                =~= rename_kind(obj_view(pairs@), "ElementAnnotated"@));
            Json::Obj(out)
        },
        _ => j.deep_clone(),
    }
}

/// Whether a kind carries a lane in its `type` member: the sticky's own, required on an add and
/// optional on a move.
pub open spec fn carries_lane(kind: Seq<char>) -> bool {
    kind == "ElementAdded"@ || kind == "ElementMoved"@
}

/// Whether a record of a kind that carries a lane has a `type` that is a string but names no
/// lane. An absent or non-string `type` is not this case, nor a `type` on a kind with no lane,
/// which is an unknown member like any other.
pub open spec fn names_unknown_lane(j: JsonV) -> bool {
    match (field_str(j, "event"@), field_str(j, "type"@)) {
        (Some(kind), Some(t)) => carries_lane(kind) && lane_of(t) is None,
        _ => false,
    }
}

/// Whether a record of a kind that carries a lane has a `type` that is a string but names no lane.
pub fn names_an_unknown_lane(j: &Json) -> (r: bool)
    ensures
        r == names_unknown_lane(j@),
{
    let lane_kind = match j.get_str("event") {
        Some(kind) => str_eq(kind, "ElementAdded") || str_eq(kind, "ElementMoved"),
        None => false,
    };
    if !lane_kind {
        return false;
    }
    match j.get_str("type") {
        Some(t) => lane_from_str(t).is_none(),
        None => false,
    }
}

/// The lane member `key`: `None` when absent, not a string, or no lane.
pub open spec fn field_lane(j: JsonV, key: Seq<char>) -> Option<Lane> {
    match field_str(j, key) {
        Some(t) => lane_of(t),
        None => None,
    }
}

/// The event an already-vetted current-schema record denotes, or `None` when a required field is
/// missing or mis-typed. Integers are read truncated toward zero.
pub open spec fn build_spec(j: JsonV) -> Option<EventV> {
    let s = |k: Seq<char>| field_str(j, k);
    let i = |k: Seq<char>| field_int(j, k);
    match field_str(j, "event"@) {
        None => None,
        Some(kind) => if kind == "BoardTitled"@ {
            match s("title"@) {
                Some(title) => Some(EventV::BoardTitled { title }),
                None => None,
            }
        } else if kind == "BoardFormat"@ {
            match s("format"@) {
                Some(format) => Some(EventV::BoardFormat { format }),
                None => None,
            }
        } else if kind == "BoardLeveled"@ {
            match s("level"@) {
                Some(level) => Some(EventV::BoardLeveled { level }),
                None => None,
            }
        } else if kind == "PhaseAdded"@ {
            match (s("label"@), i("fromCol"@), i("toCol"@)) {
                (Some(label), Some(from_col), Some(to_col)) => Some(
                    EventV::PhaseAdded { id: s("id"@), label, from_col, to_col },
                ),
                _ => None,
            }
        } else if kind == "PhaseResized"@ {
            match (s("id"@), i("fromCol"@), i("toCol"@)) {
                (Some(id), Some(from_col), Some(to_col)) => Some(
                    EventV::PhaseResized { id, from_col, to_col },
                ),
                _ => None,
            }
        } else if kind == "PhaseRenamed"@ {
            match (s("id"@), s("label"@)) {
                (Some(id), Some(label)) => Some(EventV::PhaseRenamed { id, label }),
                _ => None,
            }
        } else if kind == "PhaseRemoved"@ {
            match s("id"@) {
                Some(id) => Some(EventV::PhaseRemoved { id }),
                None => None,
            }
        } else if kind == "FrontierMoved"@ {
            match (s("id"@), s("edge"@), i("col"@)) {
                (Some(id), Some(edge), Some(col)) => Some(EventV::FrontierMoved { id, edge, col }),
                _ => None,
            }
        } else if kind == "PhaseSplit"@ {
            match (s("id"@), i("atCol"@), s("newId"@), s("newLabel"@)) {
                (Some(id), Some(at_col), Some(new_id), Some(new_label)) => Some(
                    EventV::PhaseSplit { id, at_col, new_id, new_label },
                ),
                _ => None,
            }
        } else if kind == "ElementAdded"@ {
            match (s("id"@), field_lane(j, "type"@), s("label"@)) {
                (Some(id), Some(k), Some(label)) => Some(
                    EventV::ElementAdded {
                        id,
                        kind: k,
                        label,
                        col: i("col"@),
                        detail: s("detail"@),
                        y: field_num(j, "y"@),
                        links: links_spec(jget(j, "links"@)),
                    },
                ),
                _ => None,
            }
        } else if kind == "ElementRenamed"@ {
            match (s("id"@), s("label"@)) {
                (Some(id), Some(label)) => Some(EventV::ElementRenamed { id, label }),
                _ => None,
            }
        } else if kind == "ElementMoved"@ {
            match s("id"@) {
                Some(id) => Some(
                    EventV::ElementMoved {
                        id,
                        col: i("col"@),
                        kind: field_lane(j, "type"@),
                        y: field_num(j, "y"@),
                    },
                ),
                None => None,
            }
        } else if kind == "ElementAnnotated"@ {
            match (s("id"@), s("text"@)) {
                (Some(id), Some(text)) => Some(EventV::ElementAnnotated { id, text }),
                _ => None,
            }
        } else if kind == "HotspotResolved"@ {
            match (s("id"@), s("resolution"@)) {
                (Some(id), Some(resolution)) => Some(EventV::HotspotResolved { id, resolution }),
                _ => None,
            }
        } else if kind == "ElementRemoved"@ {
            match s("id"@) {
                Some(id) => Some(EventV::ElementRemoved { id }),
                None => None,
            }
        } else if kind == "EdgeAdded"@ {
            match (s("src"@), s("dst"@)) {
                (Some(src), Some(dst)) => Some(EventV::EdgeAdded { src, dst, label: s("label"@) }),
                _ => None,
            }
        } else if kind == "EdgeRemoved"@ {
            match (s("src"@), s("dst"@)) {
                (Some(src), Some(dst)) => Some(EventV::EdgeRemoved { src, dst }),
                _ => None,
            }
        } else if kind == "LogCompacted"@ {
            Some(
                EventV::LogCompacted {
                    folded: match i("folded"@) {
                        Some(n) => n,
                        None => 0,
                    },
                },
            )
        } else {
            None
        },
    }
}

/// What one raw record reads as: the event, or why it was rejected.
pub open spec fn parse_event_spec(raw: JsonV) -> Result<EventV, Rejected> {
    let e = upcast_spec(raw);
    match field_str(e, "event"@) {
        None => Err(Rejected::Unnamed),
        Some(kind) => if !known_kinds().contains(kind) {
            Err(Rejected::UnknownKind)
        } else if names_unknown_lane(e) && kind == "ElementAdded"@ {
            Err(Rejected::UnknownLane)
        } else {
            match build_spec(e) {
                Some(ev) => Ok(ev),
                None => Err(Rejected::Malformed),
            }
        },
    }
}

fn str_field(j: &Json, key: &str) -> (r: Option<String>)
    ensures
        opt_view(r) == field_str(j@, key@),
{
    match j.get_str(key) {
        Some(s) => Some(s.to_string()),
        None => None,
    }
}

fn lane_field(j: &Json, key: &str) -> (r: Option<Lane>)
    ensures
        r == field_lane(j@, key@),
{
    match j.get_str(key) {
        Some(t) => lane_from_str(t),
        None => None,
    }
}

/// Build the event for an already-vetted current-schema record, or `None` if a required field is
/// missing or mis-typed.
pub fn build_event(j: &Json) -> (r: Option<Event>)
    ensures
        match r {
            Some(ev) => build_spec(j@) == Some(ev@),
            None => build_spec(j@) is None,
        },
{
    let kind = match j.get_str("event") {
        Some(k) => k,
        None => {
            return None;
        },
    };
    if str_eq(kind, "BoardTitled") {
        let title = str_field(j, "title")?;
        Some(Event::BoardTitled { title })
    } else if str_eq(kind, "BoardFormat") {
        let format = str_field(j, "format")?;
        Some(Event::BoardFormat { format })
    } else if str_eq(kind, "BoardLeveled") {
        let level = str_field(j, "level")?;
        Some(Event::BoardLeveled { level })
    } else if str_eq(kind, "PhaseAdded") {
        let id = str_field(j, "id");
        let label = str_field(j, "label");
        let from_col = j.get_i64("fromCol");
        let to_col = j.get_i64("toCol");
        match (label, from_col, to_col) {
            (Some(label), Some(from_col), Some(to_col)) => Some(
                Event::PhaseAdded { id, label, from_col, to_col },
            ),
            _ => None,
        }
    } else if str_eq(kind, "PhaseResized") {
        let id = str_field(j, "id");
        let from_col = j.get_i64("fromCol");
        let to_col = j.get_i64("toCol");
        match (id, from_col, to_col) {
            (Some(id), Some(from_col), Some(to_col)) => Some(
                Event::PhaseResized { id, from_col, to_col },
            ),
            _ => None,
        }
    } else if str_eq(kind, "PhaseRenamed") {
        let id = str_field(j, "id");
        let label = str_field(j, "label");
        match (id, label) {
            (Some(id), Some(label)) => Some(Event::PhaseRenamed { id, label }),
            _ => None,
        }
    } else if str_eq(kind, "PhaseRemoved") {
        let id = str_field(j, "id")?;
        Some(Event::PhaseRemoved { id })
    } else if str_eq(kind, "FrontierMoved") {
        let id = str_field(j, "id");
        let edge = str_field(j, "edge");
        let col = j.get_i64("col");
        match (id, edge, col) {
            (Some(id), Some(edge), Some(col)) => Some(Event::FrontierMoved { id, edge, col }),
            _ => None,
        }
    } else if str_eq(kind, "PhaseSplit") {
        let id = str_field(j, "id");
        let at_col = j.get_i64("atCol");
        let new_id = str_field(j, "newId");
        let new_label = str_field(j, "newLabel");
        match (id, at_col, new_id, new_label) {
            (Some(id), Some(at_col), Some(new_id), Some(new_label)) => Some(
                Event::PhaseSplit { id, at_col, new_id, new_label },
            ),
            _ => None,
        }
    } else if str_eq(kind, "ElementAdded") {
        let id = str_field(j, "id");
        let k = lane_field(j, "type");
        let label = str_field(j, "label");
        match (id, k, label) {
            (Some(id), Some(k), Some(label)) => Some(
                Event::ElementAdded {
                    id,
                    kind: k,
                    label,
                    col: j.get_i64("col"),
                    detail: str_field(j, "detail"),
                    y: j.get_num("y"),
                    links: links_from(j.get("links")),
                },
            ),
            _ => None,
        }
    } else if str_eq(kind, "ElementRenamed") {
        let id = str_field(j, "id");
        let label = str_field(j, "label");
        match (id, label) {
            (Some(id), Some(label)) => Some(Event::ElementRenamed { id, label }),
            _ => None,
        }
    } else if str_eq(kind, "ElementMoved") {
        let id = str_field(j, "id")?;
        Some(
            Event::ElementMoved {
                id,
                col: j.get_i64("col"),
                kind: lane_field(j, "type"),
                y: j.get_num("y"),
            },
        )
    } else if str_eq(kind, "ElementAnnotated") {
        let id = str_field(j, "id");
        let text = str_field(j, "text");
        match (id, text) {
            (Some(id), Some(text)) => Some(Event::ElementAnnotated { id, text }),
            _ => None,
        }
    } else if str_eq(kind, "HotspotResolved") {
        let id = str_field(j, "id");
        let resolution = str_field(j, "resolution");
        match (id, resolution) {
            (Some(id), Some(resolution)) => Some(Event::HotspotResolved { id, resolution }),
            _ => None,
        }
    } else if str_eq(kind, "ElementRemoved") {
        let id = str_field(j, "id")?;
        Some(Event::ElementRemoved { id })
    } else if str_eq(kind, "EdgeAdded") {
        let src = str_field(j, "src");
        let dst = str_field(j, "dst");
        match (src, dst) {
            (Some(src), Some(dst)) => Some(
                Event::EdgeAdded { src, dst, label: str_field(j, "label") },
            ),
            _ => None,
        }
    } else if str_eq(kind, "EdgeRemoved") {
        let src = str_field(j, "src");
        let dst = str_field(j, "dst");
        match (src, dst) {
            (Some(src), Some(dst)) => Some(Event::EdgeRemoved { src, dst }),
            _ => None,
        }
    } else if str_eq(kind, "LogCompacted") {
        let folded = match j.get_i64("folded") {
            Some(n) => n,
            None => 0,
        };
        Some(Event::LogCompacted { folded })
    } else {
        None
    }
}

/// One raw record read as an event, or the reason it was rejected. The record first passes
/// through [`upcast`], so a legacy shape is migrated before any field is read; an add's unknown
/// lane is told apart from a missing one before the event is built.
pub fn parse_event(raw: &Json) -> (r: Result<Event, Rejected>)
    ensures
        match r {
            Ok(ev) => parse_event_spec(raw@) == Ok::<EventV, Rejected>(ev@),
            Err(why) => parse_event_spec(raw@) == Err::<EventV, Rejected>(why),
        },
{
    let event = upcast(raw);
    let adds = match event.get_str("event") {
        None => {
            return Err(Rejected::Unnamed);
        },
        Some(kind) => {
            if !is_known_kind(kind) {
                return Err(Rejected::UnknownKind);
            }
            str_eq(kind, "ElementAdded")
        },
    };
    if adds && names_an_unknown_lane(&event) {
        return Err(Rejected::UnknownLane);
    }
    match build_event(&event) {
        Some(ev) => Ok(ev),
        None => Err(Rejected::Malformed),
    }
}


// ---- writing ----------------------------------------------------------------------------

/// A string member.
pub open spec fn str_member(k: Seq<char>, v: Seq<char>) -> (Seq<char>, JsonV) {
    (k, JsonV::Str(v))
}

/// An integer member.
pub open spec fn int_member(k: Seq<char>, v: i64) -> (Seq<char>, JsonV) {
    (k, JsonV::Num(of_int(v as int)))
}

/// An optional member: present only when there is a value.
pub open spec fn opt_member(k: Seq<char>, v: Option<JsonV>) -> Seq<(Seq<char>, JsonV)> {
    match v {
        Some(x) => seq![(k, x)],
        None => Seq::empty(),
    }
}

pub open spec fn opt_str(v: Option<Seq<char>>) -> Option<JsonV> {
    match v {
        Some(s) => Some(JsonV::Str(s)),
        None => None,
    }
}

pub open spec fn opt_int(v: Option<i64>) -> Option<JsonV> {
    match v {
        Some(i) => Some(JsonV::Num(of_int(i as int))),
        None => None,
    }
}

pub open spec fn opt_num(v: Option<Number>) -> Option<JsonV> {
    match v {
        Some(n) => Some(JsonV::Num(n)),
        None => None,
    }
}

/// The members of an event's canonical object, in order: the `event` kind first.
pub open spec fn event_members(ev: EventV) -> Seq<(Seq<char>, JsonV)> {
    let kind = |k: Seq<char>| str_member("event"@, k);
    match ev {
        EventV::BoardTitled { title } => seq![kind("BoardTitled"@), str_member("title"@, title)],
        EventV::BoardFormat { format } => seq![kind("BoardFormat"@), str_member("format"@, format)],
        EventV::BoardLeveled { level } => seq![kind("BoardLeveled"@), str_member("level"@, level)],
        EventV::PhaseAdded { id, label, from_col, to_col } => seq![kind("PhaseAdded"@)]
            + opt_member("id"@, opt_str(id)) + seq![
            str_member("label"@, label),
            int_member("fromCol"@, from_col),
            int_member("toCol"@, to_col),
        ],
        EventV::PhaseResized { id, from_col, to_col } => seq![
            kind("PhaseResized"@),
            str_member("id"@, id),
            int_member("fromCol"@, from_col),
            int_member("toCol"@, to_col),
        ],
        EventV::PhaseRenamed { id, label } => seq![
            kind("PhaseRenamed"@),
            str_member("id"@, id),
            str_member("label"@, label),
        ],
        EventV::PhaseRemoved { id } => seq![kind("PhaseRemoved"@), str_member("id"@, id)],
        EventV::FrontierMoved { id, edge, col } => seq![
            kind("FrontierMoved"@),
            str_member("id"@, id),
            str_member("edge"@, edge),
            int_member("col"@, col),
        ],
        EventV::PhaseSplit { id, at_col, new_id, new_label } => seq![
            kind("PhaseSplit"@),
            str_member("id"@, id),
            int_member("atCol"@, at_col),
            str_member("newId"@, new_id),
            str_member("newLabel"@, new_label),
        ],
        EventV::ElementAdded { id, kind: k, label, col, detail, y, links } => seq![
            kind("ElementAdded"@),
            str_member("id"@, id),
            str_member("type"@, lane_wire(k)),
            str_member("label"@, label),
        ] + opt_member("col"@, opt_int(col)) + opt_member("detail"@, opt_str(detail))
            + opt_member("y"@, opt_num(y)) + (if links.len() > 0 {
            seq![("links"@, JsonV::Arr(links.map_values(|l: Seq<char>| JsonV::Str(l))))]
        } else {
            Seq::empty()
        }),
        EventV::ElementRenamed { id, label } => seq![
            kind("ElementRenamed"@),
            str_member("id"@, id),
            str_member("label"@, label),
        ],
        EventV::ElementMoved { id, col, kind: k, y } => seq![
            kind("ElementMoved"@),
            str_member("id"@, id),
        ] + opt_member("col"@, opt_int(col)) + opt_member(
            "type"@,
            match k {
                Some(l) => Some(JsonV::Str(lane_wire(l))),
                None => None,
            },
        ) + opt_member("y"@, opt_num(y)),
        EventV::ElementAnnotated { id, text } => seq![
            kind("ElementAnnotated"@),
            str_member("id"@, id),
            str_member("text"@, text),
        ],
        EventV::HotspotResolved { id, resolution } => seq![
            kind("HotspotResolved"@),
            str_member("id"@, id),
            str_member("resolution"@, resolution),
        ],
        EventV::ElementRemoved { id } => seq![kind("ElementRemoved"@), str_member("id"@, id)],
        EventV::EdgeAdded { src, dst, label } => seq![
            kind("EdgeAdded"@),
            str_member("src"@, src),
            str_member("dst"@, dst),
        ] + opt_member("label"@, opt_str(label)),
        EventV::EdgeRemoved { src, dst } => seq![
            kind("EdgeRemoved"@),
            str_member("src"@, src),
            str_member("dst"@, dst),
        ],
        EventV::LogCompacted { folded } => seq![
            kind("LogCompacted"@),
            int_member("folded"@, folded),
        ],
    }
}

/// An event's canonical JSON object.
pub open spec fn to_json_spec(ev: EventV) -> JsonV {
    JsonV::Obj(event_members(ev))
}

/// The text of one event: its canonical object, written compactly.
pub open spec fn line_spec(ev: EventV) -> Seq<char> {
    jtext(to_json_spec(ev))
}

/// The JSONL text of a batch: one line per event, each newline-terminated.
pub open spec fn jsonl_spec(evs: Seq<EventV>) -> Seq<char>
    decreases evs.len(),
{
    if evs.len() == 0 {
        Seq::empty()
    } else {
        jsonl_spec(evs.drop_last()) + line_spec(evs.last()) + seq!['\n']
    }
}

proof fn lemma_obj_push(s: Seq<(String, Json)>, k: String, v: Json)
    ensures
        obj_view(s.push((k, v))) == obj_view(s).push((k@, v@)),
{
    assert(s.push((k, v)).subrange(0, s.len() as int) =~= s);
}

fn put_str(p: &mut Vec<(String, Json)>, k: &str, v: &str)
    ensures
        obj_view(final(p)@) == obj_view(old(p)@).push(str_member(k@, v@)),
{
    let kv = (k.to_string(), Json::Str(v.to_string()));
    proof {
        lemma_obj_push(p@, kv.0, kv.1);
    }
    p.push(kv);
}

fn put_int(p: &mut Vec<(String, Json)>, k: &str, v: i64)
    ensures
        obj_view(final(p)@) == obj_view(old(p)@).push(int_member(k@, v)),
{
    let kv = (k.to_string(), Json::Num(from_i64(v)));
    proof {
        lemma_obj_push(p@, kv.0, kv.1);
    }
    p.push(kv);
}

fn put_num(p: &mut Vec<(String, Json)>, k: &str, v: Number)
    ensures
        obj_view(final(p)@) == obj_view(old(p)@).push((k@, JsonV::Num(v))),
{
    let kv = (k.to_string(), Json::Num(v));
    proof {
        lemma_obj_push(p@, kv.0, kv.1);
    }
    p.push(kv);
}

fn start_obj(kind: &str) -> (p: Vec<(String, Json)>)
    ensures
        obj_view(p@) == seq![str_member("event"@, kind@)],
{
    let mut p: Vec<(String, Json)> = Vec::new();
    assert(obj_view(p@) =~= Seq::<(Seq<char>, JsonV)>::empty());
    put_str(&mut p, "event", kind);
    assert(obj_view(p@) =~= seq![str_member("event"@, kind@)]);
    p
}

fn links_json(links: &Vec<String>) -> (r: Json)
    ensures
        r@ == JsonV::Arr(strings_view(links@).map_values(|l: Seq<char>| JsonV::Str(l))),
{
    let mut out: Vec<Json> = Vec::new();
    let mut i: usize = 0;
    while i < links.len()
        invariant
            i <= links.len(),
            crate::json::arr_view(out@) == strings_view(links@).map_values(
                |l: Seq<char>| JsonV::Str(l),
            ).take(i as int),
        decreases links.len() - i,
    {
        let ghost prev = out@;
        let x = Json::Str(links[i].clone());
        assert(x@ == JsonV::Str(links@[i as int]@));
        out.push(x);
        proof {
            assert(out@[out@.len() - 1] == x);
            assert(out@.subrange(0, out@.len() - 1) =~= prev);
            assert(strings_view(links@)[i as int] == links@[i as int]@);
            assert(crate::json::arr_view(out@) == crate::json::arr_view(prev).push(
                JsonV::Str(links@[i as int]@),
            ));
            assert(crate::json::arr_view(out@) =~= strings_view(links@).map_values(
                |l: Seq<char>| JsonV::Str(l),
            ).take(i + 1));
        }
        i = i + 1;
    }
    assert(strings_view(links@).map_values(|l: Seq<char>| JsonV::Str(l)).take(links.len() as int)
        =~= strings_view(links@).map_values(|l: Seq<char>| JsonV::Str(l)));
    Json::Arr(out)
}

/// Serialize one event to its canonical JSON object: the `event` kind first, then the fields in a
/// fixed order, optional ones only when present.
pub fn to_json(ev: &Event) -> (r: Json)
    ensures
        r@ == to_json_spec(ev@),
{
    let p = match ev {
        Event::BoardTitled { title } => {
            let mut p = start_obj("BoardTitled");
            put_str(&mut p, "title", title.as_str());
            p
        },
        Event::BoardFormat { format } => {
            let mut p = start_obj("BoardFormat");
            put_str(&mut p, "format", format.as_str());
            p
        },
        Event::BoardLeveled { level } => {
            let mut p = start_obj("BoardLeveled");
            put_str(&mut p, "level", level.as_str());
            p
        },
        Event::PhaseAdded { id, label, from_col, to_col } => {
            let mut p = start_obj("PhaseAdded");
            if let Some(i) = id {
                put_str(&mut p, "id", i.as_str());
            }
            put_str(&mut p, "label", label.as_str());
            put_int(&mut p, "fromCol", *from_col);
            put_int(&mut p, "toCol", *to_col);
            p
        },
        Event::PhaseResized { id, from_col, to_col } => {
            let mut p = start_obj("PhaseResized");
            put_str(&mut p, "id", id.as_str());
            put_int(&mut p, "fromCol", *from_col);
            put_int(&mut p, "toCol", *to_col);
            p
        },
        Event::PhaseRenamed { id, label } => {
            let mut p = start_obj("PhaseRenamed");
            put_str(&mut p, "id", id.as_str());
            put_str(&mut p, "label", label.as_str());
            p
        },
        Event::PhaseRemoved { id } => {
            let mut p = start_obj("PhaseRemoved");
            put_str(&mut p, "id", id.as_str());
            p
        },
        Event::FrontierMoved { id, edge, col } => {
            let mut p = start_obj("FrontierMoved");
            put_str(&mut p, "id", id.as_str());
            put_str(&mut p, "edge", edge.as_str());
            put_int(&mut p, "col", *col);
            p
        },
        Event::PhaseSplit { id, at_col, new_id, new_label } => {
            let mut p = start_obj("PhaseSplit");
            put_str(&mut p, "id", id.as_str());
            put_int(&mut p, "atCol", *at_col);
            put_str(&mut p, "newId", new_id.as_str());
            put_str(&mut p, "newLabel", new_label.as_str());
            p
        },
        Event::ElementAdded { id, kind, label, col, detail, y, links } => {
            let mut p = start_obj("ElementAdded");
            put_str(&mut p, "id", id.as_str());
            put_str(&mut p, "type", lane_to_str(*kind));
            put_str(&mut p, "label", label.as_str());
            if let Some(c) = col {
                put_int(&mut p, "col", *c);
            }
            if let Some(d) = detail {
                put_str(&mut p, "detail", d.as_str());
            }
            if let Some(n) = y {
                put_num(&mut p, "y", *n);
            }
            if links.len() > 0 {
                let a = links_json(links);
                let kv = ("links".to_string(), a);
                proof {
                    lemma_obj_push(p@, kv.0, kv.1);
                }
                p.push(kv);
            }
            p
        },
        Event::ElementRenamed { id, label } => {
            let mut p = start_obj("ElementRenamed");
            put_str(&mut p, "id", id.as_str());
            put_str(&mut p, "label", label.as_str());
            p
        },
        Event::ElementMoved { id, col, kind, y } => {
            let mut p = start_obj("ElementMoved");
            put_str(&mut p, "id", id.as_str());
            if let Some(c) = col {
                put_int(&mut p, "col", *c);
            }
            if let Some(k) = kind {
                put_str(&mut p, "type", lane_to_str(*k));
            }
            if let Some(n) = y {
                put_num(&mut p, "y", *n);
            }
            p
        },
        Event::ElementAnnotated { id, text } => {
            let mut p = start_obj("ElementAnnotated");
            put_str(&mut p, "id", id.as_str());
            put_str(&mut p, "text", text.as_str());
            p
        },
        Event::HotspotResolved { id, resolution } => {
            let mut p = start_obj("HotspotResolved");
            put_str(&mut p, "id", id.as_str());
            put_str(&mut p, "resolution", resolution.as_str());
            p
        },
        Event::ElementRemoved { id } => {
            let mut p = start_obj("ElementRemoved");
            put_str(&mut p, "id", id.as_str());
            p
        },
        Event::EdgeAdded { src, dst, label } => {
            let mut p = start_obj("EdgeAdded");
            put_str(&mut p, "src", src.as_str());
            put_str(&mut p, "dst", dst.as_str());
            if let Some(l) = label {
                put_str(&mut p, "label", l.as_str());
            }
            p
        },
        Event::EdgeRemoved { src, dst } => {
            let mut p = start_obj("EdgeRemoved");
            put_str(&mut p, "src", src.as_str());
            put_str(&mut p, "dst", dst.as_str());
            p
        },
        Event::LogCompacted { folded } => {
            let mut p = start_obj("LogCompacted");
            put_int(&mut p, "folded", *folded);
            p
        },
    };
    assert(obj_view(p@) =~= event_members(ev@));
    Json::Obj(p)
}

/// One event as one JSONL line (no trailing newline).
pub fn line(ev: &Event) -> (s: String)
    ensures
        s@ == line_spec(ev@),
{
    crate::json::to_string(&to_json(ev))
}

/// A whole batch as JSONL text: one event per line, each newline-terminated.
pub fn to_jsonl(events: &[Event]) -> (s: String)
    ensures
        s@ == jsonl_spec(events_view(events@)),
{
    let ghost evs = events_view(events@);
    let mut out: Vec<char> = Vec::new();
    let mut i: usize = 0;
    while i < events.len()
        invariant
            i <= events.len(),
            evs == events_view(events@),
            out@ == jsonl_spec(evs.take(i as int)),
        decreases events.len() - i,
    {
        let l = line(&events[i]);
        let mut lv = chars_of(l.as_str());
        let ghost before = out@;
        out.append(&mut lv);
        out.push('\n');
        proof {
            assert(evs.take(i + 1).drop_last() =~= evs.take(i as int));
            assert(evs.take(i + 1).last() == events@[i as int]@);
            assert(out@ =~= jsonl_spec(evs.take(i + 1)));
        }
        i = i + 1;
    }
    assert(evs.take(events.len() as int) =~= evs);
    string_of(&out)
}


// ---- reading back what was written ----------------------------------------------------------

/// The member names of the event objects are pairwise distinct.
proof fn lemma_member_keys_distinct()
    ensures
        "event"@ != "title"@,
        "event"@ != "format"@,
        "event"@ != "level"@,
        "event"@ != "id"@,
        "event"@ != "label"@,
        "event"@ != "fromCol"@,
        "event"@ != "toCol"@,
        "event"@ != "edge"@,
        "event"@ != "col"@,
        "event"@ != "atCol"@,
        "event"@ != "newId"@,
        "event"@ != "newLabel"@,
        "event"@ != "type"@,
        "event"@ != "detail"@,
        "event"@ != "y"@,
        "event"@ != "links"@,
        "event"@ != "text"@,
        "event"@ != "resolution"@,
        "event"@ != "src"@,
        "event"@ != "dst"@,
        "event"@ != "folded"@,
        "title"@ != "format"@,
        "title"@ != "level"@,
        "title"@ != "id"@,
        "title"@ != "label"@,
        "title"@ != "fromCol"@,
        "title"@ != "toCol"@,
        "title"@ != "edge"@,
        "title"@ != "col"@,
        "title"@ != "atCol"@,
        "title"@ != "newId"@,
        "title"@ != "newLabel"@,
        "title"@ != "type"@,
        "title"@ != "detail"@,
        "title"@ != "y"@,
        "title"@ != "links"@,
        "title"@ != "text"@,
        "title"@ != "resolution"@,
        "title"@ != "src"@,
        "title"@ != "dst"@,
        "title"@ != "folded"@,
        "format"@ != "level"@,
        "format"@ != "id"@,
        "format"@ != "label"@,
        "format"@ != "fromCol"@,
        "format"@ != "toCol"@,
        "format"@ != "edge"@,
        "format"@ != "col"@,
        "format"@ != "atCol"@,
        "format"@ != "newId"@,
        "format"@ != "newLabel"@,
        "format"@ != "type"@,
        "format"@ != "detail"@,
        "format"@ != "y"@,
        "format"@ != "links"@,
        "format"@ != "text"@,
        "format"@ != "resolution"@,
        "format"@ != "src"@,
        "format"@ != "dst"@,
        "format"@ != "folded"@,
        "level"@ != "id"@,
        "level"@ != "label"@,
        "level"@ != "fromCol"@,
        "level"@ != "toCol"@,
        "level"@ != "edge"@,
        "level"@ != "col"@,
        "level"@ != "atCol"@,
        "level"@ != "newId"@,
        "level"@ != "newLabel"@,
        "level"@ != "type"@,
        "level"@ != "detail"@,
        "level"@ != "y"@,
        "level"@ != "links"@,
        "level"@ != "text"@,
        "level"@ != "resolution"@,
        "level"@ != "src"@,
        "level"@ != "dst"@,
        "level"@ != "folded"@,
        "id"@ != "label"@,
        "id"@ != "fromCol"@,
        "id"@ != "toCol"@,
        "id"@ != "edge"@,
        "id"@ != "col"@,
        "id"@ != "atCol"@,
        "id"@ != "newId"@,
        "id"@ != "newLabel"@,
        "id"@ != "type"@,
        "id"@ != "detail"@,
        "id"@ != "y"@,
        "id"@ != "links"@,
        "id"@ != "text"@,
        "id"@ != "resolution"@,
        "id"@ != "src"@,
        "id"@ != "dst"@,
        "id"@ != "folded"@,
        "label"@ != "fromCol"@,
        "label"@ != "toCol"@,
        "label"@ != "edge"@,
        "label"@ != "col"@,
        "label"@ != "atCol"@,
        "label"@ != "newId"@,
        "label"@ != "newLabel"@,
        "label"@ != "type"@,
        "label"@ != "detail"@,
        "label"@ != "y"@,
        "label"@ != "links"@,
        "label"@ != "text"@,
        "label"@ != "resolution"@,
        "label"@ != "src"@,
        "label"@ != "dst"@,
        "label"@ != "folded"@,
        "fromCol"@ != "toCol"@,
        "fromCol"@ != "edge"@,
        "fromCol"@ != "col"@,
        "fromCol"@ != "atCol"@,
        "fromCol"@ != "newId"@,
        "fromCol"@ != "newLabel"@,
        "fromCol"@ != "type"@,
        "fromCol"@ != "detail"@,
        "fromCol"@ != "y"@,
        "fromCol"@ != "links"@,
        "fromCol"@ != "text"@,
        "fromCol"@ != "resolution"@,
        "fromCol"@ != "src"@,
        "fromCol"@ != "dst"@,
        "fromCol"@ != "folded"@,
        "toCol"@ != "edge"@,
        "toCol"@ != "col"@,
        "toCol"@ != "atCol"@,
        "toCol"@ != "newId"@,
        "toCol"@ != "newLabel"@,
        "toCol"@ != "type"@,
        "toCol"@ != "detail"@,
        "toCol"@ != "y"@,
        "toCol"@ != "links"@,
        "toCol"@ != "text"@,
        "toCol"@ != "resolution"@,
        "toCol"@ != "src"@,
        "toCol"@ != "dst"@,
        "toCol"@ != "folded"@,
        "edge"@ != "col"@,
        "edge"@ != "atCol"@,
        "edge"@ != "newId"@,
        "edge"@ != "newLabel"@,
        "edge"@ != "type"@,
        "edge"@ != "detail"@,
        "edge"@ != "y"@,
        "edge"@ != "links"@,
        "edge"@ != "text"@,
        "edge"@ != "resolution"@,
        "edge"@ != "src"@,
        "edge"@ != "dst"@,
        "edge"@ != "folded"@,
        "col"@ != "atCol"@,
        "col"@ != "newId"@,
        "col"@ != "newLabel"@,
        "col"@ != "type"@,
        "col"@ != "detail"@,
        "col"@ != "y"@,
        "col"@ != "links"@,
        "col"@ != "text"@,
        "col"@ != "resolution"@,
        "col"@ != "src"@,
        "col"@ != "dst"@,
        "col"@ != "folded"@,
        "atCol"@ != "newId"@,
        "atCol"@ != "newLabel"@,
        "atCol"@ != "type"@,
        "atCol"@ != "detail"@,
        "atCol"@ != "y"@,
        "atCol"@ != "links"@,
        "atCol"@ != "text"@,
        "atCol"@ != "resolution"@,
        "atCol"@ != "src"@,
        "atCol"@ != "dst"@,
        "atCol"@ != "folded"@,
        "newId"@ != "newLabel"@,
        "newId"@ != "type"@,
        "newId"@ != "detail"@,
        "newId"@ != "y"@,
        "newId"@ != "links"@,
        "newId"@ != "text"@,
        "newId"@ != "resolution"@,
        "newId"@ != "src"@,
        "newId"@ != "dst"@,
        "newId"@ != "folded"@,
        "newLabel"@ != "type"@,
        "newLabel"@ != "detail"@,
        "newLabel"@ != "y"@,
        "newLabel"@ != "links"@,
        "newLabel"@ != "text"@,
        "newLabel"@ != "resolution"@,
        "newLabel"@ != "src"@,
        "newLabel"@ != "dst"@,
        "newLabel"@ != "folded"@,
        "type"@ != "detail"@,
        "type"@ != "y"@,
        "type"@ != "links"@,
        "type"@ != "text"@,
        "type"@ != "resolution"@,
        "type"@ != "src"@,
        "type"@ != "dst"@,
        "type"@ != "folded"@,
        "detail"@ != "y"@,
        "detail"@ != "links"@,
        "detail"@ != "text"@,
        "detail"@ != "resolution"@,
        "detail"@ != "src"@,
        "detail"@ != "dst"@,
        "detail"@ != "folded"@,
        "y"@ != "links"@,
        "y"@ != "text"@,
        "y"@ != "resolution"@,
        "y"@ != "src"@,
        "y"@ != "dst"@,
        "y"@ != "folded"@,
        "links"@ != "text"@,
        "links"@ != "resolution"@,
        "links"@ != "src"@,
        "links"@ != "dst"@,
        "links"@ != "folded"@,
        "text"@ != "resolution"@,
        "text"@ != "src"@,
        "text"@ != "dst"@,
        "text"@ != "folded"@,
        "resolution"@ != "src"@,
        "resolution"@ != "dst"@,
        "resolution"@ != "folded"@,
        "src"@ != "dst"@,
        "src"@ != "folded"@,
        "dst"@ != "folded"@,
{
    reveal_strlit("event");
    reveal_strlit("title");
    reveal_strlit("format");
    reveal_strlit("level");
    reveal_strlit("id");
    reveal_strlit("label");
    reveal_strlit("fromCol");
    reveal_strlit("toCol");
    reveal_strlit("edge");
    reveal_strlit("col");
    reveal_strlit("atCol");
    reveal_strlit("newId");
    reveal_strlit("newLabel");
    reveal_strlit("type");
    reveal_strlit("detail");
    reveal_strlit("y");
    reveal_strlit("links");
    reveal_strlit("text");
    reveal_strlit("resolution");
    reveal_strlit("src");
    reveal_strlit("dst");
    reveal_strlit("folded");
    assert("event"@[0] != "title"@[0]);
    assert("event"@.len() != "format"@.len());
    assert("event"@[0] != "level"@[0]);
    assert("event"@.len() != "id"@.len());
    assert("event"@[0] != "label"@[0]);
    assert("event"@.len() != "fromCol"@.len());
    assert("event"@[0] != "toCol"@[0]);
    assert("event"@.len() != "edge"@.len());
    assert("event"@.len() != "col"@.len());
    assert("event"@[0] != "atCol"@[0]);
    assert("event"@[0] != "newId"@[0]);
    assert("event"@.len() != "newLabel"@.len());
    assert("event"@.len() != "type"@.len());
    assert("event"@.len() != "detail"@.len());
    assert("event"@.len() != "y"@.len());
    assert("event"@[0] != "links"@[0]);
    assert("event"@.len() != "text"@.len());
    assert("event"@.len() != "resolution"@.len());
    assert("event"@.len() != "src"@.len());
    assert("event"@.len() != "dst"@.len());
    assert("event"@.len() != "folded"@.len());
    assert("title"@.len() != "format"@.len());
    assert("title"@[0] != "level"@[0]);
    assert("title"@.len() != "id"@.len());
    assert("title"@[0] != "label"@[0]);
    assert("title"@.len() != "fromCol"@.len());
    assert("title"@[1] != "toCol"@[1]);
    assert("title"@.len() != "edge"@.len());
    assert("title"@.len() != "col"@.len());
    assert("title"@[0] != "atCol"@[0]);
    assert("title"@[0] != "newId"@[0]);
    assert("title"@.len() != "newLabel"@.len());
    assert("title"@.len() != "type"@.len());
    assert("title"@.len() != "detail"@.len());
    assert("title"@.len() != "y"@.len());
    assert("title"@[0] != "links"@[0]);
    assert("title"@.len() != "text"@.len());
    assert("title"@.len() != "resolution"@.len());
    assert("title"@.len() != "src"@.len());
    assert("title"@.len() != "dst"@.len());
    assert("title"@.len() != "folded"@.len());
    assert("format"@.len() != "level"@.len());
    assert("format"@.len() != "id"@.len());
    assert("format"@.len() != "label"@.len());
    assert("format"@.len() != "fromCol"@.len());
    assert("format"@.len() != "toCol"@.len());
    assert("format"@.len() != "edge"@.len());
    assert("format"@.len() != "col"@.len());
    assert("format"@.len() != "atCol"@.len());
    assert("format"@.len() != "newId"@.len());
    assert("format"@.len() != "newLabel"@.len());
    assert("format"@.len() != "type"@.len());
    assert("format"@[0] != "detail"@[0]);
    assert("format"@.len() != "y"@.len());
    assert("format"@.len() != "links"@.len());
    assert("format"@.len() != "text"@.len());
    assert("format"@.len() != "resolution"@.len());
    assert("format"@.len() != "src"@.len());
    assert("format"@.len() != "dst"@.len());
    assert("format"@[2] != "folded"@[2]);
    assert("level"@.len() != "id"@.len());
    assert("level"@[1] != "label"@[1]);
    assert("level"@.len() != "fromCol"@.len());
    assert("level"@[0] != "toCol"@[0]);
    assert("level"@.len() != "edge"@.len());
    assert("level"@.len() != "col"@.len());
    assert("level"@[0] != "atCol"@[0]);
    assert("level"@[0] != "newId"@[0]);
    assert("level"@.len() != "newLabel"@.len());
    assert("level"@.len() != "type"@.len());
    assert("level"@.len() != "detail"@.len());
    assert("level"@.len() != "y"@.len());
    assert("level"@[1] != "links"@[1]);
    assert("level"@.len() != "text"@.len());
    assert("level"@.len() != "resolution"@.len());
    assert("level"@.len() != "src"@.len());
    assert("level"@.len() != "dst"@.len());
    assert("level"@.len() != "folded"@.len());
    assert("id"@.len() != "label"@.len());
    assert("id"@.len() != "fromCol"@.len());
    assert("id"@.len() != "toCol"@.len());
    assert("id"@.len() != "edge"@.len());
    assert("id"@.len() != "col"@.len());
    assert("id"@.len() != "atCol"@.len());
    assert("id"@.len() != "newId"@.len());
    assert("id"@.len() != "newLabel"@.len());
    assert("id"@.len() != "type"@.len());
    assert("id"@.len() != "detail"@.len());
    assert("id"@.len() != "y"@.len());
    assert("id"@.len() != "links"@.len());
    assert("id"@.len() != "text"@.len());
    assert("id"@.len() != "resolution"@.len());
    assert("id"@.len() != "src"@.len());
    assert("id"@.len() != "dst"@.len());
    assert("id"@.len() != "folded"@.len());
    assert("label"@.len() != "fromCol"@.len());
    assert("label"@[0] != "toCol"@[0]);
    assert("label"@.len() != "edge"@.len());
    assert("label"@.len() != "col"@.len());
    assert("label"@[0] != "atCol"@[0]);
    assert("label"@[0] != "newId"@[0]);
    assert("label"@.len() != "newLabel"@.len());
    assert("label"@.len() != "type"@.len());
    assert("label"@.len() != "detail"@.len());
    assert("label"@.len() != "y"@.len());
    assert("label"@[1] != "links"@[1]);
    assert("label"@.len() != "text"@.len());
    assert("label"@.len() != "resolution"@.len());
    assert("label"@.len() != "src"@.len());
    assert("label"@.len() != "dst"@.len());
    assert("label"@.len() != "folded"@.len());
    assert("fromCol"@.len() != "toCol"@.len());
    assert("fromCol"@.len() != "edge"@.len());
    assert("fromCol"@.len() != "col"@.len());
    assert("fromCol"@.len() != "atCol"@.len());
    assert("fromCol"@.len() != "newId"@.len());
    assert("fromCol"@.len() != "newLabel"@.len());
    assert("fromCol"@.len() != "type"@.len());
    assert("fromCol"@.len() != "detail"@.len());
    assert("fromCol"@.len() != "y"@.len());
    assert("fromCol"@.len() != "links"@.len());
    assert("fromCol"@.len() != "text"@.len());
    assert("fromCol"@.len() != "resolution"@.len());
    assert("fromCol"@.len() != "src"@.len());
    assert("fromCol"@.len() != "dst"@.len());
    assert("fromCol"@.len() != "folded"@.len());
    assert("toCol"@.len() != "edge"@.len());
    assert("toCol"@.len() != "col"@.len());
    assert("toCol"@[0] != "atCol"@[0]);
    assert("toCol"@[0] != "newId"@[0]);
    assert("toCol"@.len() != "newLabel"@.len());
    assert("toCol"@.len() != "type"@.len());
    assert("toCol"@.len() != "detail"@.len());
    assert("toCol"@.len() != "y"@.len());
    assert("toCol"@[0] != "links"@[0]);
    assert("toCol"@.len() != "text"@.len());
    assert("toCol"@.len() != "resolution"@.len());
    assert("toCol"@.len() != "src"@.len());
    assert("toCol"@.len() != "dst"@.len());
    assert("toCol"@.len() != "folded"@.len());
    assert("edge"@.len() != "col"@.len());
    assert("edge"@.len() != "atCol"@.len());
    assert("edge"@.len() != "newId"@.len());
    assert("edge"@.len() != "newLabel"@.len());
    assert("edge"@[0] != "type"@[0]);
    assert("edge"@.len() != "detail"@.len());
    assert("edge"@.len() != "y"@.len());
    assert("edge"@.len() != "links"@.len());
    assert("edge"@[0] != "text"@[0]);
    assert("edge"@.len() != "resolution"@.len());
    assert("edge"@.len() != "src"@.len());
    assert("edge"@.len() != "dst"@.len());
    assert("edge"@.len() != "folded"@.len());
    assert("col"@.len() != "atCol"@.len());
    assert("col"@.len() != "newId"@.len());
    assert("col"@.len() != "newLabel"@.len());
    assert("col"@.len() != "type"@.len());
    assert("col"@.len() != "detail"@.len());
    assert("col"@.len() != "y"@.len());
    assert("col"@.len() != "links"@.len());
    assert("col"@.len() != "text"@.len());
    assert("col"@.len() != "resolution"@.len());
    assert("col"@[0] != "src"@[0]);
    assert("col"@[0] != "dst"@[0]);
    assert("col"@.len() != "folded"@.len());
    assert("atCol"@[0] != "newId"@[0]);
    assert("atCol"@.len() != "newLabel"@.len());
    assert("atCol"@.len() != "type"@.len());
    assert("atCol"@.len() != "detail"@.len());
    assert("atCol"@.len() != "y"@.len());
    assert("atCol"@[0] != "links"@[0]);
    assert("atCol"@.len() != "text"@.len());
    assert("atCol"@.len() != "resolution"@.len());
    assert("atCol"@.len() != "src"@.len());
    assert("atCol"@.len() != "dst"@.len());
    assert("atCol"@.len() != "folded"@.len());
    assert("newId"@.len() != "newLabel"@.len());
    assert("newId"@.len() != "type"@.len());
    assert("newId"@.len() != "detail"@.len());
    assert("newId"@.len() != "y"@.len());
    assert("newId"@[0] != "links"@[0]);
    assert("newId"@.len() != "text"@.len());
    assert("newId"@.len() != "resolution"@.len());
    assert("newId"@.len() != "src"@.len());
    assert("newId"@.len() != "dst"@.len());
    assert("newId"@.len() != "folded"@.len());
    assert("newLabel"@.len() != "type"@.len());
    assert("newLabel"@.len() != "detail"@.len());
    assert("newLabel"@.len() != "y"@.len());
    assert("newLabel"@.len() != "links"@.len());
    assert("newLabel"@.len() != "text"@.len());
    assert("newLabel"@.len() != "resolution"@.len());
    assert("newLabel"@.len() != "src"@.len());
    assert("newLabel"@.len() != "dst"@.len());
    assert("newLabel"@.len() != "folded"@.len());
    assert("type"@.len() != "detail"@.len());
    assert("type"@.len() != "y"@.len());
    assert("type"@.len() != "links"@.len());
    assert("type"@[1] != "text"@[1]);
    assert("type"@.len() != "resolution"@.len());
    assert("type"@.len() != "src"@.len());
    assert("type"@.len() != "dst"@.len());
    assert("type"@.len() != "folded"@.len());
    assert("detail"@.len() != "y"@.len());
    assert("detail"@.len() != "links"@.len());
    assert("detail"@.len() != "text"@.len());
    assert("detail"@.len() != "resolution"@.len());
    assert("detail"@.len() != "src"@.len());
    assert("detail"@.len() != "dst"@.len());
    assert("detail"@[0] != "folded"@[0]);
    assert("y"@.len() != "links"@.len());
    assert("y"@.len() != "text"@.len());
    assert("y"@.len() != "resolution"@.len());
    assert("y"@.len() != "src"@.len());
    assert("y"@.len() != "dst"@.len());
    assert("y"@.len() != "folded"@.len());
    assert("links"@.len() != "text"@.len());
    assert("links"@.len() != "resolution"@.len());
    assert("links"@.len() != "src"@.len());
    assert("links"@.len() != "dst"@.len());
    assert("links"@.len() != "folded"@.len());
    assert("text"@.len() != "resolution"@.len());
    assert("text"@.len() != "src"@.len());
    assert("text"@.len() != "dst"@.len());
    assert("text"@.len() != "folded"@.len());
    assert("resolution"@.len() != "src"@.len());
    assert("resolution"@.len() != "dst"@.len());
    assert("resolution"@.len() != "folded"@.len());
    assert("src"@[0] != "dst"@[0]);
    assert("src"@.len() != "folded"@.len());
    assert("dst"@.len() != "folded"@.len());
}

/// The event kinds are pairwise distinct.
proof fn lemma_kinds_distinct()
    ensures
        "BoardTitled"@ != "BoardFormat"@,
        "BoardTitled"@ != "BoardLeveled"@,
        "BoardTitled"@ != "PhaseAdded"@,
        "BoardTitled"@ != "PhaseResized"@,
        "BoardTitled"@ != "PhaseRenamed"@,
        "BoardTitled"@ != "PhaseRemoved"@,
        "BoardTitled"@ != "FrontierMoved"@,
        "BoardTitled"@ != "PhaseSplit"@,
        "BoardTitled"@ != "ElementAdded"@,
        "BoardTitled"@ != "ElementRenamed"@,
        "BoardTitled"@ != "ElementMoved"@,
        "BoardTitled"@ != "ElementAnnotated"@,
        "BoardTitled"@ != "HotspotResolved"@,
        "BoardTitled"@ != "ElementRemoved"@,
        "BoardTitled"@ != "EdgeAdded"@,
        "BoardTitled"@ != "EdgeRemoved"@,
        "BoardTitled"@ != "LogCompacted"@,
        "BoardTitled"@ != "CommentAdded"@,
        "BoardTitled"@ != "Comment"@,
        "BoardFormat"@ != "BoardLeveled"@,
        "BoardFormat"@ != "PhaseAdded"@,
        "BoardFormat"@ != "PhaseResized"@,
        "BoardFormat"@ != "PhaseRenamed"@,
        "BoardFormat"@ != "PhaseRemoved"@,
        "BoardFormat"@ != "FrontierMoved"@,
        "BoardFormat"@ != "PhaseSplit"@,
        "BoardFormat"@ != "ElementAdded"@,
        "BoardFormat"@ != "ElementRenamed"@,
        "BoardFormat"@ != "ElementMoved"@,
        "BoardFormat"@ != "ElementAnnotated"@,
        "BoardFormat"@ != "HotspotResolved"@,
        "BoardFormat"@ != "ElementRemoved"@,
        "BoardFormat"@ != "EdgeAdded"@,
        "BoardFormat"@ != "EdgeRemoved"@,
        "BoardFormat"@ != "LogCompacted"@,
        "BoardFormat"@ != "CommentAdded"@,
        "BoardFormat"@ != "Comment"@,
        "BoardLeveled"@ != "PhaseAdded"@,
        "BoardLeveled"@ != "PhaseResized"@,
        "BoardLeveled"@ != "PhaseRenamed"@,
        "BoardLeveled"@ != "PhaseRemoved"@,
        "BoardLeveled"@ != "FrontierMoved"@,
        "BoardLeveled"@ != "PhaseSplit"@,
        "BoardLeveled"@ != "ElementAdded"@,
        "BoardLeveled"@ != "ElementRenamed"@,
        "BoardLeveled"@ != "ElementMoved"@,
        "BoardLeveled"@ != "ElementAnnotated"@,
        "BoardLeveled"@ != "HotspotResolved"@,
        "BoardLeveled"@ != "ElementRemoved"@,
        "BoardLeveled"@ != "EdgeAdded"@,
        "BoardLeveled"@ != "EdgeRemoved"@,
        "BoardLeveled"@ != "LogCompacted"@,
        "BoardLeveled"@ != "CommentAdded"@,
        "BoardLeveled"@ != "Comment"@,
        "PhaseAdded"@ != "PhaseResized"@,
        "PhaseAdded"@ != "PhaseRenamed"@,
        "PhaseAdded"@ != "PhaseRemoved"@,
        "PhaseAdded"@ != "FrontierMoved"@,
        "PhaseAdded"@ != "PhaseSplit"@,
        "PhaseAdded"@ != "ElementAdded"@,
        "PhaseAdded"@ != "ElementRenamed"@,
        "PhaseAdded"@ != "ElementMoved"@,
        "PhaseAdded"@ != "ElementAnnotated"@,
        "PhaseAdded"@ != "HotspotResolved"@,
        "PhaseAdded"@ != "ElementRemoved"@,
        "PhaseAdded"@ != "EdgeAdded"@,
        "PhaseAdded"@ != "EdgeRemoved"@,
        "PhaseAdded"@ != "LogCompacted"@,
        "PhaseAdded"@ != "CommentAdded"@,
        "PhaseAdded"@ != "Comment"@,
        "PhaseResized"@ != "PhaseRenamed"@,
        "PhaseResized"@ != "PhaseRemoved"@,
        "PhaseResized"@ != "FrontierMoved"@,
        "PhaseResized"@ != "PhaseSplit"@,
        "PhaseResized"@ != "ElementAdded"@,
        "PhaseResized"@ != "ElementRenamed"@,
        "PhaseResized"@ != "ElementMoved"@,
        "PhaseResized"@ != "ElementAnnotated"@,
        "PhaseResized"@ != "HotspotResolved"@,
        "PhaseResized"@ != "ElementRemoved"@,
        "PhaseResized"@ != "EdgeAdded"@,
        "PhaseResized"@ != "EdgeRemoved"@,
        "PhaseResized"@ != "LogCompacted"@,
        "PhaseResized"@ != "CommentAdded"@,
        "PhaseResized"@ != "Comment"@,
        "PhaseRenamed"@ != "PhaseRemoved"@,
        "PhaseRenamed"@ != "FrontierMoved"@,
        "PhaseRenamed"@ != "PhaseSplit"@,
        "PhaseRenamed"@ != "ElementAdded"@,
        "PhaseRenamed"@ != "ElementRenamed"@,
        "PhaseRenamed"@ != "ElementMoved"@,
        "PhaseRenamed"@ != "ElementAnnotated"@,
        "PhaseRenamed"@ != "HotspotResolved"@,
        "PhaseRenamed"@ != "ElementRemoved"@,
        "PhaseRenamed"@ != "EdgeAdded"@,
        "PhaseRenamed"@ != "EdgeRemoved"@,
        "PhaseRenamed"@ != "LogCompacted"@,
        "PhaseRenamed"@ != "CommentAdded"@,
        "PhaseRenamed"@ != "Comment"@,
        "PhaseRemoved"@ != "FrontierMoved"@,
        "PhaseRemoved"@ != "PhaseSplit"@,
        "PhaseRemoved"@ != "ElementAdded"@,
        "PhaseRemoved"@ != "ElementRenamed"@,
        "PhaseRemoved"@ != "ElementMoved"@,
        "PhaseRemoved"@ != "ElementAnnotated"@,
        "PhaseRemoved"@ != "HotspotResolved"@,
        "PhaseRemoved"@ != "ElementRemoved"@,
        "PhaseRemoved"@ != "EdgeAdded"@,
        "PhaseRemoved"@ != "EdgeRemoved"@,
        "PhaseRemoved"@ != "LogCompacted"@,
        "PhaseRemoved"@ != "CommentAdded"@,
        "PhaseRemoved"@ != "Comment"@,
        "FrontierMoved"@ != "PhaseSplit"@,
        "FrontierMoved"@ != "ElementAdded"@,
        "FrontierMoved"@ != "ElementRenamed"@,
        "FrontierMoved"@ != "ElementMoved"@,
        "FrontierMoved"@ != "ElementAnnotated"@,
        "FrontierMoved"@ != "HotspotResolved"@,
        "FrontierMoved"@ != "ElementRemoved"@,
        "FrontierMoved"@ != "EdgeAdded"@,
        "FrontierMoved"@ != "EdgeRemoved"@,
        "FrontierMoved"@ != "LogCompacted"@,
        "FrontierMoved"@ != "CommentAdded"@,
        "FrontierMoved"@ != "Comment"@,
        "PhaseSplit"@ != "ElementAdded"@,
        "PhaseSplit"@ != "ElementRenamed"@,
        "PhaseSplit"@ != "ElementMoved"@,
        "PhaseSplit"@ != "ElementAnnotated"@,
        "PhaseSplit"@ != "HotspotResolved"@,
        "PhaseSplit"@ != "ElementRemoved"@,
        "PhaseSplit"@ != "EdgeAdded"@,
        "PhaseSplit"@ != "EdgeRemoved"@,
        "PhaseSplit"@ != "LogCompacted"@,
        "PhaseSplit"@ != "CommentAdded"@,
        "PhaseSplit"@ != "Comment"@,
        "ElementAdded"@ != "ElementRenamed"@,
        "ElementAdded"@ != "ElementMoved"@,
        "ElementAdded"@ != "ElementAnnotated"@,
        "ElementAdded"@ != "HotspotResolved"@,
        "ElementAdded"@ != "ElementRemoved"@,
        "ElementAdded"@ != "EdgeAdded"@,
        "ElementAdded"@ != "EdgeRemoved"@,
        "ElementAdded"@ != "LogCompacted"@,
        "ElementAdded"@ != "CommentAdded"@,
        "ElementAdded"@ != "Comment"@,
        "ElementRenamed"@ != "ElementMoved"@,
        "ElementRenamed"@ != "ElementAnnotated"@,
        "ElementRenamed"@ != "HotspotResolved"@,
        "ElementRenamed"@ != "ElementRemoved"@,
        "ElementRenamed"@ != "EdgeAdded"@,
        "ElementRenamed"@ != "EdgeRemoved"@,
        "ElementRenamed"@ != "LogCompacted"@,
        "ElementRenamed"@ != "CommentAdded"@,
        "ElementRenamed"@ != "Comment"@,
        "ElementMoved"@ != "ElementAnnotated"@,
        "ElementMoved"@ != "HotspotResolved"@,
        "ElementMoved"@ != "ElementRemoved"@,
        "ElementMoved"@ != "EdgeAdded"@,
        "ElementMoved"@ != "EdgeRemoved"@,
        "ElementMoved"@ != "LogCompacted"@,
        "ElementMoved"@ != "CommentAdded"@,
        "ElementMoved"@ != "Comment"@,
        "ElementAnnotated"@ != "HotspotResolved"@,
        "ElementAnnotated"@ != "ElementRemoved"@,
        "ElementAnnotated"@ != "EdgeAdded"@,
        "ElementAnnotated"@ != "EdgeRemoved"@,
        "ElementAnnotated"@ != "LogCompacted"@,
        "ElementAnnotated"@ != "CommentAdded"@,
        "ElementAnnotated"@ != "Comment"@,
        "HotspotResolved"@ != "ElementRemoved"@,
        "HotspotResolved"@ != "EdgeAdded"@,
        "HotspotResolved"@ != "EdgeRemoved"@,
        "HotspotResolved"@ != "LogCompacted"@,
        "HotspotResolved"@ != "CommentAdded"@,
        "HotspotResolved"@ != "Comment"@,
        "ElementRemoved"@ != "EdgeAdded"@,
        "ElementRemoved"@ != "EdgeRemoved"@,
        "ElementRemoved"@ != "LogCompacted"@,
        "ElementRemoved"@ != "CommentAdded"@,
        "ElementRemoved"@ != "Comment"@,
        "EdgeAdded"@ != "EdgeRemoved"@,
        "EdgeAdded"@ != "LogCompacted"@,
        "EdgeAdded"@ != "CommentAdded"@,
        "EdgeAdded"@ != "Comment"@,
        "EdgeRemoved"@ != "LogCompacted"@,
        "EdgeRemoved"@ != "CommentAdded"@,
        "EdgeRemoved"@ != "Comment"@,
        "LogCompacted"@ != "CommentAdded"@,
        "LogCompacted"@ != "Comment"@,
        "CommentAdded"@ != "Comment"@,
{
    reveal_strlit("BoardTitled");
    reveal_strlit("BoardFormat");
    reveal_strlit("BoardLeveled");
    reveal_strlit("PhaseAdded");
    reveal_strlit("PhaseResized");
    reveal_strlit("PhaseRenamed");
    reveal_strlit("PhaseRemoved");
    reveal_strlit("FrontierMoved");
    reveal_strlit("PhaseSplit");
    reveal_strlit("ElementAdded");
    reveal_strlit("ElementRenamed");
    reveal_strlit("ElementMoved");
    reveal_strlit("ElementAnnotated");
    reveal_strlit("HotspotResolved");
    reveal_strlit("ElementRemoved");
    reveal_strlit("EdgeAdded");
    reveal_strlit("EdgeRemoved");
    reveal_strlit("LogCompacted");
    reveal_strlit("CommentAdded");
    reveal_strlit("Comment");
    assert("BoardTitled"@[5] != "BoardFormat"@[5]);
    assert("BoardTitled"@.len() != "BoardLeveled"@.len());
    assert("BoardTitled"@.len() != "PhaseAdded"@.len());
    assert("BoardTitled"@.len() != "PhaseResized"@.len());
    assert("BoardTitled"@.len() != "PhaseRenamed"@.len());
    assert("BoardTitled"@.len() != "PhaseRemoved"@.len());
    assert("BoardTitled"@.len() != "FrontierMoved"@.len());
    assert("BoardTitled"@.len() != "PhaseSplit"@.len());
    assert("BoardTitled"@.len() != "ElementAdded"@.len());
    assert("BoardTitled"@.len() != "ElementRenamed"@.len());
    assert("BoardTitled"@.len() != "ElementMoved"@.len());
    assert("BoardTitled"@.len() != "ElementAnnotated"@.len());
    assert("BoardTitled"@.len() != "HotspotResolved"@.len());
    assert("BoardTitled"@.len() != "ElementRemoved"@.len());
    assert("BoardTitled"@.len() != "EdgeAdded"@.len());
    assert("BoardTitled"@[0] != "EdgeRemoved"@[0]);
    assert("BoardTitled"@.len() != "LogCompacted"@.len());
    assert("BoardTitled"@.len() != "CommentAdded"@.len());
    assert("BoardTitled"@.len() != "Comment"@.len());
    assert("BoardFormat"@.len() != "BoardLeveled"@.len());
    assert("BoardFormat"@.len() != "PhaseAdded"@.len());
    assert("BoardFormat"@.len() != "PhaseResized"@.len());
    assert("BoardFormat"@.len() != "PhaseRenamed"@.len());
    assert("BoardFormat"@.len() != "PhaseRemoved"@.len());
    assert("BoardFormat"@.len() != "FrontierMoved"@.len());
    assert("BoardFormat"@.len() != "PhaseSplit"@.len());
    assert("BoardFormat"@.len() != "ElementAdded"@.len());
    assert("BoardFormat"@.len() != "ElementRenamed"@.len());
    assert("BoardFormat"@.len() != "ElementMoved"@.len());
    assert("BoardFormat"@.len() != "ElementAnnotated"@.len());
    assert("BoardFormat"@.len() != "HotspotResolved"@.len());
    assert("BoardFormat"@.len() != "ElementRemoved"@.len());
    assert("BoardFormat"@.len() != "EdgeAdded"@.len());
    assert("BoardFormat"@[0] != "EdgeRemoved"@[0]);
    assert("BoardFormat"@.len() != "LogCompacted"@.len());
    assert("BoardFormat"@.len() != "CommentAdded"@.len());
    assert("BoardFormat"@.len() != "Comment"@.len());
    assert("BoardLeveled"@.len() != "PhaseAdded"@.len());
    assert("BoardLeveled"@[0] != "PhaseResized"@[0]);
    assert("BoardLeveled"@[0] != "PhaseRenamed"@[0]);
    assert("BoardLeveled"@[0] != "PhaseRemoved"@[0]);
    assert("BoardLeveled"@.len() != "FrontierMoved"@.len());
    assert("BoardLeveled"@.len() != "PhaseSplit"@.len());
    assert("BoardLeveled"@[0] != "ElementAdded"@[0]);
    assert("BoardLeveled"@.len() != "ElementRenamed"@.len());
    assert("BoardLeveled"@[0] != "ElementMoved"@[0]);
    assert("BoardLeveled"@.len() != "ElementAnnotated"@.len());
    assert("BoardLeveled"@.len() != "HotspotResolved"@.len());
    assert("BoardLeveled"@.len() != "ElementRemoved"@.len());
    assert("BoardLeveled"@.len() != "EdgeAdded"@.len());
    assert("BoardLeveled"@.len() != "EdgeRemoved"@.len());
    assert("BoardLeveled"@[0] != "LogCompacted"@[0]);
    assert("BoardLeveled"@[0] != "CommentAdded"@[0]);
    assert("BoardLeveled"@.len() != "Comment"@.len());
    assert("PhaseAdded"@.len() != "PhaseResized"@.len());
    assert("PhaseAdded"@.len() != "PhaseRenamed"@.len());
    assert("PhaseAdded"@.len() != "PhaseRemoved"@.len());
    assert("PhaseAdded"@.len() != "FrontierMoved"@.len());
    assert("PhaseAdded"@[5] != "PhaseSplit"@[5]);
    assert("PhaseAdded"@.len() != "ElementAdded"@.len());
    assert("PhaseAdded"@.len() != "ElementRenamed"@.len());
    assert("PhaseAdded"@.len() != "ElementMoved"@.len());
    assert("PhaseAdded"@.len() != "ElementAnnotated"@.len());
    assert("PhaseAdded"@.len() != "HotspotResolved"@.len());
    assert("PhaseAdded"@.len() != "ElementRemoved"@.len());
    assert("PhaseAdded"@.len() != "EdgeAdded"@.len());
    assert("PhaseAdded"@.len() != "EdgeRemoved"@.len());
    assert("PhaseAdded"@.len() != "LogCompacted"@.len());
    assert("PhaseAdded"@.len() != "CommentAdded"@.len());
    assert("PhaseAdded"@.len() != "Comment"@.len());
    assert("PhaseResized"@[7] != "PhaseRenamed"@[7]);
    assert("PhaseResized"@[7] != "PhaseRemoved"@[7]);
    assert("PhaseResized"@.len() != "FrontierMoved"@.len());
    assert("PhaseResized"@.len() != "PhaseSplit"@.len());
    assert("PhaseResized"@[0] != "ElementAdded"@[0]);
    assert("PhaseResized"@.len() != "ElementRenamed"@.len());
    assert("PhaseResized"@[0] != "ElementMoved"@[0]);
    assert("PhaseResized"@.len() != "ElementAnnotated"@.len());
    assert("PhaseResized"@.len() != "HotspotResolved"@.len());
    assert("PhaseResized"@.len() != "ElementRemoved"@.len());
    assert("PhaseResized"@.len() != "EdgeAdded"@.len());
    assert("PhaseResized"@.len() != "EdgeRemoved"@.len());
    assert("PhaseResized"@[0] != "LogCompacted"@[0]);
    assert("PhaseResized"@[0] != "CommentAdded"@[0]);
    assert("PhaseResized"@.len() != "Comment"@.len());
    assert("PhaseRenamed"@[7] != "PhaseRemoved"@[7]);
    assert("PhaseRenamed"@.len() != "FrontierMoved"@.len());
    assert("PhaseRenamed"@.len() != "PhaseSplit"@.len());
    assert("PhaseRenamed"@[0] != "ElementAdded"@[0]);
    assert("PhaseRenamed"@.len() != "ElementRenamed"@.len());
    assert("PhaseRenamed"@[0] != "ElementMoved"@[0]);
    assert("PhaseRenamed"@.len() != "ElementAnnotated"@.len());
    assert("PhaseRenamed"@.len() != "HotspotResolved"@.len());
    assert("PhaseRenamed"@.len() != "ElementRemoved"@.len());
    assert("PhaseRenamed"@.len() != "EdgeAdded"@.len());
    assert("PhaseRenamed"@.len() != "EdgeRemoved"@.len());
    assert("PhaseRenamed"@[0] != "LogCompacted"@[0]);
    assert("PhaseRenamed"@[0] != "CommentAdded"@[0]);
    assert("PhaseRenamed"@.len() != "Comment"@.len());
    assert("PhaseRemoved"@.len() != "FrontierMoved"@.len());
    assert("PhaseRemoved"@.len() != "PhaseSplit"@.len());
    assert("PhaseRemoved"@[0] != "ElementAdded"@[0]);
    assert("PhaseRemoved"@.len() != "ElementRenamed"@.len());
    assert("PhaseRemoved"@[0] != "ElementMoved"@[0]);
    assert("PhaseRemoved"@.len() != "ElementAnnotated"@.len());
    assert("PhaseRemoved"@.len() != "HotspotResolved"@.len());
    assert("PhaseRemoved"@.len() != "ElementRemoved"@.len());
    assert("PhaseRemoved"@.len() != "EdgeAdded"@.len());
    assert("PhaseRemoved"@.len() != "EdgeRemoved"@.len());
    assert("PhaseRemoved"@[0] != "LogCompacted"@[0]);
    assert("PhaseRemoved"@[0] != "CommentAdded"@[0]);
    assert("PhaseRemoved"@.len() != "Comment"@.len());
    assert("FrontierMoved"@.len() != "PhaseSplit"@.len());
    assert("FrontierMoved"@.len() != "ElementAdded"@.len());
    assert("FrontierMoved"@.len() != "ElementRenamed"@.len());
    assert("FrontierMoved"@.len() != "ElementMoved"@.len());
    assert("FrontierMoved"@.len() != "ElementAnnotated"@.len());
    assert("FrontierMoved"@.len() != "HotspotResolved"@.len());
    assert("FrontierMoved"@.len() != "ElementRemoved"@.len());
    assert("FrontierMoved"@.len() != "EdgeAdded"@.len());
    assert("FrontierMoved"@.len() != "EdgeRemoved"@.len());
    assert("FrontierMoved"@.len() != "LogCompacted"@.len());
    assert("FrontierMoved"@.len() != "CommentAdded"@.len());
    assert("FrontierMoved"@.len() != "Comment"@.len());
    assert("PhaseSplit"@.len() != "ElementAdded"@.len());
    assert("PhaseSplit"@.len() != "ElementRenamed"@.len());
    assert("PhaseSplit"@.len() != "ElementMoved"@.len());
    assert("PhaseSplit"@.len() != "ElementAnnotated"@.len());
    assert("PhaseSplit"@.len() != "HotspotResolved"@.len());
    assert("PhaseSplit"@.len() != "ElementRemoved"@.len());
    assert("PhaseSplit"@.len() != "EdgeAdded"@.len());
    assert("PhaseSplit"@.len() != "EdgeRemoved"@.len());
    assert("PhaseSplit"@.len() != "LogCompacted"@.len());
    assert("PhaseSplit"@.len() != "CommentAdded"@.len());
    assert("PhaseSplit"@.len() != "Comment"@.len());
    assert("ElementAdded"@.len() != "ElementRenamed"@.len());
    assert("ElementAdded"@[7] != "ElementMoved"@[7]);
    assert("ElementAdded"@.len() != "ElementAnnotated"@.len());
    assert("ElementAdded"@.len() != "HotspotResolved"@.len());
    assert("ElementAdded"@.len() != "ElementRemoved"@.len());
    assert("ElementAdded"@.len() != "EdgeAdded"@.len());
    assert("ElementAdded"@.len() != "EdgeRemoved"@.len());
    assert("ElementAdded"@[0] != "LogCompacted"@[0]);
    assert("ElementAdded"@[0] != "CommentAdded"@[0]);
    assert("ElementAdded"@.len() != "Comment"@.len());
    assert("ElementRenamed"@.len() != "ElementMoved"@.len());
    assert("ElementRenamed"@.len() != "ElementAnnotated"@.len());
    assert("ElementRenamed"@.len() != "HotspotResolved"@.len());
    assert("ElementRenamed"@[9] != "ElementRemoved"@[9]);
    assert("ElementRenamed"@.len() != "EdgeAdded"@.len());
    assert("ElementRenamed"@.len() != "EdgeRemoved"@.len());
    assert("ElementRenamed"@.len() != "LogCompacted"@.len());
    assert("ElementRenamed"@.len() != "CommentAdded"@.len());
    assert("ElementRenamed"@.len() != "Comment"@.len());
    assert("ElementMoved"@.len() != "ElementAnnotated"@.len());
    assert("ElementMoved"@.len() != "HotspotResolved"@.len());
    assert("ElementMoved"@.len() != "ElementRemoved"@.len());
    assert("ElementMoved"@.len() != "EdgeAdded"@.len());
    assert("ElementMoved"@.len() != "EdgeRemoved"@.len());
    assert("ElementMoved"@[0] != "LogCompacted"@[0]);
    assert("ElementMoved"@[0] != "CommentAdded"@[0]);
    assert("ElementMoved"@.len() != "Comment"@.len());
    assert("ElementAnnotated"@.len() != "HotspotResolved"@.len());
    assert("ElementAnnotated"@.len() != "ElementRemoved"@.len());
    assert("ElementAnnotated"@.len() != "EdgeAdded"@.len());
    assert("ElementAnnotated"@.len() != "EdgeRemoved"@.len());
    assert("ElementAnnotated"@.len() != "LogCompacted"@.len());
    assert("ElementAnnotated"@.len() != "CommentAdded"@.len());
    assert("ElementAnnotated"@.len() != "Comment"@.len());
    assert("HotspotResolved"@.len() != "ElementRemoved"@.len());
    assert("HotspotResolved"@.len() != "EdgeAdded"@.len());
    assert("HotspotResolved"@.len() != "EdgeRemoved"@.len());
    assert("HotspotResolved"@.len() != "LogCompacted"@.len());
    assert("HotspotResolved"@.len() != "CommentAdded"@.len());
    assert("HotspotResolved"@.len() != "Comment"@.len());
    assert("ElementRemoved"@.len() != "EdgeAdded"@.len());
    assert("ElementRemoved"@.len() != "EdgeRemoved"@.len());
    assert("ElementRemoved"@.len() != "LogCompacted"@.len());
    assert("ElementRemoved"@.len() != "CommentAdded"@.len());
    assert("ElementRemoved"@.len() != "Comment"@.len());
    assert("EdgeAdded"@.len() != "EdgeRemoved"@.len());
    assert("EdgeAdded"@.len() != "LogCompacted"@.len());
    assert("EdgeAdded"@.len() != "CommentAdded"@.len());
    assert("EdgeAdded"@.len() != "Comment"@.len());
    assert("EdgeRemoved"@.len() != "LogCompacted"@.len());
    assert("EdgeRemoved"@.len() != "CommentAdded"@.len());
    assert("EdgeRemoved"@.len() != "Comment"@.len());
    assert("LogCompacted"@[0] != "CommentAdded"@[0]);
    assert("LogCompacted"@.len() != "Comment"@.len());
    assert("CommentAdded"@.len() != "Comment"@.len());
}

proof fn lemma_member_at(o: Seq<(Seq<char>, JsonV)>, key: Seq<char>, i: int)
    requires
        0 <= i < o.len(),
        o[i].0 == key,
        forall|k: int| 0 <= k < i ==> #[trigger] o[k].0 != key,
    ensures
        crate::json::member(o, key) == Some(o[i].1),
    decreases i,
{
    if i > 0 {
        assert(o[0].0 != key);
        lemma_member_at(o.drop_first(), key, i - 1);
    }
}

proof fn lemma_member_absent(o: Seq<(Seq<char>, JsonV)>, key: Seq<char>)
    requires
        forall|k: int| 0 <= k < o.len() ==> #[trigger] o[k].0 != key,
    ensures
        crate::json::member(o, key) is None,
    decreases o.len(),
{
    if o.len() > 0 {
        assert(o[0].0 != key);
        lemma_member_absent(o.drop_first(), key);
    }
}

proof fn lemma_str_entries(l: Seq<Seq<char>>)
    ensures
        crate::model::str_entries(l.map_values(|x: Seq<char>| JsonV::Str(x))) == l,
    decreases l.len(),
{
    if l.len() > 0 {
        let a = l.map_values(|x: Seq<char>| JsonV::Str(x));
        assert(a.drop_last() =~= l.drop_last().map_values(|x: Seq<char>| JsonV::Str(x)));
        lemma_str_entries(l.drop_last());
        assert(l.drop_last().push(l.last()) =~= l);
    }
}


/// Whether a kind is one of the legacy aliases that reading migrates forward.
pub open spec fn legacy_kind(k: Seq<char>) -> bool {
    k == "CommentAdded"@ || k == "Comment"@
}

/// Every event is written as an object whose first member is `"event"`, naming a kind this build
/// knows and never a legacy alias; an absent optional field is left out, never written as `null`.
pub proof fn written_kind_comes_first(ev: EventV)
    ensures
        ({
            let o = event_members(ev);
            &&& o.len() > 0
            &&& o[0].0 == "event"@
            &&& o[0].1 matches JsonV::Str(k) && known_kinds().contains(k) && !legacy_kind(k)
            &&& forall|i: int| 0 <= i < o.len() ==> !(#[trigger] o[i].1 is Null)
        }),
{
    lemma_kinds_distinct();
    let k = known_kinds();
    let o = event_members(ev);
    match ev {
        EventV::BoardTitled { .. } => { assert(k[0] == "BoardTitled"@); },
        EventV::BoardFormat { .. } => { assert(k[1] == "BoardFormat"@); },
        EventV::BoardLeveled { .. } => { assert(k[2] == "BoardLeveled"@); },
        EventV::PhaseAdded { .. } => { assert(k[3] == "PhaseAdded"@); },
        EventV::PhaseResized { .. } => { assert(k[4] == "PhaseResized"@); },
        EventV::PhaseRenamed { .. } => { assert(k[5] == "PhaseRenamed"@); },
        EventV::PhaseRemoved { .. } => { assert(k[6] == "PhaseRemoved"@); },
        EventV::FrontierMoved { .. } => { assert(k[7] == "FrontierMoved"@); },
        EventV::PhaseSplit { .. } => { assert(k[8] == "PhaseSplit"@); },
        EventV::ElementAdded { .. } => { assert(k[9] == "ElementAdded"@); },
        EventV::ElementRenamed { .. } => { assert(k[10] == "ElementRenamed"@); },
        EventV::ElementMoved { .. } => { assert(k[11] == "ElementMoved"@); },
        EventV::ElementAnnotated { .. } => { assert(k[12] == "ElementAnnotated"@); },
        EventV::HotspotResolved { .. } => { assert(k[13] == "HotspotResolved"@); },
        EventV::ElementRemoved { .. } => { assert(k[14] == "ElementRemoved"@); },
        EventV::EdgeAdded { .. } => { assert(k[15] == "EdgeAdded"@); },
        EventV::EdgeRemoved { .. } => { assert(k[16] == "EdgeRemoved"@); },
        EventV::LogCompacted { .. } => { assert(k[17] == "LogCompacted"@); },
    }
}

/// The canonical object of an event reads back as that event: writing then reading loses
/// nothing, for every variant and every field value; and the object names no lane this build
/// cannot read.
#[verifier::rlimit(100)]
pub proof fn parse_event_round_trip(ev: EventV)
    ensures
        parse_event_spec(to_json_spec(ev)) == Ok::<EventV, Rejected>(ev),
        !names_unknown_lane(to_json_spec(ev)),
{
    lemma_member_keys_distinct();
    lemma_kinds_distinct();
    let o = event_members(ev);
    let j = to_json_spec(ev);
    let k = known_kinds();
    lemma_member_at(o, "event"@, 0);
    match ev {
        EventV::BoardTitled { title } => {
            assert(k[0] == "BoardTitled"@);
            lemma_member_at(o, "title"@, 1);
            lemma_member_absent(o, "type"@);
        },
        EventV::BoardFormat { format } => {
            assert(k[1] == "BoardFormat"@);
            lemma_member_at(o, "format"@, 1);
            lemma_member_absent(o, "type"@);
        },
        EventV::BoardLeveled { level } => {
            assert(k[2] == "BoardLeveled"@);
            lemma_member_at(o, "level"@, 1);
            lemma_member_absent(o, "type"@);
        },
        EventV::PhaseAdded { id, label, from_col, to_col } => {
            assert(k[3] == "PhaseAdded"@);
            lemma_member_absent(o, "type"@);
            let d: int = if id is Some { 1 } else { 0 };
            if id is Some {
                lemma_member_at(o, "id"@, 1);
            } else {
                lemma_member_absent(o, "id"@);
            }
            lemma_member_at(o, "label"@, 1 + d);
            lemma_member_at(o, "fromCol"@, 2 + d);
            lemma_member_at(o, "toCol"@, 3 + d);
            crate::number::lemma_int_round_trip(from_col);
            crate::number::lemma_int_round_trip(to_col);
        },
        EventV::PhaseResized { id, from_col, to_col } => {
            assert(k[4] == "PhaseResized"@);
            lemma_member_absent(o, "type"@);
            lemma_member_at(o, "id"@, 1);
            lemma_member_at(o, "fromCol"@, 2);
            lemma_member_at(o, "toCol"@, 3);
            crate::number::lemma_int_round_trip(from_col);
            crate::number::lemma_int_round_trip(to_col);
        },
        EventV::PhaseRenamed { id, label } => {
            assert(k[5] == "PhaseRenamed"@);
            lemma_member_absent(o, "type"@);
            lemma_member_at(o, "id"@, 1);
            lemma_member_at(o, "label"@, 2);
        },
        EventV::PhaseRemoved { id } => {
            assert(k[6] == "PhaseRemoved"@);
            lemma_member_absent(o, "type"@);
            lemma_member_at(o, "id"@, 1);
        },
        EventV::FrontierMoved { id, edge, col } => {
            assert(k[7] == "FrontierMoved"@);
            lemma_member_absent(o, "type"@);
            lemma_member_at(o, "id"@, 1);
            lemma_member_at(o, "edge"@, 2);
            lemma_member_at(o, "col"@, 3);
            crate::number::lemma_int_round_trip(col);
        },
        EventV::PhaseSplit { id, at_col, new_id, new_label } => {
            assert(k[8] == "PhaseSplit"@);
            lemma_member_absent(o, "type"@);
            lemma_member_at(o, "id"@, 1);
            lemma_member_at(o, "atCol"@, 2);
            lemma_member_at(o, "newId"@, 3);
            lemma_member_at(o, "newLabel"@, 4);
            crate::number::lemma_int_round_trip(at_col);
        },
        EventV::ElementAdded { id, kind, label, col, detail, y, links } => {
            assert(k[9] == "ElementAdded"@);
            crate::model::lane_round_trip(kind);
            lemma_member_at(o, "id"@, 1);
            lemma_member_at(o, "type"@, 2);
            lemma_member_at(o, "label"@, 3);
            let c: int = if col is Some { 1 } else { 0 };
            let dd: int = if detail is Some { 1 } else { 0 };
            let yy: int = if y is Some { 1 } else { 0 };
            if let Some(cv) = col {
                lemma_member_at(o, "col"@, 4);
                crate::number::lemma_int_round_trip(cv);
            } else {
                lemma_member_absent(o, "col"@);
            }
            if detail is Some {
                lemma_member_at(o, "detail"@, 4 + c);
            } else {
                lemma_member_absent(o, "detail"@);
            }
            if y is Some {
                lemma_member_at(o, "y"@, 4 + c + dd);
            } else {
                lemma_member_absent(o, "y"@);
            }
            if links.len() > 0 {
                lemma_member_at(o, "links"@, 4 + c + dd + yy);
                lemma_str_entries(links);
            } else {
                lemma_member_absent(o, "links"@);
                assert(crate::model::links_spec(None) =~= links);
            }
        },
        EventV::ElementRenamed { id, label } => {
            assert(k[10] == "ElementRenamed"@);
            lemma_member_absent(o, "type"@);
            lemma_member_at(o, "id"@, 1);
            lemma_member_at(o, "label"@, 2);
        },
        EventV::ElementMoved { id, col, kind, y } => {
            assert(k[11] == "ElementMoved"@);
            lemma_member_at(o, "id"@, 1);
            let c: int = if col is Some { 1 } else { 0 };
            let t: int = if kind is Some { 1 } else { 0 };
            if let Some(cv) = col {
                lemma_member_at(o, "col"@, 2);
                crate::number::lemma_int_round_trip(cv);
            } else {
                lemma_member_absent(o, "col"@);
            }
            if let Some(l) = kind {
                lemma_member_at(o, "type"@, 2 + c);
                crate::model::lane_round_trip(l);
            } else {
                lemma_member_absent(o, "type"@);
            }
            if y is Some {
                lemma_member_at(o, "y"@, 2 + c + t);
            } else {
                lemma_member_absent(o, "y"@);
            }
        },
        EventV::ElementAnnotated { id, text } => {
            assert(k[12] == "ElementAnnotated"@);
            lemma_member_absent(o, "type"@);
            lemma_member_at(o, "id"@, 1);
            lemma_member_at(o, "text"@, 2);
        },
        EventV::HotspotResolved { id, resolution } => {
            assert(k[13] == "HotspotResolved"@);
            lemma_member_absent(o, "type"@);
            lemma_member_at(o, "id"@, 1);
            lemma_member_at(o, "resolution"@, 2);
        },
        EventV::ElementRemoved { id } => {
            assert(k[14] == "ElementRemoved"@);
            lemma_member_absent(o, "type"@);
            lemma_member_at(o, "id"@, 1);
        },
        EventV::EdgeAdded { src, dst, label } => {
            assert(k[15] == "EdgeAdded"@);
            lemma_member_absent(o, "type"@);
            lemma_member_at(o, "src"@, 1);
            lemma_member_at(o, "dst"@, 2);
            if label is Some {
                lemma_member_at(o, "label"@, 3);
            } else {
                lemma_member_absent(o, "label"@);
            }
        },
        EventV::EdgeRemoved { src, dst } => {
            assert(k[16] == "EdgeRemoved"@);
            lemma_member_absent(o, "type"@);
            lemma_member_at(o, "src"@, 1);
            lemma_member_at(o, "dst"@, 2);
        },
        EventV::LogCompacted { folded } => {
            assert(k[17] == "LogCompacted"@);
            lemma_member_absent(o, "type"@);
            lemma_member_at(o, "folded"@, 1);
            crate::number::lemma_int_round_trip(folded);
        },
    }
}


proof fn lemma_member_renamed(o: Seq<(Seq<char>, JsonV)>, to: Seq<char>, key: Seq<char>)
    ensures
        crate::json::member(rename_kind(o, to), key) == if key == "event"@ {
            if crate::json::member(o, key) is Some {
                Some(JsonV::Str(to))
            } else {
                None
            }
        } else {
            crate::json::member(o, key)
        },
    decreases o.len(),
{
    let r = rename_kind(o, to);
    if o.len() > 0 {
        assert(r.drop_first() =~= rename_kind(o.drop_first(), to));
        lemma_member_renamed(o.drop_first(), to, key);
        assert(r[0].0 == o[0].0);
    }
}

/// A record of a legacy note kind (`CommentAdded` or `Comment`) reads as the annotation it
/// records: the `ElementAnnotated` of its `id` and `text`.
pub proof fn a_legacy_note_reads_as_an_annotation(pairs: Seq<(Seq<char>, JsonV)>, id: Seq<char>, text: Seq<char>)
    requires
        field_str(JsonV::Obj(pairs), "event"@) == Some("CommentAdded"@) || field_str(
            JsonV::Obj(pairs),
            "event"@,
        ) == Some("Comment"@),
        field_str(JsonV::Obj(pairs), "id"@) == Some(id),
        field_str(JsonV::Obj(pairs), "text"@) == Some(text),
    ensures
        parse_event_spec(JsonV::Obj(pairs)) == Ok::<EventV, Rejected>(EventV::ElementAnnotated { id, text }),
{
    lemma_kinds_distinct();
    lemma_member_keys_distinct();
    lemma_member_renamed(pairs, "ElementAnnotated"@, "event"@);
    lemma_member_renamed(pairs, "ElementAnnotated"@, "id"@);
    lemma_member_renamed(pairs, "ElementAnnotated"@, "text"@);
    assert(known_kinds()[12] == "ElementAnnotated"@);
}


/// A move record reads as the move it records: its sticky, column and sub-position as written,
/// and its lane when `type` names one; a `type` that names no lane keeps the rest of the move,
/// with no lane change.
pub proof fn a_move_record_reads_as_its_move(j: JsonV, id: Seq<char>)
    requires
        j is Obj,
        field_str(j, "event"@) == Some("ElementMoved"@),
        field_str(j, "id"@) == Some(id),
    ensures
        parse_event_spec(j) == Ok::<EventV, Rejected>(
            EventV::ElementMoved {
                id,
                col: field_int(j, "col"@),
                kind: if field_str(j, "type"@) is Some { lane_of(field_str(j, "type"@)->0) } else { None },
                y: field_num(j, "y"@),
            },
        ),
{
    lemma_kinds_distinct();
    assert(known_kinds()[11] == "ElementMoved"@);
}

/// An add record reads as the sticky it records when its `type` names a lane, and is refused as
/// naming an unknown lane when its `type` is a string that names none.
pub proof fn an_add_record_reads_as_its_sticky(j: JsonV, id: Seq<char>, t: Seq<char>, label: Seq<char>)
    requires
        j is Obj,
        field_str(j, "event"@) == Some("ElementAdded"@),
        field_str(j, "id"@) == Some(id),
        field_str(j, "type"@) == Some(t),
        field_str(j, "label"@) == Some(label),
    ensures
        lane_of(t) matches Some(l) ==> parse_event_spec(j) == Ok::<EventV, Rejected>(
            EventV::ElementAdded {
                id,
                kind: l,
                label,
                col: field_int(j, "col"@),
                detail: field_str(j, "detail"@),
                y: field_num(j, "y"@),
                links: links_spec(jget(j, "links"@)),
            },
        ),
        lane_of(t) is None ==> parse_event_spec(j) == Err::<EventV, Rejected>(Rejected::UnknownLane),
{
    lemma_kinds_distinct();
    assert(known_kinds()[9] == "ElementAdded"@);
}

} // verus!
