//! Derive events from an existing board ([`from_model`], the genesis and migration path) and fold
//! a log down to a shorter equivalent snapshot ([`compact`]).

use crate::event::{events_view, Event, EventV};
use crate::model::{
    clone_opt, clone_strings, edges_view, elements_view, level_wire, opt_view, phases_view,
    strings_view, empty_model, EdgeV, ElementV, Format, Level, Model, ModelV, PhaseV,
};
use crate::model::normalize_spec;
use crate::replay::{
    board_wf, find_edge, find_element, find_phase, fold_from, lemma_find_edge, lemma_find_element,
    lemma_find_phase_range, lemma_fold_append, lemma_fold_one, lemma_fold_two, note_kept, replay, replay_is_partition, event_cols_within, replay_cols_bounded,
    replay_is_wf, replay_phase_ids_unique, replay_spec, resolved_with, step, unique_edges,
    unique_element_ids, unique_phase_ids,
};
use vstd::prelude::*;

verus! {

/// The header of a genesis batch: the title when there is one, then the format and the level
/// when they differ from the default (so an ordinary board's batch has neither).
pub open spec fn header_events(m: ModelV) -> Seq<EventV> {
    let t = if m.title.len() > 0 {
        seq![EventV::BoardTitled { title: m.title }]
    } else {
        Seq::empty()
    };
    let f = if m.format != Format::EventStorming {
        seq![EventV::BoardFormat { format: crate::model::format_wire(m.format) }]
    } else {
        Seq::empty()
    };
    let l = if m.level != Level::BigPicture {
        seq![EventV::BoardLeveled { level: level_wire(m.level) }]
    } else {
        Seq::empty()
    };
    t + f + l
}

/// One `PhaseAdded` per region, its id explicit, in order.
pub open spec fn phase_events(ps: Seq<PhaseV>) -> Seq<EventV>
    decreases ps.len(),
{
    if ps.len() == 0 {
        Seq::empty()
    } else {
        let p = ps.last();
        phase_events(ps.drop_last()).push(
            EventV::PhaseAdded {
                id: Some(p.id),
                label: p.label,
                from_col: p.from_col,
                to_col: p.to_col,
            },
        )
    }
}

/// The events that recreate one sticky: its addition, and for a resolved hotspot the resolution
/// (which carries the note, so the addition carries none).
pub open spec fn added_events(e: ElementV) -> Seq<EventV> {
    let add = EventV::ElementAdded {
        id: e.id,
        kind: e.kind,
        label: e.label,
        col: e.col,
        detail: if e.resolved { None } else { e.detail },
        y: e.y,
        links: e.links,
    };
    if e.resolved {
        seq![
            add,
            EventV::HotspotResolved {
                id: e.id,
                resolution: match e.detail {
                    Some(d) => d,
                    None => Seq::empty(),
                },
            },
        ]
    } else {
        seq![add]
    }
}

/// The events that recreate every sticky, in order.
pub open spec fn element_events(es: Seq<ElementV>) -> Seq<EventV>
    decreases es.len(),
{
    if es.len() == 0 {
        Seq::empty()
    } else {
        element_events(es.drop_last()) + added_events(es.last())
    }
}

/// One `EdgeAdded` per edge, in order.
pub open spec fn edge_events(es: Seq<EdgeV>) -> Seq<EventV>
    decreases es.len(),
{
    if es.len() == 0 {
        Seq::empty()
    } else {
        let e = es.last();
        edge_events(es.drop_last()).push(EventV::EdgeAdded { src: e.src, dst: e.dst, label: e.label })
    }
}

/// The genesis batch of a board.
pub open spec fn from_model_spec(m: ModelV) -> Seq<EventV> {
    header_events(m) + phase_events(m.phases) + element_events(m.elements) + edge_events(m.edges)
}

/// A compacted log: the provenance marker, then the genesis batch of the log's board.
pub open spec fn compact_spec(evs: Seq<EventV>) -> Seq<EventV> {
    seq![EventV::LogCompacted { folded: evs.len() as i64 }] + from_model_spec(replay_spec(evs))
}

/// Turn a board into the genesis batch of events that reconstructs it: the migration and
/// bootstrap path (an old board file becomes the start of a log). A resolved hotspot is replayed
/// as an addition followed by its resolution, so its note round-trips.
pub fn from_model(m: &Model) -> (ev: Vec<Event>)
    ensures
        events_view(ev@) == from_model_spec(m@),
{
    let mut ev: Vec<Event> = Vec::new();
    if !m.title.as_str().is_empty() {
        ev.push(Event::BoardTitled { title: m.title.clone() });
    }
    if m.format != Format::EventStorming {
        ev.push(
            Event::BoardFormat { format: crate::model::format_to_str(m.format).to_string() },
        );
    }
    if m.level != Level::BigPicture {
        ev.push(Event::BoardLeveled { level: crate::model::level_to_str(m.level).to_string() });
    }
    let ghost head = events_view(ev@);
    proof {
        assert(head =~= header_events(m@));
    }
    let mut i: usize = 0;
    while i < m.phases.len()
        invariant
            i <= m.phases.len(),
            events_view(ev@) == head + phase_events(phases_view(m.phases@).take(i as int)),
        decreases m.phases.len() - i,
    {
        let p = &m.phases[i];
        let e = Event::PhaseAdded {
            id: Some(p.id.clone()),
            label: p.label.clone(),
            from_col: p.from_col,
            to_col: p.to_col,
        };
        let ghost before = events_view(ev@);
        ev.push(e);
        proof {
            let ps = phases_view(m.phases@);
            assert(ps.take(i + 1).drop_last() =~= ps.take(i as int));
            assert(ps.take(i + 1).last() == m.phases@[i as int]@);
            assert(events_view(ev@) =~= before.push(e@));
        }
        i = i + 1;
    }
    proof {
        assert(phases_view(m.phases@).take(m.phases.len() as int) =~= phases_view(m.phases@));
    }
    let ghost mid = events_view(ev@);
    let mut j: usize = 0;
    while j < m.elements.len()
        invariant
            j <= m.elements.len(),
            events_view(ev@) == mid + element_events(elements_view(m.elements@).take(j as int)),
        decreases m.elements.len() - j,
    {
        let e = &m.elements[j];
        let add = Event::ElementAdded {
            id: e.id.clone(),
            kind: e.kind,
            label: e.label.clone(),
            col: e.col,
            detail: if e.resolved {
                None
            } else {
                clone_opt(&e.detail)
            },
            y: e.y,
            links: clone_strings(&e.links),
        };
        let ghost before = events_view(ev@);
        ev.push(add);
        if e.resolved {
            let resolution = match &e.detail {
                Some(d) => d.clone(),
                None => String::new(),
            };
            ev.push(Event::HotspotResolved { id: e.id.clone(), resolution });
        }
        proof {
            let es = elements_view(m.elements@);
            assert(es.take(j + 1).drop_last() =~= es.take(j as int));
            assert(es.take(j + 1).last() == m.elements@[j as int]@);
            assert(events_view(ev@) =~= before + added_events(m.elements@[j as int]@));
        }
        j = j + 1;
    }
    proof {
        assert(elements_view(m.elements@).take(m.elements.len() as int) =~= elements_view(
            m.elements@,
        ));
    }
    let ghost tail = events_view(ev@);
    let mut k: usize = 0;
    while k < m.edges.len()
        invariant
            k <= m.edges.len(),
            events_view(ev@) == tail + edge_events(edges_view(m.edges@).take(k as int)),
        decreases m.edges.len() - k,
    {
        let d = &m.edges[k];
        let e = Event::EdgeAdded { src: d.src.clone(), dst: d.dst.clone(), label: clone_opt(&d.label) };
        let ghost before = events_view(ev@);
        ev.push(e);
        proof {
            let es = edges_view(m.edges@);
            assert(es.take(k + 1).drop_last() =~= es.take(k as int));
            assert(es.take(k + 1).last() == m.edges@[k as int]@);
            assert(events_view(ev@) =~= before.push(e@));
        }
        k = k + 1;
    }
    proof {
        assert(edges_view(m.edges@).take(m.edges.len() as int) =~= edges_view(m.edges@));
        assert(events_view(ev@) =~= from_model_spec(m@));
    }
    ev
}

/// Fold a log down to the shortest sequence that replays to the same board: a `LogCompacted`
/// provenance marker, then the genesis batch of the current projection. Only the projection
/// survives; the comment history is dropped.
pub fn compact(events: &[Event]) -> (out: Vec<Event>)
    ensures
        events_view(out@) == compact_spec(events_view(events@)),
{
    let model = replay(events);
    let mut out: Vec<Event> = Vec::new();
    out.push(Event::LogCompacted { folded: events.len() as i64 });
    let mut tail = from_model(&model);
    let ghost head = events_view(out@);
    let ghost rest = events_view(tail@);
    out.append(&mut tail);
    proof {
        assert(events_view(out@) =~= head + rest);
        assert(head =~= seq![EventV::LogCompacted { folded: events@.len() as i64 }]);
        assert(events_view(events@).len() == events@.len());
    }
    out
}


// ---- genesis replays to the board it came from ---------------------------------------------

proof fn lemma_fold_header(m: ModelV)
    ensures
        fold_from((empty_model(), 0), header_events(m)) == (
            ModelV {
                phases: Seq::empty(),
                elements: Seq::empty(),
                edges: Seq::empty(),
                format: Format::EventStorming,
                ..m
            },
            0u32,
        ),
{
    let s0 = (empty_model(), 0u32);
    let t = if m.title.len() > 0 {
        seq![EventV::BoardTitled { title: m.title }]
    } else {
        Seq::empty()
    };
    let l = if m.level != Level::BigPicture {
        seq![EventV::BoardLeveled { level: level_wire(m.level) }]
    } else {
        Seq::empty()
    };
    assert(header_events(m) =~= t + l);
    lemma_fold_append(s0, t, l);
    let s1 = fold_from(s0, t);
    if m.title.len() > 0 {
        lemma_fold_one(s0, EventV::BoardTitled { title: m.title });
    } else {
        assert(m.title =~= Seq::<char>::empty());
    }
    assert(s1.0.title == m.title);
    if m.level != Level::BigPicture {
        lemma_fold_one(s1, EventV::BoardLeveled { level: level_wire(m.level) });
        crate::model::level_round_trip(m.level);
    }
}

proof fn lemma_fold_phases(s: (ModelV, u32), ps: Seq<PhaseV>)
    requires
        s.0.phases == Seq::<PhaseV>::empty(),
        unique_phase_ids(ps),
    ensures
        fold_from(s, phase_events(ps)).0 == (ModelV { phases: ps, ..s.0 }),
    decreases ps.len(),
{
    if ps.len() == 0 {
        assert(ps =~= Seq::<PhaseV>::empty());
    } else {
        let d = ps.drop_last();
        let p = ps.last();
        assert(unique_phase_ids(d)) by {
            assert forall|i: int, j: int| 0 <= i < j < d.len() implies #[trigger] d[i].id
                != #[trigger] d[j].id by {
                assert(d[i] == ps[i] && d[j] == ps[j]);
            }
        }
        lemma_fold_phases(s, d);
        assert(phase_events(ps).drop_last() =~= phase_events(d));
        lemma_find_phase_range(d, p.id, 0);
        if let Some(k) = find_phase(d, p.id, 0) {
            assert(d[k] == ps[k]);
            assert(ps[k].id != ps[ps.len() - 1].id);
        }
        assert(d.push(PhaseV { id: p.id, label: p.label, from_col: p.from_col, to_col: p.to_col })
            =~= ps);
    }
}

proof fn lemma_find_element_push(s: Seq<ElementV>, x: ElementV, i: int)
    requires
        0 <= i <= s.len(),
        forall|k: int| i <= k < s.len() ==> #[trigger] s[k].id != x.id,
    ensures
        find_element(s.push(x), x.id, i) == Some(s.len() as int),
    decreases s.len() - i,
{
    if i < s.len() {
        assert(s.push(x)[i] == s[i]);
        lemma_find_element_push(s, x, i + 1);
    } else {
        assert(s.push(x)[i] == x);
    }
}

proof fn lemma_fold_elements(s: (ModelV, u32), es: Seq<ElementV>)
    requires
        s.0.elements == Seq::<ElementV>::empty(),
        unique_element_ids(es),
        forall|i: int| 0 <= i < es.len() ==> note_kept(#[trigger] es[i]),
    ensures
        fold_from(s, element_events(es)).0 == (ModelV { elements: es, ..s.0 }),
    decreases es.len(),
{
    if es.len() == 0 {
        assert(es =~= Seq::<ElementV>::empty());
        assert(element_events(es) =~= Seq::<EventV>::empty());
    } else {
        let d = es.drop_last();
        let e = es.last();
        assert(unique_element_ids(d)) by {
            assert forall|i: int, j: int| 0 <= i < j < d.len() implies #[trigger] d[i].id
                != #[trigger] d[j].id by {
                assert(d[i] == es[i] && d[j] == es[j]);
            }
        }
        assert forall|i: int| 0 <= i < d.len() implies note_kept(#[trigger] d[i]) by {
            assert(d[i] == es[i]);
        }
        lemma_fold_elements(s, d);
        lemma_fold_append(s, element_events(d), added_events(e));
        let st = fold_from(s, element_events(d));
        assert forall|k: int| 0 <= k < d.len() implies #[trigger] d[k].id != e.id by {
            assert(d[k] == es[k]);
            assert(es[k].id != es[es.len() - 1].id);
        }
        lemma_find_element(d, e.id, 0);
        let x = ElementV {
            id: e.id,
            kind: e.kind,
            label: e.label,
            col: e.col,
            detail: if e.resolved { None } else { e.detail },
            y: e.y,
            resolved: false,
            links: e.links,
        };
        let add = EventV::ElementAdded {
            id: e.id,
            kind: e.kind,
            label: e.label,
            col: e.col,
            detail: if e.resolved { None } else { e.detail },
            y: e.y,
            links: e.links,
        };
        if e.resolved {
            let res = EventV::HotspotResolved {
                id: e.id,
                resolution: match e.detail {
                    Some(d) => d,
                    None => Seq::empty(),
                },
            };
            assert(added_events(e) == seq![add, res]);
            lemma_fold_two(st, add, res);
            lemma_find_element_push(d, x, 0);
            assert(note_kept(es[es.len() - 1]));
            assert(d.push(x).update(d.len() as int, resolved_with(x, res->resolution)) =~= es);
        } else {
            assert(added_events(e) == seq![add]);
            lemma_fold_one(st, add);
            assert(d.push(x) =~= es);
        }
    }
}

proof fn lemma_fold_edges(s: (ModelV, u32), es: Seq<EdgeV>)
    requires
        s.0.edges == Seq::<EdgeV>::empty(),
        unique_edges(es),
    ensures
        fold_from(s, edge_events(es)).0 == (ModelV { edges: es, ..s.0 }),
    decreases es.len(),
{
    if es.len() == 0 {
        assert(es =~= Seq::<EdgeV>::empty());
    } else {
        let d = es.drop_last();
        let e = es.last();
        assert(unique_edges(d)) by {
            assert forall|i: int, j: int| 0 <= i < j < d.len() implies !(#[trigger] d[i].src
                == #[trigger] d[j].src && d[i].dst == d[j].dst) by {
                assert(d[i] == es[i] && d[j] == es[j]);
            }
        }
        lemma_fold_edges(s, d);
        assert(edge_events(es).drop_last() =~= edge_events(d));
        lemma_find_edge(d, e.src, e.dst, 0);
        if let Some(k) = find_edge(d, e.src, e.dst, 0) {
            assert(d[k] == es[k]);
            assert(!(es[k].src == es[es.len() - 1].src && es[k].dst == es[es.len() - 1].dst));
        }
        assert(d.push(EdgeV { src: e.src, dst: e.dst, label: e.label }) =~= es);
    }
}

/// A board's genesis batch replays to that board: the migration path loses nothing. This holds of
/// every well-formed board whose regions are already a partition with unique ids (a replayed
/// board, or one read from a board file and normalized).
pub proof fn from_model_round_trip(m: ModelV)
    requires
        board_wf(m),
        unique_phase_ids(m.phases),
        normalize_spec(m.phases) == m.phases,
    ensures
        replay_spec(from_model_spec(m)) == m,
{
    let s0 = (empty_model(), 0u32);
    let h = header_events(m);
    let p = phase_events(m.phases);
    let e = element_events(m.elements);
    let d = edge_events(m.edges);
    lemma_fold_append(s0, h + p + e, d);
    lemma_fold_append(s0, h + p, e);
    lemma_fold_append(s0, h, p);
    lemma_fold_header(m);
    let s1 = fold_from(s0, h);
    lemma_fold_phases(s1, m.phases);
    let s2 = fold_from(s1, p);
    lemma_fold_elements(s2, m.elements);
    let s3 = fold_from(s2, e);
    lemma_fold_edges(s3, m.edges);
    assert(m.format == Format::EventStorming);
}

/// Compaction never changes the board: `replay(compact(log))` is `replay(log)`. This holds of every
/// log whose regions stay clear of the `i64::MAX` column, where the sweep saturates.
pub proof fn compact_round_trip(evs: Seq<EventV>)
    requires
        forall|k: int|
            0 <= k < replay_spec(evs).phases.len() ==> (#[trigger] replay_spec(evs).phases[k]).to_col
                < i64::MAX,
    ensures
        replay_spec(compact_spec(evs)) == replay_spec(evs),
{
    let r = replay_spec(evs);
    let mark = EventV::LogCompacted { folded: evs.len() as i64 };
    replay_is_wf(evs);
    replay_is_partition(evs);
    replay_phase_ids_unique(evs);
    from_model_round_trip(r);
    lemma_fold_append((empty_model(), 0u32), seq![mark], from_model_spec(r));
    lemma_fold_one((empty_model(), 0u32), mark);
}

/// The genesis tail of a compacted log is a fixed point: compacting again changes only the
/// marker's count (for every log whose regions stay clear of the `i64::MAX` column).
pub proof fn compact_is_a_fixed_point(evs: Seq<EventV>)
    requires
        forall|k: int|
            0 <= k < replay_spec(evs).phases.len() ==> (#[trigger] replay_spec(evs).phases[k]).to_col
                < i64::MAX,
    ensures
        compact_spec(compact_spec(evs)).drop_first() == compact_spec(evs).drop_first(),
{
    compact_round_trip(evs);
    let r = replay_spec(evs);
    let c = compact_spec(evs);
    assert(c.drop_first() =~= from_model_spec(r));
    assert(compact_spec(c).drop_first() =~= from_model_spec(replay_spec(c)));
}

/// Compacting a compacted log again changes only the marker's count, and compaction keeps the
/// board, for every log whose region columns lie in `[-b, b]`, with `b` plus the number of events
/// below `i64::MAX`.
pub proof fn compact_is_stable_within(evs: Seq<EventV>, b: int)
    requires
        b >= 0,
        b + evs.len() < i64::MAX,
        forall|i: int| 0 <= i < evs.len() ==> event_cols_within(#[trigger] evs[i], b),
    ensures
        compact_spec(compact_spec(evs)).drop_first() == compact_spec(evs).drop_first(),
        replay_spec(compact_spec(evs)) == replay_spec(evs),
{
    replay_cols_bounded(evs, b);
    compact_is_a_fixed_point(evs);
    compact_round_trip(evs);
}

} // verus!
