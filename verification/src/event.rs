//! The event-sourced spine: an append-only log is the durable record, and the board is a
//! projection replayed from it. Each log line is one event; this module holds the event type.

use crate::model::{opt_view, strings_view, Lane};
use crate::number::Number;
use vstd::prelude::*;

verus! {

/// One fact in the log. The `Element*` variants all carry the stable `id`.
#[derive(Clone, PartialEq, Debug)]
#[allow(inconsistent_fields)]
pub enum Event {
    BoardTitled { title: String },
    /// The board format this log is written in (the raw wire string).
    BoardFormat { format: String },
    /// The board's modeling granularity (the raw wire string).
    BoardLeveled { level: String },
    /// A region. `id` is `None` on a legacy band; replay mints a deterministic id for it.
    PhaseAdded { id: Option<String>, label: String, from_col: i64, to_col: i64 },
    PhaseResized { id: String, from_col: i64, to_col: i64 },
    PhaseRenamed { id: String, label: String },
    PhaseRemoved { id: String },
    /// Move one border of a region: `edge` is `"start"` or `"end"`, `col` the new position.
    FrontierMoved { id: String, edge: String, col: i64 },
    /// Split a region at `at_col`: `id` keeps the left half, `new_id` takes the right.
    PhaseSplit { id: String, at_col: i64, new_id: String, new_label: String },
    ElementAdded {
        id: String,
        kind: Lane,
        label: String,
        col: Option<i64>,
        detail: Option<String>,
        y: Option<Number>,
        links: Vec<String>,
    },
    ElementRenamed { id: String, label: String },
    /// Relocate a sticky; each `None` leaves that part of its placement untouched.
    ElementMoved { id: String, col: Option<i64>, kind: Option<Lane>, y: Option<Number> },
    ElementAnnotated { id: String, text: String },
    HotspotResolved { id: String, resolution: String },
    ElementRemoved { id: String },
    EdgeAdded { src: String, dst: String, label: Option<String> },
    EdgeRemoved { src: String, dst: String },
    /// Provenance marker: the log up to here was folded into the batch that follows.
    LogCompacted { folded: i64 },
}

/// What an event denotes.
#[allow(inconsistent_fields)]
pub enum EventV {
    BoardTitled { title: Seq<char> },
    BoardFormat { format: Seq<char> },
    BoardLeveled { level: Seq<char> },
    PhaseAdded { id: Option<Seq<char>>, label: Seq<char>, from_col: i64, to_col: i64 },
    PhaseResized { id: Seq<char>, from_col: i64, to_col: i64 },
    PhaseRenamed { id: Seq<char>, label: Seq<char> },
    PhaseRemoved { id: Seq<char> },
    FrontierMoved { id: Seq<char>, edge: Seq<char>, col: i64 },
    PhaseSplit { id: Seq<char>, at_col: i64, new_id: Seq<char>, new_label: Seq<char> },
    ElementAdded {
        id: Seq<char>,
        kind: Lane,
        label: Seq<char>,
        col: Option<i64>,
        detail: Option<Seq<char>>,
        y: Option<Number>,
        links: Seq<Seq<char>>,
    },
    ElementRenamed { id: Seq<char>, label: Seq<char> },
    ElementMoved { id: Seq<char>, col: Option<i64>, kind: Option<Lane>, y: Option<Number> },
    ElementAnnotated { id: Seq<char>, text: Seq<char> },
    HotspotResolved { id: Seq<char>, resolution: Seq<char> },
    ElementRemoved { id: Seq<char> },
    EdgeAdded { src: Seq<char>, dst: Seq<char>, label: Option<Seq<char>> },
    EdgeRemoved { src: Seq<char>, dst: Seq<char> },
    LogCompacted { folded: i64 },
}

impl View for Event {
    type V = EventV;

    open spec fn view(&self) -> EventV {
        match *self {
            Event::BoardTitled { title } => EventV::BoardTitled { title: title@ },
            Event::BoardFormat { format } => EventV::BoardFormat { format: format@ },
            Event::BoardLeveled { level } => EventV::BoardLeveled { level: level@ },
            Event::PhaseAdded { id, label, from_col, to_col } => EventV::PhaseAdded {
                id: opt_view(id),
                label: label@,
                from_col,
                to_col,
            },
            Event::PhaseResized { id, from_col, to_col } => EventV::PhaseResized {
                id: id@,
                from_col,
                to_col,
            },
            Event::PhaseRenamed { id, label } => EventV::PhaseRenamed { id: id@, label: label@ },
            Event::PhaseRemoved { id } => EventV::PhaseRemoved { id: id@ },
            Event::FrontierMoved { id, edge, col } => EventV::FrontierMoved {
                id: id@,
                edge: edge@,
                col,
            },
            Event::PhaseSplit { id, at_col, new_id, new_label } => EventV::PhaseSplit {
                id: id@,
                at_col,
                new_id: new_id@,
                new_label: new_label@,
            },
            Event::ElementAdded { id, kind, label, col, detail, y, links } => EventV::ElementAdded {
                id: id@,
                kind,
                label: label@,
                col,
                detail: opt_view(detail),
                y,
                links: strings_view(links@),
            },
            Event::ElementRenamed { id, label } => EventV::ElementRenamed {
                id: id@,
                label: label@,
            },
            Event::ElementMoved { id, col, kind, y } => EventV::ElementMoved {
                id: id@,
                col,
                kind,
                y,
            },
            Event::ElementAnnotated { id, text } => EventV::ElementAnnotated {
                id: id@,
                text: text@,
            },
            Event::HotspotResolved { id, resolution } => EventV::HotspotResolved {
                id: id@,
                resolution: resolution@,
            },
            Event::ElementRemoved { id } => EventV::ElementRemoved { id: id@ },
            Event::EdgeAdded { src, dst, label } => EventV::EdgeAdded {
                src: src@,
                dst: dst@,
                label: opt_view(label),
            },
            Event::EdgeRemoved { src, dst } => EventV::EdgeRemoved { src: src@, dst: dst@ },
            Event::LogCompacted { folded } => EventV::LogCompacted { folded },
        }
    }
}

pub open spec fn events_view(v: Seq<Event>) -> Seq<EventV> {
    v.map_values(|e: Event| e@)
}

} // verus!
