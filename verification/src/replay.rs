//! The projection: fold a sequence of events into the board they describe ([`replay`]), plus the
//! region-id watermark ([`region_watermark`]) a server reads when minting a fresh region id.

use crate::event::{events_view, Event, EventV};
use crate::model::{
    elements_view, edges_view, empty_model, level_from_str, level_of, normalize, normalize_spec,
    k_suffix, minted_id, phases_view, resolve_region_id, resolve_spec, strings_view, opt_view, clone_opt,
    clone_strings, Edge, EdgeV, Element, ElementV, Format, Lane, Model, ModelV, Phase, PhaseV,
};
use crate::number::{dec_digits, Number};
use crate::model::{
    cols_within, format_of, holds_region, is_partition, names_phase, normalize_keeps_regions,
    normalize_stays_near,
};
use crate::text::str_eq;
use vstd::prelude::*;

verus! {

// ---- regions ------------------------------------------------------------------------------

/// The first index at or after `i` of a region named `id`.
pub open spec fn find_phase(ps: Seq<PhaseV>, id: Seq<char>, i: int) -> Option<int>
    decreases ps.len() - i,
{
    if i < 0 || i >= ps.len() {
        None
    } else if ps[i].id == id {
        Some(i)
    } else {
        find_phase(ps, id, i + 1)
    }
}

pub proof fn lemma_find_phase_range(ps: Seq<PhaseV>, id: Seq<char>, i: int)
    ensures
        find_phase(ps, id, i) matches Some(k) ==> i <= k < ps.len() && ps[k].id == id,
        0 <= i && find_phase(ps, id, i) is None ==> forall|j: int|
            i <= j < ps.len() ==> #[trigger] ps[j].id != id,
    decreases ps.len() - i,
{
    if 0 <= i < ps.len() && ps[i].id != id {
        lemma_find_phase_range(ps, id, i + 1);
    }
}

/// The index of the first region named `id`, found by a scan.
fn position_phase(ps: &Vec<Phase>, id: &str) -> (r: Option<usize>)
    ensures
        r is None <==> find_phase(phases_view(ps@), id@, 0) is None,
        r matches Some(k) ==> find_phase(phases_view(ps@), id@, 0) == Some(k as int),
{
    let ghost v = phases_view(ps@);
    let mut i: usize = 0;
    while i < ps.len()
        invariant
            i <= ps.len(),
            v == phases_view(ps@),
            find_phase(v, id@, 0) == find_phase(v, id@, i as int),
        decreases ps.len() - i,
    {
        assert(v[i as int] == ps@[i as int]@);
        if str_eq(ps[i].id.as_str(), id) {
            return Some(i);
        }
        i = i + 1;
    }
    None
}

/// Append a region unless one with the same id exists (idempotent by id, like `ElementAdded`).
pub open spec fn add_phase_spec(ps: Seq<PhaseV>, id: Seq<char>, label: Seq<char>, from_col: i64, to_col: i64) -> Seq<PhaseV> {
    if find_phase(ps, id, 0) is Some {
        ps
    } else {
        ps.push(PhaseV { id, label, from_col, to_col })
    }
}

/// Set both borders of the first region named `id`.
pub open spec fn resize_phase_spec(ps: Seq<PhaseV>, id: Seq<char>, from_col: i64, to_col: i64) -> Seq<PhaseV> {
    match find_phase(ps, id, 0) {
        Some(k) => ps.update(k, PhaseV { id: ps[k].id, label: ps[k].label, from_col, to_col }),
        None => ps,
    }
}

/// Relabel the first region named `id`.
pub open spec fn rename_phase_spec(ps: Seq<PhaseV>, id: Seq<char>, label: Seq<char>) -> Seq<PhaseV> {
    match find_phase(ps, id, 0) {
        Some(k) => ps.update(
            k,
            PhaseV { id: ps[k].id, label, from_col: ps[k].from_col, to_col: ps[k].to_col },
        ),
        None => ps,
    }
}

/// Among the first `n` regions, the index of the smallest `from_col` (the first on ties).
pub open spec fn argmin_from(ps: Seq<PhaseV>, n: nat) -> int
    decreases n,
{
    if n <= 1 {
        0
    } else {
        let b = argmin_from(ps, (n - 1) as nat);
        if ps[n - 1].from_col < ps[b].from_col {
            n - 1
        } else {
            b
        }
    }
}

/// Among the first `n` regions, the index of the largest `to_col` (the last on ties).
pub open spec fn argmax_to(ps: Seq<PhaseV>, n: nat) -> int
    decreases n,
{
    if n <= 1 {
        0
    } else {
        let b = argmax_to(ps, (n - 1) as nat);
        if ps[n - 1].to_col >= ps[b].to_col {
            n - 1
        } else {
            b
        }
    }
}

proof fn lemma_argmin_range(ps: Seq<PhaseV>, n: nat)
    requires
        1 <= n,
    ensures
        0 <= argmin_from(ps, n) < n,
        forall|k: int| 0 <= k < n ==> ps[argmin_from(ps, n)].from_col <= #[trigger] ps[k].from_col,
    decreases n,
{
    if n > 1 {
        lemma_argmin_range(ps, (n - 1) as nat);
    }
}

proof fn lemma_argmax_range(ps: Seq<PhaseV>, n: nat)
    requires
        1 <= n,
    ensures
        0 <= argmax_to(ps, n) < n,
        forall|k: int| 0 <= k < n ==> ps[argmax_to(ps, n)].to_col >= #[trigger] ps[k].to_col,
    decreases n,
{
    if n > 1 {
        lemma_argmax_range(ps, (n - 1) as nat);
    }
}

/// Remove the first region named `id`, merging it into its neighbour: when it held a board end,
/// the outermost survivor on that side extends to cover its span.
pub open spec fn remove_phase_spec(ps: Seq<PhaseV>, id: Seq<char>) -> Seq<PhaseV> {
    match find_phase(ps, id, 0) {
        None => ps,
        Some(k) => {
            let rem = ps[k];
            let rest = ps.remove(k);
            if rest.len() == 0 {
                rest
            } else {
                let lo = argmin_from(rest, rest.len());
                let r1 = if rem.from_col <= rest[lo].from_col {
                    rest.update(
                        lo,
                        PhaseV {
                            id: rest[lo].id,
                            label: rest[lo].label,
                            from_col: rem.from_col,
                            to_col: rest[lo].to_col,
                        },
                    )
                } else {
                    rest
                };
                let hi = argmax_to(r1, r1.len());
                if rem.to_col >= r1[hi].to_col {
                    r1.update(
                        hi,
                        PhaseV {
                            id: r1[hi].id,
                            label: r1[hi].label,
                            from_col: r1[hi].from_col,
                            to_col: rem.to_col,
                        },
                    )
                } else {
                    r1
                }
            }
        },
    }
}

/// Move one border of the first region named `id`: `"start"` moves only the board-left bound
/// (the region must currently be leftmost), anything else sets its `to_col`.
pub open spec fn move_frontier_spec(ps: Seq<PhaseV>, id: Seq<char>, edge: Seq<char>, col: i64) -> Seq<PhaseV> {
    if edge == "start"@ {
        if ps.len() == 0 {
            ps
        } else {
            let min = ps[argmin_from(ps, ps.len())].from_col;
            match find_phase(ps, id, 0) {
                Some(k) => if ps[k].from_col == min {
                    ps.update(
                        k,
                        PhaseV { id: ps[k].id, label: ps[k].label, from_col: col, to_col: ps[k].to_col },
                    )
                } else {
                    ps
                },
                None => ps,
            }
        }
    } else {
        match find_phase(ps, id, 0) {
            Some(k) => ps.update(
                k,
                PhaseV { id: ps[k].id, label: ps[k].label, from_col: ps[k].from_col, to_col: col },
            ),
            None => ps,
        }
    }
}

/// Split the first region named `id` at `at_col`: it keeps `[from, at_col - 1]` and a new region
/// takes `[at_col, to]`; nothing happens unless `from < at_col <= to` and no region is named
/// `new_id` yet (like a duplicate `PhaseAdded`, a split never makes two regions share an id).
pub open spec fn split_phase_spec(ps: Seq<PhaseV>, id: Seq<char>, at_col: i64, new_id: Seq<char>, new_label: Seq<char>) -> Seq<PhaseV> {
    match find_phase(ps, id, 0) {
        Some(i) => {
            let p = ps[i];
            if p.from_col < at_col && at_col <= p.to_col && find_phase(ps, new_id, 0) is None {
                ps.update(
                    i,
                    PhaseV { id: p.id, label: p.label, from_col: p.from_col, to_col: (at_col - 1) as i64 },
                ).push(PhaseV { id: new_id, label: new_label, from_col: at_col, to_col: p.to_col })
            } else {
                ps
            }
        },
        None => ps,
    }
}

fn set_phase(ps: &mut Vec<Phase>, k: usize, from_col: i64, to_col: i64, label: Option<String>)
    requires
        k < old(ps).len(),
    ensures
        final(ps).len() == old(ps).len(),
        phases_view(final(ps)@) == phases_view(old(ps)@).update(
            k as int,
            PhaseV {
                id: phases_view(old(ps)@)[k as int].id,
                label: match label {
                    Some(l) => l@,
                    None => phases_view(old(ps)@)[k as int].label,
                },
                from_col,
                to_col,
            },
        ),
{
    assert(phases_view(ps@)[k as int] == ps@[k as int]@);
    let p = ps[k].copy();
    let q = Phase {
        id: p.id,
        label: match label {
            Some(l) => l,
            None => p.label,
        },
        from_col,
        to_col,
    };
    ps.set(k, q);
    assert(phases_view(ps@) =~= phases_view(old(ps)@).update(k as int, q@));
}

/// Append a region, idempotent by id: a duplicate `PhaseAdded` must not create a second region
/// sharing an id.
pub fn add_phase(phases: &mut Vec<Phase>, id: String, label: String, from_col: i64, to_col: i64)
    ensures
        phases_view(final(phases)@) == add_phase_spec(
            phases_view(old(phases)@),
            id@,
            label@,
            from_col,
            to_col,
        ),
{
    if position_phase(phases, id.as_str()).is_none() {
        let p = Phase { id, label, from_col, to_col };
        phases.push(p);
        assert(phases_view(phases@) =~= phases_view(old(phases)@).push(p@));
    }
}

/// Legacy independent-span resize: set both borders (the fold's final normalize re-projects the
/// partition).
pub fn resize_phase(phases: &mut Vec<Phase>, id: &str, from_col: i64, to_col: i64)
    ensures
        phases_view(final(phases)@) == resize_phase_spec(
            phases_view(old(phases)@),
            id@,
            from_col,
            to_col,
        ),
{
    proof {
        lemma_find_phase_range(phases_view(phases@), id@, 0);
    }
    if let Some(k) = position_phase(phases, id) {
        set_phase(phases, k, from_col, to_col, None);
    }
}

/// Relabel a region by id.
pub fn rename_phase(phases: &mut Vec<Phase>, id: &str, label: String)
    ensures
        phases_view(final(phases)@) == rename_phase_spec(phases_view(old(phases)@), id@, label@),
{
    proof {
        lemma_find_phase_range(phases_view(phases@), id@, 0);
    }
    if let Some(k) = position_phase(phases, id) {
        assert(phases_view(phases@)[k as int] == phases@[k as int]@);
        let f = phases[k].from_col;
        let t = phases[k].to_col;
        set_phase(phases, k, f, t, Some(label));
    }
}

fn argmin_from_exec(ps: &Vec<Phase>) -> (r: usize)
    requires
        ps.len() >= 1,
    ensures
        r == argmin_from(phases_view(ps@), ps.len() as nat),
        r < ps.len(),
{
    let ghost v = phases_view(ps@);
    let mut b: usize = 0;
    let mut i: usize = 1;
    while i < ps.len()
        invariant
            1 <= i <= ps.len(),
            v == phases_view(ps@),
            b == argmin_from(v, i as nat),
            b < i,
        decreases ps.len() - i,
    {
        assert(v[i as int] == ps@[i as int]@ && v[b as int] == ps@[b as int]@);
        if ps[i].from_col < ps[b].from_col {
            b = i;
        }
        i = i + 1;
    }
    b
}

fn argmax_to_exec(ps: &Vec<Phase>) -> (r: usize)
    requires
        ps.len() >= 1,
    ensures
        r == argmax_to(phases_view(ps@), ps.len() as nat),
        r < ps.len(),
{
    let ghost v = phases_view(ps@);
    let mut b: usize = 0;
    let mut i: usize = 1;
    while i < ps.len()
        invariant
            1 <= i <= ps.len(),
            v == phases_view(ps@),
            b == argmax_to(v, i as nat),
            b < i,
        decreases ps.len() - i,
    {
        assert(v[i as int] == ps@[i as int]@ && v[b as int] == ps@[b as int]@);
        if ps[i].to_col >= ps[b].to_col {
            b = i;
        }
        i = i + 1;
    }
    b
}

/// Remove = merge under the partition: an interior region's columns are absorbed by the
/// neighbour the sweep extends, and a board-end region's by the outermost survivor on its side.
pub fn remove_phase(phases: &mut Vec<Phase>, id: &str)
    ensures
        phases_view(final(phases)@) == remove_phase_spec(phases_view(old(phases)@), id@),
{
    proof {
        lemma_find_phase_range(phases_view(phases@), id@, 0);
    }
    if let Some(pos) = position_phase(phases, id) {
        let rem = phases.remove(pos);
        assert(phases_view(phases@) =~= phases_view(old(phases)@).remove(pos as int));
        if phases.len() > 0 {
            let lo = argmin_from_exec(phases);
            assert(phases_view(phases@)[lo as int] == phases@[lo as int]@);
            if rem.from_col <= phases[lo].from_col {
                let t = phases[lo].to_col;
                set_phase(phases, lo, rem.from_col, t, None);
            }
            let hi = argmax_to_exec(phases);
            assert(phases_view(phases@)[hi as int] == phases@[hi as int]@);
            if rem.to_col >= phases[hi].to_col {
                let f = phases[hi].from_col;
                set_phase(phases, hi, f, rem.to_col, None);
            }
        }
    }
}

/// Move one border of a region. `"start"` moves only the board-left bound, so it applies only
/// to the current leftmost region (anywhere else it would reorder the timeline).
pub fn move_frontier(phases: &mut Vec<Phase>, id: &str, edge: &str, col: i64)
    ensures
        phases_view(final(phases)@) == move_frontier_spec(
            phases_view(old(phases)@),
            id@,
            edge@,
            col,
        ),
{
    proof {
        lemma_find_phase_range(phases_view(phases@), id@, 0);
    }
    if str_eq(edge, "start") {
        if phases.len() == 0 {
            return;
        }
        let lo = argmin_from_exec(phases);
        assert(phases_view(phases@)[lo as int] == phases@[lo as int]@);
        let min = phases[lo].from_col;
        if let Some(k) = position_phase(phases, id) {
            assert(phases_view(phases@)[k as int] == phases@[k as int]@);
            if phases[k].from_col == min {
                let t = phases[k].to_col;
                set_phase(phases, k, col, t, None);
            }
        }
    } else if let Some(k) = position_phase(phases, id) {
        assert(phases_view(phases@)[k as int] == phases@[k as int]@);
        let f = phases[k].from_col;
        set_phase(phases, k, f, col, None);
    }
}

/// Split a region in two at `at_col`: `id` keeps `[from, at_col - 1]`, `new_id` takes
/// `[at_col, to]`. A no-op unless `at_col` falls strictly inside the region and `new_id` names no
/// region yet.
pub fn split_phase(phases: &mut Vec<Phase>, id: &str, at_col: i64, new_id: String, new_label: String)
    ensures
        phases_view(final(phases)@) == split_phase_spec(
            phases_view(old(phases)@),
            id@,
            at_col,
            new_id@,
            new_label@,
        ),
{
    proof {
        lemma_find_phase_range(phases_view(phases@), id@, 0);
    }
    if let Some(i) = position_phase(phases, id) {
        assert(phases_view(phases@)[i as int] == phases@[i as int]@);
        let from = phases[i].from_col;
        let to = phases[i].to_col;
        let fresh = position_phase(phases, new_id.as_str()).is_none();
        if from < at_col && at_col <= to && fresh {
            set_phase(phases, i, from, at_col - 1, None);
            let p = Phase { id: new_id, label: new_label, from_col: at_col, to_col: to };
            let ghost before = phases_view(phases@);
            phases.push(p);
            assert(phases_view(phases@) =~= before.push(p@));
            assert(phases_view(phases@) == split_phase_spec(
                phases_view(old(phases)@),
                id@,
                at_col,
                new_id@,
                new_label@,
            ));
        } else {
            assert(find_phase(phases_view(phases@), id@, 0) is Some);
            assert(find_phase(phases_view(phases@), id@, 0)->0 == i as int);
            assert(phases_view(phases@)[i as int].from_col == from);
            assert(phases_view(phases@)[i as int].to_col == to);
            assert(phases_view(phases@) == split_phase_spec(
                phases_view(old(phases)@),
                id@,
                at_col,
                new_id@,
                new_label@,
            ));
        }
    } else {
        assert(phases_view(phases@) == split_phase_spec(
            phases_view(old(phases)@),
            id@,
            at_col,
            new_id@,
            new_label@,
        ));
    }
}


// ---- stickies and edges -------------------------------------------------------------------

/// The first index at or after `i` of a sticky with id `id`.
pub open spec fn find_element(es: Seq<ElementV>, id: Seq<char>, i: int) -> Option<int>
    decreases es.len() - i,
{
    if i < 0 || i >= es.len() {
        None
    } else if es[i].id == id {
        Some(i)
    } else {
        find_element(es, id, i + 1)
    }
}

pub proof fn lemma_find_element(es: Seq<ElementV>, id: Seq<char>, i: int)
    requires
        0 <= i,
    ensures
        find_element(es, id, i) matches Some(k) ==> i <= k < es.len() && es[k].id == id,
        find_element(es, id, i) is None ==> forall|j: int| i <= j < es.len() ==> #[trigger] es[j].id != id,
    decreases es.len() - i,
{
    if i < es.len() && es[i].id != id {
        lemma_find_element(es, id, i + 1);
    }
}

/// The first index at or after `i` of an edge `src -> dst`.
pub open spec fn find_edge(es: Seq<EdgeV>, src: Seq<char>, dst: Seq<char>, i: int) -> Option<int>
    decreases es.len() - i,
{
    if i < 0 || i >= es.len() {
        None
    } else if es[i].src == src && es[i].dst == dst {
        Some(i)
    } else {
        find_edge(es, src, dst, i + 1)
    }
}

/// Add a sticky unless one with the same id exists.
pub open spec fn add_element_spec(es: Seq<ElementV>, e: ElementV) -> Seq<ElementV> {
    if find_element(es, e.id, 0) is Some {
        es
    } else {
        es.push(e)
    }
}

/// Apply `f` to the first sticky named `id`; nothing happens when there is none.
pub open spec fn update_element(es: Seq<ElementV>, id: Seq<char>, f: spec_fn(ElementV) -> ElementV) -> Seq<ElementV> {
    match find_element(es, id, 0) {
        Some(k) => es.update(k, f(es[k])),
        None => es,
    }
}

/// A sticky relabelled.
pub open spec fn renamed(e: ElementV, label: Seq<char>) -> ElementV {
    ElementV { label, ..e }
}

/// A sticky relocated: each part given replaces the stored one, each `None` keeps it.
pub open spec fn moved(e: ElementV, col: Option<i64>, kind: Option<Lane>, y: Option<Number>) -> ElementV {
    ElementV {
        col: if col is Some { col } else { e.col },
        kind: match kind {
            Some(k) => k,
            None => e.kind,
        },
        y: if y is Some { y } else { e.y },
        ..e
    }
}

/// A sticky annotated with `text`.
pub open spec fn annotated(e: ElementV, text: Seq<char>) -> ElementV {
    ElementV { detail: Some(text), ..e }
}

/// A hotspot marked resolved, the resolution recorded as its note.
pub open spec fn resolved_with(e: ElementV, resolution: Seq<char>) -> ElementV {
    ElementV { resolved: true, detail: Some(resolution), ..e }
}

/// The stickies other than `id`.
pub open spec fn without_element(es: Seq<ElementV>, id: Seq<char>) -> Seq<ElementV> {
    es.filter(|e: ElementV| e.id != id)
}

/// The edges that touch neither end `id`.
pub open spec fn without_touching(es: Seq<EdgeV>, id: Seq<char>) -> Seq<EdgeV> {
    es.filter(|e: EdgeV| e.src != id && e.dst != id)
}

/// The edges other than `src -> dst`.
pub open spec fn without_edge(es: Seq<EdgeV>, src: Seq<char>, dst: Seq<char>) -> Seq<EdgeV> {
    es.filter(|e: EdgeV| !(e.src == src && e.dst == dst))
}

/// Add an edge unless `src -> dst` is already there.
pub open spec fn add_edge_spec(es: Seq<EdgeV>, e: EdgeV) -> Seq<EdgeV> {
    if find_edge(es, e.src, e.dst, 0) is Some {
        es
    } else {
        es.push(e)
    }
}

fn element_index(es: &Vec<Element>, id: &str) -> (r: Option<usize>)
    ensures
        r is None <==> find_element(elements_view(es@), id@, 0) is None,
        r matches Some(k) ==> find_element(elements_view(es@), id@, 0) == Some(k as int),
{
    let ghost v = elements_view(es@);
    let mut i: usize = 0;
    while i < es.len()
        invariant
            i <= es.len(),
            v == elements_view(es@),
            find_element(v, id@, 0) == find_element(v, id@, i as int),
        decreases es.len() - i,
    {
        assert(v[i as int] == es@[i as int]@);
        if str_eq(es[i].id.as_str(), id) {
            return Some(i);
        }
        i = i + 1;
    }
    None
}

fn has_edge(es: &Vec<Edge>, src: &str, dst: &str) -> (r: bool)
    ensures
        r == find_edge(edges_view(es@), src@, dst@, 0) is Some,
{
    let ghost v = edges_view(es@);
    let mut i: usize = 0;
    while i < es.len()
        invariant
            i <= es.len(),
            v == edges_view(es@),
            find_edge(v, src@, dst@, 0) == find_edge(v, src@, dst@, i as int),
        decreases es.len() - i,
    {
        assert(v[i as int] == es@[i as int]@);
        if str_eq(es[i].src.as_str(), src) && str_eq(es[i].dst.as_str(), dst) {
            return true;
        }
        i = i + 1;
    }
    false
}

/// Replace the sticky at `k`.
fn set_element(es: &mut Vec<Element>, k: usize, e: Element)
    requires
        k < old(es).len(),
    ensures
        elements_view(final(es)@) == elements_view(old(es)@).update(k as int, e@),
{
    es.set(k, e);
    assert(elements_view(es@) =~= elements_view(old(es)@).update(k as int, e@));
}

/// Add a sticky, idempotent by id: a second `ElementAdded` for a live id changes nothing.
pub fn add_element(es: &mut Vec<Element>, e: Element)
    ensures
        elements_view(final(es)@) == add_element_spec(elements_view(old(es)@), e@),
{
    if element_index(es, e.id.as_str()).is_none() {
        let ghost before = elements_view(es@);
        es.push(e);
        assert(elements_view(es@) =~= before.push(e@));
    }
}

/// Relabel a sticky by id.
pub fn rename_element(es: &mut Vec<Element>, id: &str, label: &String)
    ensures
        elements_view(final(es)@) == update_element(
            elements_view(old(es)@),
            id@,
            |e: ElementV| renamed(e, label@),
        ),
{
    proof {
        lemma_find_element(elements_view(es@), id@, 0);
    }
    if let Some(k) = element_index(es, id) {
        assert(elements_view(es@)[k as int] == es@[k as int]@);
        let mut e = es[k].copy();
        e.label = label.clone();
        set_element(es, k, e);
    }
}

/// Relocate a sticky by id; each `None` leaves that part of its placement untouched.
pub fn move_element(es: &mut Vec<Element>, id: &str, col: Option<i64>, kind: Option<Lane>, y: Option<Number>)
    ensures
        elements_view(final(es)@) == update_element(
            elements_view(old(es)@),
            id@,
            |e: ElementV| moved(e, col, kind, y),
        ),
{
    proof {
        lemma_find_element(elements_view(es@), id@, 0);
    }
    if let Some(k) = element_index(es, id) {
        assert(elements_view(es@)[k as int] == es@[k as int]@);
        let mut e = es[k].copy();
        if col.is_some() {
            e.col = col;
        }
        if let Some(l) = kind {
            e.kind = l;
        }
        if y.is_some() {
            e.y = y;
        }
        set_element(es, k, e);
    }
}

/// Attach a note to a sticky by id.
pub fn annotate_element(es: &mut Vec<Element>, id: &str, text: &String)
    ensures
        elements_view(final(es)@) == update_element(
            elements_view(old(es)@),
            id@,
            |e: ElementV| annotated(e, text@),
        ),
{
    proof {
        lemma_find_element(elements_view(es@), id@, 0);
    }
    if let Some(k) = element_index(es, id) {
        assert(elements_view(es@)[k as int] == es@[k as int]@);
        let mut e = es[k].copy();
        e.detail = Some(text.clone());
        set_element(es, k, e);
    }
}

/// Mark a hotspot resolved by id, recording the resolution as its note.
pub fn resolve_element(es: &mut Vec<Element>, id: &str, resolution: &String)
    ensures
        elements_view(final(es)@) == update_element(
            elements_view(old(es)@),
            id@,
            |e: ElementV| resolved_with(e, resolution@),
        ),
{
    proof {
        lemma_find_element(elements_view(es@), id@, 0);
    }
    if let Some(k) = element_index(es, id) {
        assert(elements_view(es@)[k as int] == es@[k as int]@);
        let mut e = es[k].copy();
        e.resolved = true;
        e.detail = Some(resolution.clone());
        set_element(es, k, e);
    }
}

/// Drop every sticky named `id`.
pub fn remove_element(es: &mut Vec<Element>, id: &str)
    ensures
        elements_view(final(es)@) == without_element(elements_view(old(es)@), id@),
{
    let ghost src = elements_view(es@);
    let ghost pred = |e: ElementV| e.id != id@;
    let mut out: Vec<Element> = Vec::new();
    let mut i: usize = 0;
    while i < es.len()
        invariant
            i <= es.len(),
            src == elements_view(es@),
            src == elements_view(old(es)@),
            pred == (|e: ElementV| e.id != id@),
            elements_view(out@) == src.take(i as int).filter(pred),
        decreases es.len() - i,
    {
        proof {
            assert(src.take(i + 1).drop_last() =~= src.take(i as int));
            assert(src.take(i + 1).last() == es@[i as int]@);
            reveal(Seq::filter);
        }
        if !str_eq(es[i].id.as_str(), id) {
            let ghost before = elements_view(out@);
            out.push(es[i].copy());
            assert(elements_view(out@) =~= before.push(es@[i as int]@));
        }
        i = i + 1;
    }
    assert(src.take(es.len() as int) =~= src);
    *es = out;
}

/// Drop every edge with `id` at either end.
pub fn remove_touching(es: &mut Vec<Edge>, id: &str)
    ensures
        edges_view(final(es)@) == without_touching(edges_view(old(es)@), id@),
{
    let ghost src = edges_view(es@);
    let ghost pred = |e: EdgeV| e.src != id@ && e.dst != id@;
    let mut out: Vec<Edge> = Vec::new();
    let mut i: usize = 0;
    while i < es.len()
        invariant
            i <= es.len(),
            src == edges_view(es@),
            src == edges_view(old(es)@),
            pred == (|e: EdgeV| e.src != id@ && e.dst != id@),
            edges_view(out@) == src.take(i as int).filter(pred),
        decreases es.len() - i,
    {
        proof {
            assert(src.take(i + 1).drop_last() =~= src.take(i as int));
            assert(src.take(i + 1).last() == es@[i as int]@);
            reveal(Seq::filter);
        }
        if !str_eq(es[i].src.as_str(), id) && !str_eq(es[i].dst.as_str(), id) {
            let ghost before = edges_view(out@);
            out.push(es[i].copy());
            assert(edges_view(out@) =~= before.push(es@[i as int]@));
        }
        i = i + 1;
    }
    assert(src.take(es.len() as int) =~= src);
    *es = out;
}

/// Add an edge unless `src -> dst` is already drawn.
pub fn add_edge(es: &mut Vec<Edge>, e: Edge)
    ensures
        edges_view(final(es)@) == add_edge_spec(edges_view(old(es)@), e@),
{
    if !has_edge(es, e.src.as_str(), e.dst.as_str()) {
        let ghost before = edges_view(es@);
        es.push(e);
        assert(edges_view(es@) =~= before.push(e@));
    }
}

/// Drop every edge `src -> dst`.
pub fn remove_edge(es: &mut Vec<Edge>, src_id: &str, dst_id: &str)
    ensures
        edges_view(final(es)@) == without_edge(edges_view(old(es)@), src_id@, dst_id@),
{
    let ghost src = edges_view(es@);
    let ghost pred = |e: EdgeV| !(e.src == src_id@ && e.dst == dst_id@);
    let mut out: Vec<Edge> = Vec::new();
    let mut i: usize = 0;
    while i < es.len()
        invariant
            i <= es.len(),
            src == edges_view(es@),
            src == edges_view(old(es)@),
            pred == (|e: EdgeV| !(e.src == src_id@ && e.dst == dst_id@)),
            edges_view(out@) == src.take(i as int).filter(pred),
        decreases es.len() - i,
    {
        proof {
            assert(src.take(i + 1).drop_last() =~= src.take(i as int));
            assert(src.take(i + 1).last() == es@[i as int]@);
            reveal(Seq::filter);
        }
        if !(str_eq(es[i].src.as_str(), src_id) && str_eq(es[i].dst.as_str(), dst_id)) {
            let ghost before = edges_view(out@);
            out.push(es[i].copy());
            assert(edges_view(out@) =~= before.push(es@[i as int]@));
        }
        i = i + 1;
    }
    assert(src.take(es.len() as int) =~= src);
    *es = out;
}


// ---- the fold ----------------------------------------------------------------------------

/// One event applied to a board and the region-id watermark `w` (the highest `K` suffix spent
/// so far).
pub open spec fn step(m: ModelV, w: u32, ev: EventV) -> (ModelV, u32) {
    match ev {
        EventV::BoardTitled { title } => (ModelV { title, ..m }, w),
        EventV::BoardFormat { format } => (
            match format_of(format) {
                Some(f) => ModelV { format: f, ..m },
                None => m,
            },
            w,
        ),
        EventV::BoardLeveled { level } => (ModelV { level: level_of(level), ..m }, w),
        EventV::PhaseAdded { id, label, from_col, to_col } => {
            let (rid, w2) = resolve_spec(id, w);
            (ModelV { phases: add_phase_spec(m.phases, rid, label, from_col, to_col), ..m }, w2)
        },
        EventV::PhaseResized { id, from_col, to_col } => (
            ModelV { phases: resize_phase_spec(m.phases, id, from_col, to_col), ..m },
            w,
        ),
        EventV::PhaseRenamed { id, label } => (
            ModelV { phases: rename_phase_spec(m.phases, id, label), ..m },
            w,
        ),
        EventV::PhaseRemoved { id } => (ModelV { phases: remove_phase_spec(m.phases, id), ..m }, w),
        EventV::FrontierMoved { id, edge, col } => (
            ModelV { phases: move_frontier_spec(m.phases, id, edge, col), ..m },
            w,
        ),
        EventV::PhaseSplit { id, at_col, new_id, new_label } => {
            let (nid, w2) = resolve_spec(Some(new_id), w);
            (ModelV { phases: split_phase_spec(m.phases, id, at_col, nid, new_label), ..m }, w2)
        },
        EventV::ElementAdded { id, kind, label, col, detail, y, links } => (
            ModelV {
                elements: add_element_spec(
                    m.elements,
                    ElementV { id, kind, label, col, detail, y, resolved: false, links },
                ),
                ..m
            },
            w,
        ),
        EventV::ElementRenamed { id, label } => (
            ModelV { elements: update_element(m.elements, id, |e: ElementV| renamed(e, label)), ..m },
            w,
        ),
        EventV::ElementMoved { id, col, kind, y } => (
            ModelV {
                elements: update_element(m.elements, id, |e: ElementV| moved(e, col, kind, y)),
                ..m
            },
            w,
        ),
        EventV::ElementAnnotated { id, text } => (
            ModelV {
                elements: update_element(m.elements, id, |e: ElementV| annotated(e, text)),
                ..m
            },
            w,
        ),
        EventV::HotspotResolved { id, resolution } => (
            ModelV {
                elements: update_element(
                    m.elements,
                    id,
                    |e: ElementV| resolved_with(e, resolution),
                ),
                ..m
            },
            w,
        ),
        EventV::ElementRemoved { id } => (
            ModelV {
                elements: without_element(m.elements, id),
                edges: without_touching(m.edges, id),
                ..m
            },
            w,
        ),
        EventV::EdgeAdded { src, dst, label } => (
            ModelV { edges: add_edge_spec(m.edges, EdgeV { src, dst, label }), ..m },
            w,
        ),
        EventV::EdgeRemoved { src, dst } => (
            ModelV { edges: without_edge(m.edges, src, dst), ..m },
            w,
        ),
        EventV::LogCompacted { .. } => (m, w),
    }
}

/// The board and watermark after folding `evs` onto the state `s`.
pub open spec fn fold_from(s: (ModelV, u32), evs: Seq<EventV>) -> (ModelV, u32)
    decreases evs.len(),
{
    if evs.len() == 0 {
        s
    } else {
        let (m, w) = fold_from(s, evs.drop_last());
        step(m, w, evs.last())
    }
}

/// The board and watermark after folding `evs` from the empty board.
pub open spec fn fold_events(evs: Seq<EventV>) -> (ModelV, u32) {
    fold_from((empty_model(), 0), evs)
}

/// The board a log describes: the fold, its regions then projected onto a partition.
pub open spec fn replay_spec(evs: Seq<EventV>) -> ModelV {
    let m = fold_events(evs).0;
    ModelV { phases: normalize_spec(m.phases), ..m }
}

/// The watermark after `evs`: every `PhaseAdded` and `PhaseSplit` id folded through the
/// region-id rule.
pub open spec fn watermark(evs: Seq<EventV>) -> u32
    decreases evs.len(),
{
    if evs.len() == 0 {
        0
    } else {
        let w = watermark(evs.drop_last());
        match evs.last() {
            EventV::PhaseAdded { id, .. } => resolve_spec(id, w).1,
            EventV::PhaseSplit { new_id, .. } => resolve_spec(Some(new_id), w).1,
            _ => w,
        }
    }
}

/// Apply one event to a board under construction.
fn apply(m: &mut Model, max_region: &mut u32, ev: &Event)
    ensures
        (final(m)@, *final(max_region)) == step(old(m)@, *old(max_region), ev@),
{
    match ev {
        Event::BoardTitled { title } => {
            m.title = title.clone();
        },
        Event::BoardFormat { format } => {
            if let Some(f) = crate::model::format_from_str(format.as_str()) {
                m.format = f;
            }
        },
        Event::BoardLeveled { level } => {
            m.level = level_from_str(level.as_str());
        },
        Event::PhaseAdded { id, label, from_col, to_col } => {
            let explicit: Option<&str> = match id {
                Some(s) => Some(s.as_str()),
                None => None,
            };
            let rid = resolve_region_id(explicit, max_region);
            add_phase(&mut m.phases, rid, label.clone(), *from_col, *to_col);
        },
        Event::PhaseResized { id, from_col, to_col } => {
            resize_phase(&mut m.phases, id.as_str(), *from_col, *to_col);
        },
        Event::PhaseRenamed { id, label } => {
            rename_phase(&mut m.phases, id.as_str(), label.clone());
        },
        Event::PhaseRemoved { id } => {
            remove_phase(&mut m.phases, id.as_str());
        },
        Event::FrontierMoved { id, edge, col } => {
            move_frontier(&mut m.phases, id.as_str(), edge.as_str(), *col);
        },
        Event::PhaseSplit { id, at_col, new_id, new_label } => {
            let nid = resolve_region_id(Some(new_id.as_str()), max_region);
            split_phase(&mut m.phases, id.as_str(), *at_col, nid, new_label.clone());
        },
        Event::ElementAdded { id, kind, label, col, detail, y, links } => {
            let e = Element {
                id: id.clone(),
                kind: *kind,
                label: label.clone(),
                col: *col,
                detail: clone_opt(detail),
                y: *y,
                resolved: false,
                links: clone_strings(links),
            };
            add_element(&mut m.elements, e);
        },
        Event::ElementRenamed { id, label } => {
            rename_element(&mut m.elements, id.as_str(), label);
        },
        Event::ElementMoved { id, col, kind, y } => {
            move_element(&mut m.elements, id.as_str(), *col, *kind, *y);
        },
        Event::ElementAnnotated { id, text } => {
            annotate_element(&mut m.elements, id.as_str(), text);
        },
        Event::HotspotResolved { id, resolution } => {
            resolve_element(&mut m.elements, id.as_str(), resolution);
        },
        Event::ElementRemoved { id } => {
            remove_element(&mut m.elements, id.as_str());
            remove_touching(&mut m.edges, id.as_str());
        },
        Event::EdgeAdded { src, dst, label } => {
            let e = Edge { src: src.clone(), dst: dst.clone(), label: clone_opt(label) };
            add_edge(&mut m.edges, e);
        },
        Event::EdgeRemoved { src, dst } => {
            remove_edge(&mut m.edges, src.as_str(), dst.as_str());
        },
        Event::LogCompacted { .. } => {},
    }
}

/// Fold a sequence of events into the board they describe. The projection is pure and
/// deterministic: the same log gives the same board, and its regions are always a partition.
pub fn replay(events: &[Event]) -> (m: Model)
    ensures
        m@ == replay_spec(events_view(events@)),
{
    let ghost evs = events_view(events@);
    let mut m = Model::new();
    let mut max_region: u32 = 0;
    let mut i: usize = 0;
    while i < events.len()
        invariant
            i <= events.len(),
            evs == events_view(events@),
            (m@, max_region) == fold_events(evs.take(i as int)),
        decreases events.len() - i,
    {
        proof {
            assert(evs.take(i + 1).drop_last() =~= evs.take(i as int));
            assert(evs.take(i + 1).last() == events@[i as int]@);
        }
        apply(&mut m, &mut max_region, &events[i]);
        i = i + 1;
    }
    assert(evs.take(events.len() as int) =~= evs);
    normalize(&mut m.phases);
    m
}

/// The region-id watermark after `events`: the highest `K` suffix any `PhaseAdded` or
/// `PhaseSplit` has spent, explicit ids and the synthetic ones replay mints alike. A server mints
/// the next region id as one past it.
pub fn region_watermark(events: &[Event]) -> (w: u32)
    ensures
        w == watermark(events_view(events@)),
{
    let ghost evs = events_view(events@);
    let mut max_region: u32 = 0;
    let mut i: usize = 0;
    while i < events.len()
        invariant
            i <= events.len(),
            evs == events_view(events@),
            max_region == watermark(evs.take(i as int)),
        decreases events.len() - i,
    {
        proof {
            assert(evs.take(i + 1).drop_last() =~= evs.take(i as int));
            assert(evs.take(i + 1).last() == events@[i as int]@);
        }
        match &events[i] {
            Event::PhaseAdded { id, .. } => {
                let explicit: Option<&str> = match id {
                    Some(s) => Some(s.as_str()),
                    None => None,
                };
                let _ = resolve_region_id(explicit, &mut max_region);
            },
            Event::PhaseSplit { new_id, .. } => {
                let _ = resolve_region_id(Some(new_id.as_str()), &mut max_region);
            },
            _ => {},
        }
        i = i + 1;
    }
    assert(evs.take(events.len() as int) =~= evs);
    max_region
}

/// The watermark `region_watermark` reports is the one `replay` threads through its fold: the two
/// cannot diverge, so a minted id is never one replay would later synthesize.
pub proof fn watermark_matches_fold(evs: Seq<EventV>)
    ensures
        watermark(evs) == fold_events(evs).1,
    decreases evs.len(),
{
    if evs.len() > 0 {
        watermark_matches_fold(evs.drop_last());
    }
}

/// Folding one event is one step.
pub proof fn lemma_fold_one(s: (ModelV, u32), x: EventV)
    ensures
        fold_from(s, seq![x]) == step(s.0, s.1, x),
{
    assert(seq![x].drop_last() =~= Seq::<EventV>::empty());
    assert(fold_from(s, Seq::<EventV>::empty()) == s);
    assert(seq![x].last() == x);
}

/// Folding two events is two steps.
pub proof fn lemma_fold_two(s: (ModelV, u32), x: EventV, y: EventV)
    ensures
        fold_from(s, seq![x, y]) == step(step(s.0, s.1, x).0, step(s.0, s.1, x).1, y),
{
    assert(seq![x, y].drop_last() =~= seq![x]);
    lemma_fold_one(s, x);
}

/// Folding a concatenation folds the second part onto the state the first part left.
pub proof fn lemma_fold_append(s: (ModelV, u32), a: Seq<EventV>, b: Seq<EventV>)
    ensures
        fold_from(s, a + b) == fold_from(fold_from(s, a), b),
    decreases b.len(),
{
    if b.len() == 0 {
        assert(a + b =~= a);
    } else {
        lemma_fold_append(s, a, b.drop_last());
        assert((a + b).drop_last() =~= a + b.drop_last());
        assert((a + b).last() == b.last());
    }
}


// ---- what every fold keeps ----------------------------------------------------------------

/// No two stickies share an id.
pub open spec fn unique_element_ids(es: Seq<ElementV>) -> bool {
    forall|i: int, j: int| 0 <= i < j < es.len() ==> #[trigger] es[i].id != #[trigger] es[j].id
}

/// No two edges join the same `src -> dst`.
pub open spec fn unique_edges(es: Seq<EdgeV>) -> bool {
    forall|i: int, j: int|
        0 <= i < j < es.len() ==> !(#[trigger] es[i].src == #[trigger] es[j].src && es[i].dst
            == es[j].dst)
}

/// No two regions share an id.
pub open spec fn unique_phase_ids(ps: Seq<PhaseV>) -> bool {
    forall|i: int, j: int| 0 <= i < j < ps.len() ==> #[trigger] ps[i].id != #[trigger] ps[j].id
}

/// A resolved sticky carries its resolution note.
pub open spec fn note_kept(e: ElementV) -> bool {
    e.resolved ==> e.detail is Some
}

/// What every replayed board satisfies: sticky ids are unique, edges are unique per
/// `src -> dst`, and every resolved sticky keeps its note.
pub open spec fn board_wf(m: ModelV) -> bool {
    &&& unique_element_ids(m.elements)
    &&& unique_edges(m.edges)
    &&& forall|i: int| 0 <= i < m.elements.len() ==> note_kept(#[trigger] m.elements[i])
}

pub proof fn lemma_find_edge(es: Seq<EdgeV>, src: Seq<char>, dst: Seq<char>, i: int)
    requires
        0 <= i,
    ensures
        find_edge(es, src, dst, i) matches Some(k) ==> i <= k < es.len() && es[k].src == src
            && es[k].dst == dst,
        find_edge(es, src, dst, i) is None ==> forall|j: int|
            i <= j < es.len() ==> !(#[trigger] es[j].src == src && es[j].dst == dst),
    decreases es.len() - i,
{
    if i < es.len() && !(es[i].src == src && es[i].dst == dst) {
        lemma_find_edge(es, src, dst, i + 1);
    }
}

proof fn lemma_filter_elements(es: Seq<ElementV>, pred: spec_fn(ElementV) -> bool)
    requires
        unique_element_ids(es),
        forall|i: int| 0 <= i < es.len() ==> note_kept(#[trigger] es[i]),
    ensures
        unique_element_ids(es.filter(pred)),
        forall|i: int| 0 <= i < es.filter(pred).len() ==> note_kept(#[trigger] es.filter(pred)[i]),
        forall|i: int|
            0 <= i < es.filter(pred).len() ==> es.contains(#[trigger] es.filter(pred)[i]),
    decreases es.len(),
{
    reveal(Seq::filter);
    if es.len() > 0 {
        let d = es.drop_last();
        lemma_filter_elements(d, pred);
        let sub = d.filter(pred);
        assert forall|i: int| 0 <= i < sub.len() implies es.contains(#[trigger] sub[i]) by {
            let k = choose|k: int| 0 <= k < d.len() && d[k] == sub[i];
            assert(es[k] == sub[i]);
        }
        if pred(es.last()) {
            let r = sub.push(es.last());
            assert forall|i: int, j: int| 0 <= i < j < r.len() implies #[trigger] r[i].id
                != #[trigger] r[j].id by {
                if j == r.len() - 1 {
                    let k = choose|k: int| 0 <= k < d.len() && d[k] == sub[i];
                    assert(es[k] == r[i]);
                    assert(es[es.len() - 1] == r[j]);
                }
            }
            assert forall|i: int| 0 <= i < r.len() implies es.contains(#[trigger] r[i]) by {
                if i == r.len() - 1 {
                    assert(es[es.len() - 1] == r[i]);
                }
            }
        }
    }
}

proof fn lemma_filter_edges(es: Seq<EdgeV>, pred: spec_fn(EdgeV) -> bool)
    requires
        unique_edges(es),
    ensures
        unique_edges(es.filter(pred)),
        forall|i: int| 0 <= i < es.filter(pred).len() ==> es.contains(#[trigger] es.filter(pred)[i]),
    decreases es.len(),
{
    reveal(Seq::filter);
    if es.len() > 0 {
        let d = es.drop_last();
        lemma_filter_edges(d, pred);
        let sub = d.filter(pred);
        assert forall|i: int| 0 <= i < sub.len() implies es.contains(#[trigger] sub[i]) by {
            let k = choose|k: int| 0 <= k < d.len() && d[k] == sub[i];
            assert(es[k] == sub[i]);
        }
        if pred(es.last()) {
            let r = sub.push(es.last());
            assert forall|i: int, j: int| 0 <= i < j < r.len() implies !(#[trigger] r[i].src
                == #[trigger] r[j].src && r[i].dst == r[j].dst) by {
                if j == r.len() - 1 {
                    let k = choose|k: int| 0 <= k < d.len() && d[k] == sub[i];
                    assert(es[k] == r[i]);
                    assert(es[es.len() - 1] == r[j]);
                }
            }
            assert forall|i: int| 0 <= i < r.len() implies es.contains(#[trigger] r[i]) by {
                if i == r.len() - 1 {
                    assert(es[es.len() - 1] == r[i]);
                }
            }
        }
    }
}

proof fn lemma_update_wf(es: Seq<ElementV>, id: Seq<char>, f: spec_fn(ElementV) -> ElementV)
    requires
        unique_element_ids(es),
        forall|i: int| 0 <= i < es.len() ==> note_kept(#[trigger] es[i]),
        forall|e: ElementV| #[trigger] f(e).id == e.id,
        forall|e: ElementV| note_kept(e) ==> note_kept(#[trigger] f(e)),
    ensures
        unique_element_ids(update_element(es, id, f)),
        forall|i: int|
            0 <= i < update_element(es, id, f).len() ==> note_kept(
                #[trigger] update_element(es, id, f)[i],
            ),
{
    lemma_find_element(es, id, 0);
    let r = update_element(es, id, f);
    if let Some(k) = find_element(es, id, 0) {
        assert(f(es[k]).id == es[k].id);
        assert forall|i: int, j: int| 0 <= i < j < r.len() implies #[trigger] r[i].id
            != #[trigger] r[j].id by {
            assert(r[i].id == es[i].id && r[j].id == es[j].id);
        }
        assert forall|i: int| 0 <= i < r.len() implies note_kept(#[trigger] r[i]) by {
            if i == k {
                assert(note_kept(es[k]));
            }
        }
    }
}

/// One event keeps a board well formed.
pub proof fn step_keeps_wf(m: ModelV, w: u32, ev: EventV)
    requires
        board_wf(m),
    ensures
        board_wf(step(m, w, ev).0),
{
    match ev {
        EventV::ElementAdded { id, kind, label, col, detail, y, links } => {
            let e = ElementV { id, kind, label, col, detail, y, resolved: false, links };
            lemma_find_element(m.elements, id, 0);
            let r = add_element_spec(m.elements, e);
            assert forall|i: int, j: int| 0 <= i < j < r.len() implies #[trigger] r[i].id
                != #[trigger] r[j].id by {
                if j == m.elements.len() {
                    assert(m.elements[i].id != id);
                }
            }
            assert forall|i: int| 0 <= i < r.len() implies note_kept(#[trigger] r[i]) by {
                if i < m.elements.len() {
                    assert(r[i] == m.elements[i]);
                }
            }
        },
        EventV::ElementRenamed { id, label } => {
            let f = |e: ElementV| renamed(e, label);
            lemma_update_wf(m.elements, id, f);
        },
        EventV::ElementMoved { id, col, kind, y } => {
            let f = |e: ElementV| moved(e, col, kind, y);
            lemma_update_wf(m.elements, id, f);
        },
        EventV::ElementAnnotated { id, text } => {
            let f = |e: ElementV| annotated(e, text);
            lemma_update_wf(m.elements, id, f);
        },
        EventV::HotspotResolved { id, resolution } => {
            let f = |e: ElementV| resolved_with(e, resolution);
            lemma_update_wf(m.elements, id, f);
        },
        EventV::ElementRemoved { id } => {
            lemma_filter_elements(m.elements, |e: ElementV| e.id != id);
            lemma_filter_edges(m.edges, |e: EdgeV| e.src != id && e.dst != id);
        },
        EventV::EdgeAdded { src, dst, label } => {
            lemma_find_edge(m.edges, src, dst, 0);
            let r = add_edge_spec(m.edges, EdgeV { src, dst, label });
            assert forall|i: int, j: int| 0 <= i < j < r.len() implies !(#[trigger] r[i].src
                == #[trigger] r[j].src && r[i].dst == r[j].dst) by {
                if j == m.edges.len() {
                    assert(!(m.edges[i].src == src && m.edges[i].dst == dst));
                }
            }
        },
        EventV::EdgeRemoved { src, dst } => {
            lemma_filter_edges(m.edges, |e: EdgeV| !(e.src == src && e.dst == dst));
        },
        _ => {},
    }
}

/// Every replayed board is well formed: sticky ids are unique (an `ElementAdded` for a live id
/// changes nothing), edges are unique per `src -> dst`, and a resolved sticky keeps its note.
pub proof fn replay_is_wf(evs: Seq<EventV>)
    ensures
        board_wf(fold_events(evs).0),
        board_wf(replay_spec(evs)),
    decreases evs.len(),
{
    if evs.len() == 0 {
    } else {
        replay_is_wf(evs.drop_last());
        let (m, w) = fold_events(evs.drop_last());
        step_keeps_wf(m, w, evs.last());
    }
}

proof fn lemma_same_ids(ps: Seq<PhaseV>, r: Seq<PhaseV>)
    requires
        unique_phase_ids(ps),
        r.len() == ps.len(),
        forall|k: int| 0 <= k < r.len() ==> (#[trigger] r[k]).id == ps[k].id,
    ensures
        unique_phase_ids(r),
{
    assert forall|i: int, j: int| 0 <= i < j < r.len() implies #[trigger] r[i].id
        != #[trigger] r[j].id by {
        assert(r[i].id == ps[i].id && r[j].id == ps[j].id);
    }
}

proof fn lemma_push_fresh_id(ps: Seq<PhaseV>, p: PhaseV)
    requires
        unique_phase_ids(ps),
        find_phase(ps, p.id, 0) is None,
    ensures
        unique_phase_ids(ps.push(p)),
{
    lemma_find_phase_range(ps, p.id, 0);
    let r = ps.push(p);
    assert forall|i: int, j: int| 0 <= i < j < r.len() implies #[trigger] r[i].id
        != #[trigger] r[j].id by {
        assert(r[i] == ps[i]);
        if j < ps.len() {
            assert(r[j] == ps[j]);
        }
    }
}

proof fn lemma_remove_ids(ps: Seq<PhaseV>, id: Seq<char>)
    requires
        unique_phase_ids(ps),
    ensures
        unique_phase_ids(remove_phase_spec(ps, id)),
{
    if let Some(k) = find_phase(ps, id, 0) {
        lemma_find_phase_range(ps, id, 0);
        let rest = ps.remove(k);
        assert forall|i: int, j: int| 0 <= i < j < rest.len() implies #[trigger] rest[i].id
            != #[trigger] rest[j].id by {
            let a = if i < k { i } else { i + 1 };
            let b = if j < k { j } else { j + 1 };
            assert(rest[i] == ps[a] && rest[j] == ps[b]);
        }
        if rest.len() > 0 {
            let lo = argmin_from(rest, rest.len());
            lemma_argmin_range(rest, rest.len());
            let rem = ps[k];
            let r1 = if rem.from_col <= rest[lo].from_col {
                rest.update(
                    lo,
                    PhaseV {
                        id: rest[lo].id,
                        label: rest[lo].label,
                        from_col: rem.from_col,
                        to_col: rest[lo].to_col,
                    },
                )
            } else {
                rest
            };
            lemma_same_ids(rest, r1);
            let hi = argmax_to(r1, r1.len());
            lemma_argmax_range(r1, r1.len());
            let r2 = if rem.to_col >= r1[hi].to_col {
                r1.update(
                    hi,
                    PhaseV {
                        id: r1[hi].id,
                        label: r1[hi].label,
                        from_col: r1[hi].from_col,
                        to_col: rem.to_col,
                    },
                )
            } else {
                r1
            };
            lemma_same_ids(r1, r2);
        }
    }
}

/// One event keeps region ids unique: a `PhaseAdded` or `PhaseSplit` whose id names a live region
/// adds none, and no other event renames one.
pub proof fn step_keeps_phase_ids_unique(m: ModelV, w: u32, ev: EventV)
    requires
        unique_phase_ids(m.phases),
    ensures
        unique_phase_ids(step(m, w, ev).0.phases),
{
    let ps = m.phases;
    match ev {
        EventV::PhaseAdded { id, label, from_col, to_col } => {
            let rid = resolve_spec(id, w).0;
            if find_phase(ps, rid, 0) is None {
                lemma_push_fresh_id(ps, PhaseV { id: rid, label, from_col, to_col });
            }
        },
        EventV::PhaseResized { id, from_col, to_col } => {
            lemma_find_phase_range(ps, id, 0);
            lemma_same_ids(ps, resize_phase_spec(ps, id, from_col, to_col));
        },
        EventV::PhaseRenamed { id, label } => {
            lemma_find_phase_range(ps, id, 0);
            lemma_same_ids(ps, rename_phase_spec(ps, id, label));
        },
        EventV::PhaseRemoved { id } => {
            lemma_remove_ids(ps, id);
        },
        EventV::FrontierMoved { id, edge, col } => {
            lemma_find_phase_range(ps, id, 0);
            lemma_same_ids(ps, move_frontier_spec(ps, id, edge, col));
        },
        EventV::PhaseSplit { id, at_col, new_id, new_label } => {
            let nid = resolve_spec(Some(new_id), w).0;
            lemma_find_phase_range(ps, id, 0);
            if let Some(i) = find_phase(ps, id, 0) {
                let p = ps[i];
                if p.from_col < at_col && at_col <= p.to_col && find_phase(ps, nid, 0) is None {
                    let u = ps.update(
                        i,
                        PhaseV { id: p.id, label: p.label, from_col: p.from_col, to_col: (at_col - 1) as i64 },
                    );
                    lemma_same_ids(ps, u);
                    lemma_find_phase_range(ps, nid, 0);
                    lemma_find_phase_range(u, nid, 0);
                    if let Some(k) = find_phase(u, nid, 0) {
                        assert(u[k].id == ps[k].id);
                    }
                    lemma_push_fresh_id(
                        u,
                        PhaseV { id: nid, label: new_label, from_col: at_col, to_col: p.to_col },
                    );
                }
            }
        },
        _ => {},
    }
}

proof fn lemma_same_names(ps: Seq<PhaseV>, r: Seq<PhaseV>, x: Seq<char>)
    requires
        r.len() == ps.len(),
        forall|k: int| 0 <= k < r.len() ==> (#[trigger] r[k]).id == ps[k].id,
    ensures
        names_phase(r, x) == names_phase(ps, x),
{
    if names_phase(r, x) {
        let j = choose|j: int| 0 <= j < r.len() && (#[trigger] r[j]).id == x;
        assert(ps[j].id == x);
    }
    if names_phase(ps, x) {
        let j = choose|j: int| 0 <= j < ps.len() && (#[trigger] ps[j]).id == x;
        assert(r[j].id == x);
    }
}

proof fn lemma_remove_names(ps: Seq<PhaseV>, id: Seq<char>, x: Seq<char>)
    requires
        unique_phase_ids(ps),
    ensures
        names_phase(remove_phase_spec(ps, id), x) == (names_phase(ps, x) && x != id),
{
    lemma_find_phase_range(ps, id, 0);
    match find_phase(ps, id, 0) {
        None => {
            if names_phase(ps, x) && x == id {
                let j = choose|j: int| 0 <= j < ps.len() && (#[trigger] ps[j]).id == x;
                assert(ps[j].id != id);
            }
        },
        Some(k) => {
            let rest = ps.remove(k);
            if names_phase(rest, x) {
                let j = choose|j: int| 0 <= j < rest.len() && (#[trigger] rest[j]).id == x;
                let a = if j < k { j } else { j + 1 };
                assert(rest[j] == ps[a]);
                assert(a != k);
                assert(ps[a].id != ps[k].id);
            }
            if names_phase(ps, x) && x != id {
                let j = choose|j: int| 0 <= j < ps.len() && (#[trigger] ps[j]).id == x;
                assert(j != k);
                let b = if j < k { j } else { j - 1 };
                assert(rest[b] == ps[j]);
            }
            if rest.len() > 0 {
                let lo = argmin_from(rest, rest.len());
                lemma_argmin_range(rest, rest.len());
                let rem = ps[k];
                let r1 = if rem.from_col <= rest[lo].from_col {
                    rest.update(
                        lo,
                        PhaseV {
                            id: rest[lo].id,
                            label: rest[lo].label,
                            from_col: rem.from_col,
                            to_col: rest[lo].to_col,
                        },
                    )
                } else {
                    rest
                };
                lemma_same_names(rest, r1, x);
                let hi = argmax_to(r1, r1.len());
                lemma_argmax_range(r1, r1.len());
                let r2 = if rem.to_col >= r1[hi].to_col {
                    r1.update(
                        hi,
                        PhaseV {
                            id: r1[hi].id,
                            label: r1[hi].label,
                            from_col: r1[hi].from_col,
                            to_col: rem.to_col,
                        },
                    )
                } else {
                    r1
                };
                lemma_same_names(r1, r2, x);
            }
        },
    }
}

/// A `PhaseRenamed` for a region on the board relabels that region: after it, the one region
/// with that id carries the new label.
pub proof fn a_region_rename_relabels(evs: Seq<EventV>, id: Seq<char>, label: Seq<char>)
    requires
        evs.len() > 0,
        evs.last() == (EventV::PhaseRenamed { id, label }),
        names_phase(replay_spec(evs.drop_last()).phases, id),
    ensures
        holds_region(replay_spec(evs).phases, id, label),
        forall|j: int|
            0 <= j < replay_spec(evs).phases.len() && (#[trigger] replay_spec(evs).phases[j]).id == id
                ==> replay_spec(evs).phases[j].label == label,
{
    let (m, w) = fold_events(evs.drop_last());
    assert(fold_events(evs) == step(m, w, evs.last()));
    normalize_keeps_regions(m.phases, id, label);
    lemma_find_phase_range(m.phases, id, 0);
    let k = find_phase(m.phases, id, 0)->0;
    let f = fold_events(evs).0.phases;
    assert(f[k].id == id && f[k].label == label);
    normalize_keeps_regions(f, id, label);
    replay_phase_ids_unique(evs);
    let r = replay_spec(evs).phases;
    let q = choose|q: int| 0 <= q < r.len() && (#[trigger] r[q]).id == id && r[q].label == label;
    assert forall|j: int| 0 <= j < r.len() && (#[trigger] r[j]).id == id implies r[j].label == label by {
        if j != q {
            assert(r[j].id != r[q].id);
        }
    }
}

/// A `PhaseRemoved` takes the region off the board and keeps every other one.
pub proof fn a_region_removal_takes_its_region(evs: Seq<EventV>, id: Seq<char>, x: Seq<char>)
    requires
        evs.len() > 0,
        evs.last() == (EventV::PhaseRemoved { id }),
    ensures
        names_phase(replay_spec(evs).phases, x) == (names_phase(replay_spec(evs.drop_last()).phases, x)
            && x != id),
{
    let (m, w) = fold_events(evs.drop_last());
    assert(fold_events(evs) == step(m, w, evs.last()));
    replay_phase_ids_unique(evs.drop_last());
    lemma_remove_names(m.phases, id, x);
    normalize_keeps_regions(m.phases, x, Seq::empty());
    normalize_keeps_regions(fold_events(evs).0.phases, x, Seq::empty());
}

/// A `PhaseAdded` with an id no region has adds that region with its label, and keeps every other
/// region.
pub proof fn a_region_add_adds_its_region(
    evs: Seq<EventV>,
    id: Seq<char>,
    label: Seq<char>,
    from_col: i64,
    to_col: i64,
    x: Seq<char>,
)
    requires
        evs.len() > 0,
        evs.last() == (EventV::PhaseAdded { id: Some(id), label, from_col, to_col }),
        !names_phase(replay_spec(evs.drop_last()).phases, id),
    ensures
        holds_region(replay_spec(evs).phases, id, label),
        x != id ==> names_phase(replay_spec(evs).phases, x) == names_phase(
            replay_spec(evs.drop_last()).phases,
            x,
        ),
{
    let (m, w) = fold_events(evs.drop_last());
    assert(fold_events(evs) == step(m, w, evs.last()));
    normalize_keeps_regions(m.phases, id, label);
    normalize_keeps_regions(m.phases, x, label);
    lemma_find_phase_range(m.phases, id, 0);
    if let Some(k) = find_phase(m.phases, id, 0) {
        assert(names_phase(m.phases, id));
    }
    let f = fold_events(evs).0.phases;
    let p = PhaseV { id, label, from_col, to_col };
    assert(f == m.phases.push(p));
    assert(f[m.phases.len() as int] == p);
    normalize_keeps_regions(f, id, label);
    normalize_keeps_regions(f, x, label);
    if names_phase(f, x) && x != id {
        let j = choose|j: int| 0 <= j < f.len() && (#[trigger] f[j]).id == x;
        assert(m.phases[j] == f[j]);
    }
    if names_phase(m.phases, x) {
        let j = choose|j: int| 0 <= j < m.phases.len() && (#[trigger] m.phases[j]).id == x;
        assert(f[j] == m.phases[j]);
    }
}

/// A `PhaseSplit` that cuts strictly inside a region, into an id no region has, keeps the region
/// and adds the right half under the new id and label.
pub proof fn a_region_split_adds_its_half(
    evs: Seq<EventV>,
    id: Seq<char>,
    at_col: i64,
    new_id: Seq<char>,
    new_label: Seq<char>,
)
    requires
        evs.len() > 0,
        evs.last() == (EventV::PhaseSplit { id, at_col, new_id, new_label }),
        find_phase(fold_events(evs.drop_last()).0.phases, id, 0) matches Some(k) && fold_events(
            evs.drop_last(),
        ).0.phases[k].from_col < at_col && at_col <= fold_events(evs.drop_last()).0.phases[k].to_col,
        !names_phase(replay_spec(evs.drop_last()).phases, new_id),
    ensures
        names_phase(replay_spec(evs).phases, id),
        holds_region(replay_spec(evs).phases, new_id, new_label),
{
    let (m, w) = fold_events(evs.drop_last());
    assert(fold_events(evs) == step(m, w, evs.last()));
    normalize_keeps_regions(m.phases, new_id, new_label);
    lemma_find_phase_range(m.phases, id, 0);
    lemma_find_phase_range(m.phases, new_id, 0);
    if let Some(q) = find_phase(m.phases, new_id, 0) {
        assert(names_phase(m.phases, new_id));
    }
    let k = find_phase(m.phases, id, 0)->0;
    let f = fold_events(evs).0.phases;
    assert(f[k].id == id);
    assert(f[m.phases.len() as int].id == new_id && f[m.phases.len() as int].label == new_label);
    normalize_keeps_regions(f, new_id, new_label);
    normalize_keeps_regions(f, id, new_label);
}

/// A `PhaseResized` or `FrontierMoved` for a region on the board sets the borders it names, before
/// the fold's final projection onto the partition: a resize sets both; a move of the `end` border
/// sets the region's end; a move of the `start` border sets its start when it is the leftmost
/// region, and changes nothing otherwise. Every other region keeps its borders.
pub proof fn a_border_edit_sets_its_border(evs: Seq<EventV>, id: Seq<char>)
    requires
        evs.len() > 0,
        (evs.last() matches EventV::PhaseResized { id: t, .. } && t == id) || (evs.last() matches EventV::FrontierMoved {
            id: t,
            ..
        } && t == id),
        names_phase(fold_events(evs.drop_last()).0.phases, id),
    ensures
        ({
            let before = fold_events(evs.drop_last()).0.phases;
            let after = fold_events(evs).0.phases;
            let k = find_phase(before, id, 0)->0;
            &&& after.len() == before.len()
            &&& 0 <= k < before.len()
            &&& before[k].id == id && after[k].id == id && after[k].label == before[k].label
            &&& (evs.last() matches EventV::PhaseResized { from_col, to_col, .. } ==> after[k].from_col
                == from_col && after[k].to_col == to_col)
            &&& (evs.last() matches EventV::FrontierMoved { edge, col, .. } ==> if edge == "start"@ {
                if forall|q: int| 0 <= q < before.len() ==> before[k].from_col <= #[trigger] before[q].from_col {
                    after[k].from_col == col && after[k].to_col == before[k].to_col
                } else {
                    after[k] == before[k]
                }
            } else {
                after[k].from_col == before[k].from_col && after[k].to_col == col
            })
            &&& forall|q: int| 0 <= q < before.len() && q != k ==> #[trigger] after[q] == before[q]
        }),
{
    let (m, w) = fold_events(evs.drop_last());
    assert(fold_events(evs) == step(m, w, evs.last()));
    let ps = m.phases;
    lemma_find_phase_range(ps, id, 0);
    if find_phase(ps, id, 0) is None {
        let j = choose|j: int| 0 <= j < ps.len() && (#[trigger] ps[j]).id == id;
        assert(ps[j].id != id);
    }
    let k = find_phase(ps, id, 0)->0;
    if ps.len() > 0 {
        lemma_argmin_range(ps, ps.len());
        let lo = argmin_from(ps, ps.len());
        if forall|q: int| 0 <= q < ps.len() ==> ps[k].from_col <= #[trigger] ps[q].from_col {
            assert(ps[k].from_col <= ps[lo].from_col);
            assert(ps[k].from_col == ps[lo].from_col);
        } else {
            let q = choose|q: int| 0 <= q < ps.len() && !(ps[k].from_col <= #[trigger] ps[q].from_col);
            assert(ps[lo].from_col <= ps[q].from_col);
        }
    }
}

/// Whether every `K<n>` region id of a list has its suffix at most `w`.
pub open spec fn suffixes_within(ps: Seq<PhaseV>, w: u32) -> bool {
    forall|i: int| 0 <= i < ps.len() ==> (k_suffix((#[trigger] ps[i]).id) matches Some(n) ==> n <= w)
}

proof fn lemma_suffixes_names(ps: Seq<PhaseV>, r: Seq<PhaseV>, w: u32)
    requires
        suffixes_within(ps, w),
        forall|x: Seq<char>| names_phase(r, x) ==> names_phase(ps, x),
    ensures
        suffixes_within(r, w),
{
    assert forall|i: int| 0 <= i < r.len() implies (k_suffix((#[trigger] r[i]).id) matches Some(n) ==> n <= w) by {
        assert(names_phase(r, r[i].id));
        let j = choose|j: int| 0 <= j < ps.len() && (#[trigger] ps[j]).id == r[i].id;
    }
}

/// One event keeps every region's `K` suffix within the watermark it leaves.
proof fn lemma_step_suffixes(m: ModelV, w: u32, ev: EventV)
    requires
        suffixes_within(m.phases, w),
        unique_phase_ids(m.phases),
    ensures
        suffixes_within(step(m, w, ev).0.phases, step(m, w, ev).1),
        step(m, w, ev).1 >= w,
{
    let ps = m.phases;
    let (m2, w2) = step(m, w, ev);
    let r = m2.phases;
    match ev {
        EventV::PhaseAdded { id, label, from_col, to_col } => {
            let rid = resolve_spec(id, w).0;
            assert forall|i: int| 0 <= i < r.len() implies (k_suffix((#[trigger] r[i]).id) matches Some(n) ==> n <= w2) by {
                if i < ps.len() {
                    assert(r[i] == ps[i]);
                }
            }
        },
        EventV::PhaseSplit { id, at_col, new_id, new_label } => {
            lemma_find_phase_range(ps, id, 0);
            assert forall|i: int| 0 <= i < r.len() implies (k_suffix((#[trigger] r[i]).id) matches Some(n) ==> n <= w2) by {
                if i < ps.len() {
                    assert(r[i].id == ps[i].id);
                }
            }
        },
        EventV::PhaseRemoved { id } => {
            assert forall|x: Seq<char>| names_phase(r, x) implies names_phase(ps, x) by {
                lemma_remove_names(ps, id, x);
            }
            lemma_suffixes_names(ps, r, w);
        },
        EventV::PhaseResized { id, .. } => {
            lemma_find_phase_range(ps, id, 0);
            assert forall|i: int| 0 <= i < r.len() implies (k_suffix((#[trigger] r[i]).id) matches Some(n) ==> n <= w2) by {
                assert(r[i].id == ps[i].id);
            }
        },
        EventV::PhaseRenamed { id, .. } => {
            lemma_find_phase_range(ps, id, 0);
            assert forall|i: int| 0 <= i < r.len() implies (k_suffix((#[trigger] r[i]).id) matches Some(n) ==> n <= w2) by {
                assert(r[i].id == ps[i].id);
            }
        },
        EventV::FrontierMoved { id, .. } => {
            lemma_find_phase_range(ps, id, 0);
            assert forall|i: int| 0 <= i < r.len() implies (k_suffix((#[trigger] r[i]).id) matches Some(n) ==> n <= w2) by {
                assert(r[i].id == ps[i].id);
            }
        },
        _ => {},
    }
}

proof fn lemma_fold_suffixes(evs: Seq<EventV>)
    ensures
        suffixes_within(fold_events(evs).0.phases, fold_events(evs).1),
    decreases evs.len(),
{
    if evs.len() > 0 {
        lemma_fold_suffixes(evs.drop_last());
        replay_phase_ids_unique(evs.drop_last());
        let (m, w) = fold_events(evs.drop_last());
        lemma_step_suffixes(m, w, evs.last());
    }
}

/// A region added without an id gets a fresh one: `K` and one past the watermark of the log
/// before it, a suffix above every region id on the board, so the region is added under that id
/// with its label (while the watermark is below the `u32` bound).
pub proof fn a_minted_region_id_is_fresh(
    evs: Seq<EventV>,
    label: Seq<char>,
    from_col: i64,
    to_col: i64,
)
    requires
        evs.len() > 0,
        evs.last() == (EventV::PhaseAdded { id: None, label, from_col, to_col }),
        watermark(evs.drop_last()) < u32::MAX,
    ensures
        ({
            let w = watermark(evs.drop_last());
            let minted = minted_id(w);
            &&& k_suffix(minted) == Some((w + 1) as u32)
            &&& !names_phase(replay_spec(evs.drop_last()).phases, minted)
            &&& holds_region(replay_spec(evs).phases, minted, label)
        }),
{
    let d = evs.drop_last();
    let w = watermark(d);
    watermark_matches_fold(d);
    lemma_fold_suffixes(d);
    let (m, w0) = fold_events(d);
    assert(w0 == w);
    let minted = minted_id(w);
    let dd = dec_digits((w + 1) as nat);
    assert(((w + 1) % 0x1_0000_0000) as nat == (w + 1) as nat);
    assert(minted =~= seq!['K'] + dd);
    crate::number::lemma_dec_digits_shape((w + 1) as nat);
    crate::number::lemma_digits_val_dec((w + 1) as nat);
    assert(minted.drop_first() =~= dd);
    assert(minted[0] == 'K');
    assert(dd[0] != '+');
    assert(k_suffix(minted) == Some((w + 1) as u32));
    if names_phase(m.phases, minted) {
        let j = choose|j: int| 0 <= j < m.phases.len() && (#[trigger] m.phases[j]).id == minted;
        assert(k_suffix(m.phases[j].id) == Some((w + 1) as u32));
    }
    normalize_keeps_regions(m.phases, minted, label);
    lemma_find_phase_range(m.phases, minted, 0);
    if let Some(k) = find_phase(m.phases, minted, 0) {
        assert(names_phase(m.phases, minted));
    }
    assert(fold_events(evs) == step(m, w, evs.last()));
    let f = fold_events(evs).0.phases;
    assert(f[m.phases.len() as int] == PhaseV { id: minted, label, from_col, to_col });
    normalize_keeps_regions(f, minted, label);
}

/// No two regions of a replayed board share an id, before the final projection and after it.
pub proof fn replay_phase_ids_unique(evs: Seq<EventV>)
    ensures
        unique_phase_ids(fold_events(evs).0.phases),
        unique_phase_ids(replay_spec(evs).phases),
    decreases evs.len(),
{
    if evs.len() > 0 {
        replay_phase_ids_unique(evs.drop_last());
        let (m, w) = fold_events(evs.drop_last());
        step_keeps_phase_ids_unique(m, w, evs.last());
    }
    crate::model::normalize_keeps_ids_unique(fold_events(evs).0.phases);
}

/// The regions of every replayed board are a contiguous partition of the timeline, sorted,
/// gap-free and overlap-free, each at least one column wide; and normalizing them again changes
/// nothing (for boards whose regions stay clear of the `i64::MAX` column).
pub proof fn replay_is_partition(evs: Seq<EventV>)
    requires
        forall|k: int|
            0 <= k < replay_spec(evs).phases.len() ==> (#[trigger] replay_spec(evs).phases[k]).to_col
                < i64::MAX,
    ensures
        is_partition(replay_spec(evs).phases),
        normalize_spec(replay_spec(evs).phases) == replay_spec(evs).phases,
{
    let f = fold_events(evs).0.phases;
    let r = replay_spec(evs).phases;
    assert(r == normalize_spec(f));
    assert forall|k: int| 0 <= k < normalize_spec(f).len() implies (#[trigger] normalize_spec(
        f,
    )[k]).to_col < i64::MAX by {
        assert(r[k] == normalize_spec(f)[k]);
    }
    crate::model::normalize_yields_partition(f);
    crate::model::normalize_idempotent(f);
}


// ---- which stickies a fold leaves on the board ----------------------------------------------

/// Whether a board holds a sticky named `id`.
pub open spec fn present(m: ModelV, id: Seq<char>) -> bool {
    find_element(m.elements, id, 0) is Some
}

proof fn lemma_present_iff(es: Seq<ElementV>, id: Seq<char>)
    ensures
        (find_element(es, id, 0) is Some) <==> exists|k: int| 0 <= k < es.len() && #[trigger] es[k].id == id,
{
    lemma_find_element(es, id, 0);
    if let Some(k) = find_element(es, id, 0) {
        assert(es[k].id == id);
    }
}

proof fn lemma_filter_present(es: Seq<ElementV>, gone: Seq<char>, id: Seq<char>)
    ensures
        (find_element(without_element(es, gone), id, 0) is Some) <==> (id != gone && find_element(es, id, 0) is Some),
{
    let pred = |e: ElementV| e.id != gone;
    let f = es.filter(pred);
    lemma_present_iff(es, id);
    lemma_present_iff(f, id);
    broadcast use vstd::seq_lib::group_filter_ensures;
    if find_element(f, id, 0) is Some {
        let k = choose|k: int| 0 <= k < f.len() && #[trigger] f[k].id == id;
        assert(pred(f[k]));
        assert(f.contains(f[k]));
        es.lemma_filter_contains_rev(pred, f[k]);
        let q = choose|q: int| 0 <= q < es.len() && es[q] == f[k];
        assert(es[q].id == id);
    }
    if id != gone && find_element(es, id, 0) is Some {
        let k = choose|k: int| 0 <= k < es.len() && #[trigger] es[k].id == id;
        assert(pred(es[k]));
        es.lemma_filter_contains(pred, k);
        let q = choose|q: int| 0 <= q < f.len() && f[q] == es[k];
        assert(f[q].id == id);
    }
}

/// Which stickies one event leaves: an `ElementAdded` makes its id present, an `ElementRemoved`
/// makes its id absent, and every other event leaves presence as it was.
pub proof fn presence_step(m: ModelV, w: u32, ev: EventV, id: Seq<char>)
    ensures
        present(step(m, w, ev).0, id) == match ev {
            EventV::ElementAdded { id: added, .. } => added == id || present(m, id),
            EventV::ElementRemoved { id: gone } => gone != id && present(m, id),
            _ => present(m, id),
        },
{
    let es = m.elements;
    lemma_present_iff(es, id);
    match ev {
        EventV::ElementAdded { id: added, kind, label, col, detail, y, links } => {
            let e = ElementV { id: added, kind, label, col, detail, y, resolved: false, links };
            lemma_present_iff(add_element_spec(es, e), id);
            lemma_present_iff(es, added);
            if find_element(es, added, 0) is None {
                let r = es.push(e);
                if added == id {
                    assert(r[es.len() as int].id == id);
                }
                if present(m, id) {
                    let k = choose|k: int| 0 <= k < es.len() && #[trigger] es[k].id == id;
                    assert(r[k].id == id);
                }
            } else if added == id {
                assert(present(m, id));
            }
        },
        EventV::ElementRemoved { id: gone } => {
            lemma_filter_present(es, gone, id);
        },
        EventV::ElementRenamed { id: target, label } => {
            lemma_update_present(es, target, |e: ElementV| renamed(e, label), id);
        },
        EventV::ElementMoved { id: target, col, kind, y } => {
            lemma_update_present(es, target, |e: ElementV| moved(e, col, kind, y), id);
        },
        EventV::ElementAnnotated { id: target, text } => {
            lemma_update_present(es, target, |e: ElementV| annotated(e, text), id);
        },
        EventV::HotspotResolved { id: target, resolution } => {
            lemma_update_present(es, target, |e: ElementV| resolved_with(e, resolution), id);
        },
        _ => {},
    }
}

/// An `ElementMoved` for a sticky on the board relocates exactly that sticky: it keeps its place
/// in the list, takes each part the move names (its lane, its column, its sub-position) and keeps
/// the parts the move leaves out, and every other sticky is untouched.
pub proof fn a_move_relocates_its_sticky(
    evs: Seq<EventV>,
    id: Seq<char>,
    col: Option<i64>,
    kind: Option<Lane>,
    y: Option<Number>,
)
    requires
        evs.len() > 0,
        evs.last() == (EventV::ElementMoved { id, col, kind, y }),
        present(fold_events(evs.drop_last()).0, id),
    ensures
        ({
            let before = fold_events(evs.drop_last()).0.elements;
            let after = replay_spec(evs).elements;
            let k = find_element(before, id, 0)->0;
            &&& after.len() == before.len()
            &&& 0 <= k < before.len()
            &&& before[k].id == id
            &&& after[k].id == id
            &&& after[k].kind == (if kind is Some { kind->0 } else { before[k].kind })
            &&& after[k].col == (if col is Some { col } else { before[k].col })
            &&& after[k].y == (if y is Some { y } else { before[k].y })
            &&& after[k].label == before[k].label
            &&& after[k].detail == before[k].detail
            &&& after[k].resolved == before[k].resolved
            &&& after[k].links == before[k].links
            &&& forall|q: int| 0 <= q < before.len() && q != k ==> #[trigger] after[q] == before[q]
        }),
{
    let before = fold_events(evs.drop_last()).0.elements;
    lemma_find_element(before, id, 0);
    let (m, w) = fold_events(evs.drop_last());
    assert(fold_events(evs) == step(m, w, evs.last()));
}

/// An `ElementRenamed`, `ElementAnnotated` or `HotspotResolved` for a sticky on the board edits
/// exactly that sticky: a rename sets its label, an annotation sets its note, a resolution marks it
/// resolved with the resolution as its note; every other part of it, and every other sticky, stays.
pub proof fn an_edit_touches_only_its_sticky(evs: Seq<EventV>, id: Seq<char>)
    requires
        evs.len() > 0,
        (evs.last() matches EventV::ElementRenamed { id: t, .. } && t == id)
            || (evs.last() matches EventV::ElementAnnotated { id: t, .. } && t == id)
            || (evs.last() matches EventV::HotspotResolved { id: t, .. } && t == id),
        present(fold_events(evs.drop_last()).0, id),
    ensures
        ({
            let before = fold_events(evs.drop_last()).0.elements;
            let after = replay_spec(evs).elements;
            let k = find_element(before, id, 0)->0;
            &&& after.len() == before.len()
            &&& 0 <= k < before.len()
            &&& before[k].id == id
            &&& after[k].id == id
            &&& after[k].kind == before[k].kind
            &&& after[k].col == before[k].col
            &&& after[k].y == before[k].y
            &&& after[k].links == before[k].links
            &&& (evs.last() matches EventV::ElementRenamed { label, .. } ==> after[k].label == label
                && after[k].detail == before[k].detail && after[k].resolved == before[k].resolved)
            &&& (evs.last() matches EventV::ElementAnnotated { text, .. } ==> after[k].label
                == before[k].label && after[k].detail == Some(text) && after[k].resolved
                == before[k].resolved)
            &&& (evs.last() matches EventV::HotspotResolved { resolution, .. } ==> after[k].label
                == before[k].label && after[k].detail == Some(resolution) && after[k].resolved)
            &&& forall|q: int| 0 <= q < before.len() && q != k ==> #[trigger] after[q] == before[q]
        }),
{
    let before = fold_events(evs.drop_last()).0.elements;
    lemma_find_element(before, id, 0);
    let (m, w) = fold_events(evs.drop_last());
    assert(fold_events(evs) == step(m, w, evs.last()));
}

/// An `ElementAdded` for an id not on the board appends exactly the sticky it describes, not
/// resolved; one for an id already there changes nothing.
pub proof fn an_add_appends_its_sticky(
    evs: Seq<EventV>,
    id: Seq<char>,
    kind: Lane,
    label: Seq<char>,
    col: Option<i64>,
    detail: Option<Seq<char>>,
    y: Option<Number>,
    links: Seq<Seq<char>>,
)
    requires
        evs.len() > 0,
        evs.last() == (EventV::ElementAdded { id, kind, label, col, detail, y, links }),
    ensures
        ({
            let before = fold_events(evs.drop_last()).0.elements;
            let after = replay_spec(evs).elements;
            &&& !present(fold_events(evs.drop_last()).0, id) ==> after == before.push(
                ElementV { id, kind, label, col, detail, y, resolved: false, links },
            )
            &&& present(fold_events(evs.drop_last()).0, id) ==> after == before
        }),
{
    let (m, w) = fold_events(evs.drop_last());
    assert(fold_events(evs) == step(m, w, evs.last()));
}

/// An `ElementRemoved` takes the sticky off the board with every edge touching it, and keeps every
/// other sticky and edge.
pub proof fn a_removal_takes_its_sticky_and_edges(evs: Seq<EventV>, id: Seq<char>)
    requires
        evs.len() > 0,
        evs.last() == (EventV::ElementRemoved { id }),
    ensures
        ({
            let before = fold_events(evs.drop_last()).0;
            let after = replay_spec(evs);
            &&& forall|e: ElementV| #[trigger] after.elements.contains(e) <==> (before.elements.contains(e)
                && e.id != id)
            &&& forall|e: EdgeV| #[trigger] after.edges.contains(e) <==> (before.edges.contains(e)
                && e.src != id && e.dst != id)
        }),
{
    broadcast use vstd::seq_lib::group_filter_ensures;

    let (m, w) = fold_events(evs.drop_last());
    assert(fold_events(evs) == step(m, w, evs.last()));
    let ep = |e: ElementV| e.id != id;
    let dp = |e: EdgeV| e.src != id && e.dst != id;
    assert forall|e: ElementV| #[trigger] m.elements.filter(ep).contains(e) <==> (m.elements.contains(e)
        && e.id != id) by {
        let f = m.elements.filter(ep);
        if f.contains(e) {
            m.elements.lemma_filter_contains_rev(ep, e);
            let i = choose|i: int| 0 <= i < f.len() && f[i] == e;
            m.elements.lemma_filter_pred(ep, i);
        }
        if m.elements.contains(e) && ep(e) {
            let i = choose|i: int| 0 <= i < m.elements.len() && m.elements[i] == e;
            m.elements.lemma_filter_contains(ep, i);
        }
    }
    assert forall|e: EdgeV| #[trigger] m.edges.filter(dp).contains(e) <==> (m.edges.contains(e)
        && e.src != id && e.dst != id) by {
        let f = m.edges.filter(dp);
        if f.contains(e) {
            m.edges.lemma_filter_contains_rev(dp, e);
            let i = choose|i: int| 0 <= i < f.len() && f[i] == e;
            m.edges.lemma_filter_pred(dp, i);
        }
        if m.edges.contains(e) && dp(e) {
            let i = choose|i: int| 0 <= i < m.edges.len() && m.edges[i] == e;
            m.edges.lemma_filter_contains(dp, i);
        }
    }
}

/// An `EdgeAdded` appends the edge when `src -> dst` is not yet on the board and changes nothing
/// when it is; an `EdgeRemoved` takes `src -> dst` off and keeps every other edge.
pub proof fn an_edge_event_sets_its_edge(evs: Seq<EventV>, src: Seq<char>, dst: Seq<char>)
    requires
        evs.len() > 0,
        (evs.last() matches EventV::EdgeAdded { src: s, dst: d, .. } && s == src && d == dst)
            || (evs.last() matches EventV::EdgeRemoved { src: s, dst: d } && s == src && d == dst),
    ensures
        ({
            let before = fold_events(evs.drop_last()).0.edges;
            let after = replay_spec(evs).edges;
            &&& (evs.last() matches EventV::EdgeAdded { label, .. } ==> (if find_edge(before, src, dst, 0) is None {
                after == before.push(EdgeV { src, dst, label })
            } else {
                after == before
            }))
            &&& (evs.last() is EdgeRemoved ==> forall|e: EdgeV| #[trigger] after.contains(e) <==> (
                before.contains(e) && !(e.src == src && e.dst == dst)))
        }),
{
    broadcast use vstd::seq_lib::group_filter_ensures;

    let (m, w) = fold_events(evs.drop_last());
    assert(fold_events(evs) == step(m, w, evs.last()));
    let dp = |e: EdgeV| !(e.src == src && e.dst == dst);
    assert forall|e: EdgeV| #[trigger] m.edges.filter(dp).contains(e) <==> (m.edges.contains(e)
        && !(e.src == src && e.dst == dst)) by {
        let f = m.edges.filter(dp);
        if f.contains(e) {
            m.edges.lemma_filter_contains_rev(dp, e);
            let i = choose|i: int| 0 <= i < f.len() && f[i] == e;
            m.edges.lemma_filter_pred(dp, i);
        }
        if m.edges.contains(e) && dp(e) {
            let i = choose|i: int| 0 <= i < m.edges.len() && m.edges[i] == e;
            m.edges.lemma_filter_contains(dp, i);
        }
    }
}

/// A `BoardLeveled` sets the board's level; a `BoardFormat` naming a format this build projects
/// sets the format, and one naming another changes nothing; a `LogCompacted` marker changes
/// nothing at all.
pub proof fn a_header_event_sets_the_header(evs: Seq<EventV>)
    requires
        evs.len() > 0,
    ensures
        evs.last() matches EventV::BoardLeveled { level } ==> replay_spec(evs) == (ModelV {
            level: level_of(level),
            ..replay_spec(evs.drop_last())
        }),
        evs.last() matches EventV::BoardFormat { format } ==> replay_spec(evs) == (if format_of(format) is Some {
            ModelV { format: format_of(format)->0, ..replay_spec(evs.drop_last()) }
        } else {
            replay_spec(evs.drop_last())
        }),
        evs.last() is LogCompacted ==> replay_spec(evs) == replay_spec(evs.drop_last()),
{
    let (m, w) = fold_events(evs.drop_last());
    assert(fold_events(evs) == step(m, w, evs.last()));
}

/// A `BoardTitled` sets the board's title.
pub proof fn a_title_event_sets_the_title(evs: Seq<EventV>, title: Seq<char>)
    requires
        evs.len() > 0,
        evs.last() == (EventV::BoardTitled { title }),
    ensures
        replay_spec(evs).title == title,
{
    let (m, w) = fold_events(evs.drop_last());
    assert(fold_events(evs) == step(m, w, evs.last()));
}

proof fn lemma_update_present(es: Seq<ElementV>, target: Seq<char>, f: spec_fn(ElementV) -> ElementV, id: Seq<char>)
    requires
        forall|e: ElementV| #[trigger] f(e).id == e.id,
    ensures
        (find_element(update_element(es, target, f), id, 0) is Some) == (find_element(es, id, 0) is Some),
{
    let r = update_element(es, target, f);
    lemma_find_element(es, target, 0);
    lemma_present_iff(es, id);
    lemma_present_iff(r, id);
    assert(r.len() == es.len());
    assert forall|k: int| 0 <= k < es.len() implies #[trigger] r[k].id == es[k].id by {
        if let Some(j) = find_element(es, target, 0) {
            if k == j {
                assert(f(es[j]).id == es[j].id);
            }
        }
    }
    if find_element(r, id, 0) is Some {
        let k = choose|k: int| 0 <= k < r.len() && #[trigger] r[k].id == id;
        assert(es[k].id == id);
    }
    if find_element(es, id, 0) is Some {
        let k = choose|k: int| 0 <= k < es.len() && #[trigger] es[k].id == id;
        assert(r[k].id == id);
    }
}


// ---- labels never go blank ------------------------------------------------------------------

/// Whether a label carries content once trimmed.
pub open spec fn nonblank_label(l: Seq<char>) -> bool {
    crate::text::trim(l).len() > 0
}

/// Every sticky on the board has a label with content.
pub open spec fn labels_nonblank(m: ModelV) -> bool {
    forall|i: int| 0 <= i < m.elements.len() ==> nonblank_label(#[trigger] m.elements[i].label)
}

/// Whether an event that sets a sticky's label sets one with content.
pub open spec fn labels_ok(ev: EventV) -> bool {
    match ev {
        EventV::ElementAdded { label, .. } => nonblank_label(label),
        EventV::ElementRenamed { label, .. } => nonblank_label(label),
        _ => true,
    }
}

proof fn lemma_update_labels(es: Seq<ElementV>, target: Seq<char>, f: spec_fn(ElementV) -> ElementV)
    requires
        forall|i: int| 0 <= i < es.len() ==> nonblank_label(#[trigger] es[i].label),
        forall|e: ElementV| nonblank_label(e.label) ==> nonblank_label(#[trigger] f(e).label),
    ensures
        forall|i: int|
            0 <= i < update_element(es, target, f).len() ==> nonblank_label(
                #[trigger] update_element(es, target, f)[i].label,
            ),
{
    lemma_find_element(es, target, 0);
}

/// An event whose labels have content keeps every label on the board non-blank.
pub proof fn step_keeps_labels(m: ModelV, w: u32, ev: EventV)
    requires
        labels_nonblank(m),
        labels_ok(ev),
    ensures
        labels_nonblank(step(m, w, ev).0),
{
    let es = m.elements;
    match ev {
        EventV::ElementAdded { id, kind, label, col, detail, y, links } => {
            let e = ElementV { id, kind, label, col, detail, y, resolved: false, links };
            let r = add_element_spec(es, e);
            assert forall|i: int| 0 <= i < r.len() implies nonblank_label(#[trigger] r[i].label) by {
                if i < es.len() {
                    assert(r[i] == es[i]);
                }
            }
        },
        EventV::ElementRenamed { id, label } => {
            lemma_update_labels(es, id, |e: ElementV| renamed(e, label));
        },
        EventV::ElementMoved { id, col, kind, y } => {
            lemma_update_labels(es, id, |e: ElementV| moved(e, col, kind, y));
        },
        EventV::ElementAnnotated { id, text } => {
            lemma_update_labels(es, id, |e: ElementV| annotated(e, text));
        },
        EventV::HotspotResolved { id, resolution } => {
            lemma_update_labels(es, id, |e: ElementV| resolved_with(e, resolution));
        },
        EventV::ElementRemoved { id } => {
            let pred = |e: ElementV| e.id != id;
            let f = es.filter(pred);
            broadcast use vstd::seq_lib::group_filter_ensures;
            assert forall|i: int| 0 <= i < f.len() implies nonblank_label(#[trigger] f[i].label) by {
                assert(f.contains(f[i]));
                es.lemma_filter_contains_rev(pred, f[i]);
                let q = choose|q: int| 0 <= q < es.len() && es[q] == f[i];
                assert(nonblank_label(es[q].label));
            }
        },
        _ => {},
    }
}

/// Folding events whose labels have content keeps every label on the board non-blank.
pub proof fn fold_keeps_labels(s: (ModelV, u32), evs: Seq<EventV>)
    requires
        labels_nonblank(s.0),
        forall|i: int| 0 <= i < evs.len() ==> labels_ok(#[trigger] evs[i]),
    ensures
        labels_nonblank(fold_from(s, evs).0),
    decreases evs.len(),
{
    if evs.len() > 0 {
        let d = evs.drop_last();
        assert forall|i: int| 0 <= i < d.len() implies labels_ok(#[trigger] d[i]) by {
            assert(d[i] == evs[i]);
        }
        fold_keeps_labels(s, d);
        let st = fold_from(s, d);
        assert(labels_ok(evs[evs.len() - 1]));
        step_keeps_labels(st.0, st.1, evs.last());
    }
}

// ---- columns in range ---------------------------------------------------------------------------

/// Whether the region columns an event sets lie in `[-b, b]`.
pub open spec fn event_cols_within(ev: EventV, b: int) -> bool {
    match ev {
        EventV::PhaseAdded { from_col, to_col, .. } => -b <= from_col <= b && -b <= to_col <= b,
        EventV::PhaseResized { from_col, to_col, .. } => -b <= from_col <= b && -b <= to_col <= b,
        EventV::FrontierMoved { col, .. } => -b <= col <= b,
        EventV::PhaseSplit { at_col, .. } => -b <= at_col <= b,
        _ => true,
    }
}

proof fn lemma_update_within(ps: Seq<PhaseV>, k: int, p: PhaseV, lo: int, hi: int)
    requires
        0 <= k < ps.len(),
        cols_within(ps, lo, hi),
        lo <= p.from_col <= hi,
        lo <= p.to_col <= hi,
    ensures
        cols_within(ps.update(k, p), lo, hi),
{
    let u = ps.update(k, p);
    assert forall|j: int| 0 <= j < u.len() implies lo <= #[trigger] u[j].from_col && u[j].from_col
        <= hi && lo <= u[j].to_col && u[j].to_col <= hi by {
        if j != k {
            assert(u[j] == ps[j]);
            assert(lo <= ps[j].from_col);
        }
    }
}

proof fn lemma_remove_within(ps: Seq<PhaseV>, id: Seq<char>, lo: int, hi: int)
    requires
        cols_within(ps, lo, hi),
    ensures
        cols_within(remove_phase_spec(ps, id), lo, hi),
        remove_phase_spec(ps, id).len() <= ps.len(),
{
    lemma_find_phase_range(ps, id, 0);
    if let Some(k) = find_phase(ps, id, 0) {
        let rem = ps[k];
        assert(lo <= ps[k].from_col);
        let rest = ps.remove(k);
        assert forall|j: int| 0 <= j < rest.len() implies lo <= #[trigger] rest[j].from_col
            && rest[j].from_col <= hi && lo <= rest[j].to_col && rest[j].to_col <= hi by {
            if j < k {
                assert(rest[j] == ps[j]);
                assert(lo <= ps[j].from_col);
            } else {
                assert(rest[j] == ps[j + 1]);
                assert(lo <= ps[j + 1].from_col);
            }
        }
        if rest.len() > 0 {
            let lo_i = argmin_from(rest, rest.len());
            lemma_argmin_range(rest, rest.len());
            assert(lo <= rest[lo_i].from_col);
            let r1 = if rem.from_col <= rest[lo_i].from_col {
                let p = PhaseV {
                    id: rest[lo_i].id,
                    label: rest[lo_i].label,
                    from_col: rem.from_col,
                    to_col: rest[lo_i].to_col,
                };
                lemma_update_within(rest, lo_i, p, lo, hi);
                rest.update(lo_i, p)
            } else {
                rest
            };
            let hi_i = argmax_to(r1, r1.len());
            lemma_argmax_range(r1, r1.len());
            assert(lo <= r1[hi_i].from_col);
            if rem.to_col >= r1[hi_i].to_col {
                let p = PhaseV {
                    id: r1[hi_i].id,
                    label: r1[hi_i].label,
                    from_col: r1[hi_i].from_col,
                    to_col: rem.to_col,
                };
                lemma_update_within(r1, hi_i, p, lo, hi);
            }
        }
    }
}

/// One event keeps every region border in `[-b - 1, b]` when the event's own columns lie in
/// `[-b, b]` (a split's left half ends one before its cut), and adds at most one region.
proof fn lemma_step_within(m: ModelV, w: u32, ev: EventV, b: int)
    requires
        b >= 0,
        cols_within(m.phases, -b - 1, b),
        event_cols_within(ev, b),
    ensures
        cols_within(step(m, w, ev).0.phases, -b - 1, b),
        step(m, w, ev).0.phases.len() <= m.phases.len() + 1,
{
    let ps = m.phases;
    let lo = -b - 1;
    match ev {
        EventV::PhaseAdded { id, label, from_col, to_col } => {
            let (rid, w2) = resolve_spec(id, w);
            if find_phase(ps, rid, 0) is None {
                let p = PhaseV { id: rid, label, from_col, to_col };
                let n = ps.push(p);
                assert forall|j: int| 0 <= j < n.len() implies lo <= #[trigger] n[j].from_col
                    && n[j].from_col <= b && lo <= n[j].to_col && n[j].to_col <= b by {
                    if j < ps.len() {
                        assert(n[j] == ps[j]);
                        assert(lo <= ps[j].from_col);
                    }
                }
            }
        },
        EventV::PhaseResized { id, from_col, to_col } => {
            lemma_find_phase_range(ps, id, 0);
            if let Some(k) = find_phase(ps, id, 0) {
                lemma_update_within(ps, k, PhaseV { id: ps[k].id, label: ps[k].label, from_col, to_col }, lo, b);
            }
        },
        EventV::PhaseRenamed { id, label } => {
            lemma_find_phase_range(ps, id, 0);
            if let Some(k) = find_phase(ps, id, 0) {
                assert(lo <= ps[k].from_col);
                lemma_update_within(
                    ps,
                    k,
                    PhaseV { id: ps[k].id, label, from_col: ps[k].from_col, to_col: ps[k].to_col },
                    lo,
                    b,
                );
            }
        },
        EventV::PhaseRemoved { id } => {
            lemma_remove_within(ps, id, lo, b);
        },
        EventV::FrontierMoved { id, edge, col } => {
            lemma_find_phase_range(ps, id, 0);
            if let Some(k) = find_phase(ps, id, 0) {
                assert(lo <= ps[k].from_col);
                lemma_update_within(
                    ps,
                    k,
                    PhaseV { id: ps[k].id, label: ps[k].label, from_col: col, to_col: ps[k].to_col },
                    lo,
                    b,
                );
                lemma_update_within(
                    ps,
                    k,
                    PhaseV { id: ps[k].id, label: ps[k].label, from_col: ps[k].from_col, to_col: col },
                    lo,
                    b,
                );
            }
        },
        EventV::PhaseSplit { id, at_col, new_id, new_label } => {
            let (nid, w2) = resolve_spec(Some(new_id), w);
            lemma_find_phase_range(ps, id, 0);
            if let Some(i) = find_phase(ps, id, 0) {
                let p = ps[i];
                assert(lo <= ps[i].from_col);
                if p.from_col < at_col && at_col <= p.to_col {
                    let left = PhaseV { id: p.id, label: p.label, from_col: p.from_col, to_col: (at_col - 1) as i64 };
                    lemma_update_within(ps, i, left, lo, b);
                    let u = ps.update(i, left);
                    let right = PhaseV { id: nid, label: new_label, from_col: at_col, to_col: p.to_col };
                    let n = u.push(right);
                    assert forall|j: int| 0 <= j < n.len() implies lo <= #[trigger] n[j].from_col
                        && n[j].from_col <= b && lo <= n[j].to_col && n[j].to_col <= b by {
                        if j < u.len() {
                            assert(n[j] == u[j]);
                            assert(lo <= u[j].from_col);
                        }
                    }
                }
            }
        },
        _ => {},
    }
}

proof fn lemma_fold_within(s: (ModelV, u32), evs: Seq<EventV>, b: int)
    requires
        b >= 0,
        cols_within(s.0.phases, -b - 1, b),
        forall|i: int| 0 <= i < evs.len() ==> event_cols_within(#[trigger] evs[i], b),
    ensures
        cols_within(fold_from(s, evs).0.phases, -b - 1, b),
        fold_from(s, evs).0.phases.len() <= s.0.phases.len() + evs.len(),
    decreases evs.len(),
{
    if evs.len() > 0 {
        let d = evs.drop_last();
        assert forall|i: int| 0 <= i < d.len() implies event_cols_within(#[trigger] d[i], b) by {
            assert(d[i] == evs[i]);
        }
        lemma_fold_within(s, d, b);
        let (m, w) = fold_from(s, d);
        assert(evs.last() == evs[evs.len() - 1]);
        lemma_step_within(m, w, evs.last(), b);
    }
}

/// The regions of a board replayed from a log whose region columns lie in `[-b, b]` end at most
/// `b` plus the number of events.
pub proof fn replay_cols_bounded(evs: Seq<EventV>, b: int)
    requires
        b >= 0,
        forall|i: int| 0 <= i < evs.len() ==> event_cols_within(#[trigger] evs[i], b),
    ensures
        forall|k: int|
            0 <= k < replay_spec(evs).phases.len() ==> (#[trigger] replay_spec(evs).phases[k]).to_col
                <= b + evs.len(),
{
    assert(cols_within(empty_model().phases, -b - 1, b));
    lemma_fold_within((empty_model(), 0), evs, b);
    normalize_stays_near(fold_events(evs).0.phases, -b - 1, b);
}

/// Every board replayed from a log whose region columns lie in `[-b, b]`, with `b` plus the number
/// of events below `i64::MAX`, has its regions as a contiguous partition (sorted, gap-free,
/// overlap-free, each at least one column wide), and normalizing them again changes nothing.
pub proof fn replay_is_partition_within(evs: Seq<EventV>, b: int)
    requires
        b >= 0,
        b + evs.len() < i64::MAX,
        forall|i: int| 0 <= i < evs.len() ==> event_cols_within(#[trigger] evs[i], b),
    ensures
        is_partition(replay_spec(evs).phases),
        normalize_spec(replay_spec(evs).phases) == replay_spec(evs).phases,
{
    replay_cols_bounded(evs, b);
    replay_is_partition(evs);
}

} // verus!
