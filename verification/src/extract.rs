//! Semantic sub-board extraction: carve a smaller board out of a bigger one by meaning (a region,
//! a bounded neighbourhood around one sticky, a lane), not by geometry.
//!
//! Ids are preserved, never renumbered, so the sub-board diffs cleanly against the board it came
//! from; columns are preserved too, an implicit one written out where the board draws it. An edge
//! with an end outside the selection is dropped.

use crate::model::{
    edges_view, elements_view, lane_wire, normalize, normalize_spec, phases_view, resolved_col,
    resolved_cols, is_partition, normalize_yields_partition, Edge, EdgeV, Element, ElementV, Model,
    ModelV, Phase, PhaseV,
};
use crate::number::{dec_digits, push_dec};
use crate::lint::has_id;
use crate::replay::find_phase;
use crate::text::{chars_of, str_eq, string_of};
use vstd::prelude::*;

verus! {

broadcast use vstd::string::group_string_axioms;

/// Which part of the board to carve out (exactly one per run).
#[derive(Clone, PartialEq, Debug)]
pub enum Selector {
    /// Every sticky whose column falls inside the named region's band.
    Region(String),
    /// The sticky `id` plus everything within `hops` edges of it, following edges either way.
    Focus { id: String, hops: usize },
    /// Every sticky in one lane, named by its wire string (`event`, `hotspot`, ...).
    Kind(String),
}

/// What a selector denotes.
pub enum SelectorV {
    Region(Seq<char>),
    Focus { id: Seq<char>, hops: nat },
    Kind(Seq<char>),
}

impl View for Selector {
    type V = SelectorV;

    open spec fn view(&self) -> SelectorV {
        match *self {
            Selector::Region(id) => SelectorV::Region(id@),
            Selector::Focus { id, hops } => SelectorV::Focus { id: id@, hops: hops as nat },
            Selector::Kind(k) => SelectorV::Kind(k@),
        }
    }
}

/// The label of a selection: `region K2`, `E4 + 2 hops` (`hop` for one), `event lane`.
pub open spec fn label_spec(sel: SelectorV) -> Seq<char> {
    match sel {
        SelectorV::Region(id) => "region "@ + id,
        SelectorV::Focus { id, hops } => id + " + "@ + dec_digits(hops) + (if hops == 1 {
            " hop"@
        } else {
            " hops"@
        }),
        SelectorV::Kind(k) => k + " lane"@,
    }
}

/// An ASCII letter or digit.
pub open spec fn is_ascii_alnum(c: char) -> bool {
    ('0' <= c && c <= '9') || ('a' <= c && c <= 'z') || ('A' <= c && c <= 'Z')
}

/// The file-name fragment of a selection: its id, `<id>-h<hops>`, or its lane, with every
/// character that is not an ASCII letter or digit replaced by `-`.
pub open spec fn slug_spec(sel: SelectorV) -> Seq<char> {
    slug_spec_raw(sel).map_values(|c: char| if is_ascii_alnum(c) { c } else { '-' })
}

fn append_str(v: &mut Vec<char>, s: &str)
    ensures
        final(v)@ == old(v)@ + s@,
{
    let mut w = chars_of(s);
    v.append(&mut w);
}

impl Selector {
    /// A calm human label for the extracted board's title.
    pub fn label(&self) -> (s: String)
        ensures
            s@ == label_spec(self@),
    {
        let mut v: Vec<char> = Vec::new();
        match self {
            Selector::Region(id) => {
                append_str(&mut v, "region ");
                append_str(&mut v, id.as_str());
            },
            Selector::Focus { id, hops } => {
                append_str(&mut v, id.as_str());
                append_str(&mut v, " + ");
                push_dec(*hops as u64, &mut v);
                if *hops == 1 {
                    append_str(&mut v, " hop");
                } else {
                    append_str(&mut v, " hops");
                }
            },
            Selector::Kind(k) => {
                append_str(&mut v, k.as_str());
                append_str(&mut v, " lane");
            },
        }
        assert(v@ =~= label_spec(self@));
        string_of(&v)
    }

    /// The file-name fragment appended to the source's board name: short and free of path
    /// separators or spaces, so the result is a plain sibling file.
    pub fn slug(&self) -> (s: String)
        ensures
            s@ == slug_spec(self@),
    {
        let mut raw: Vec<char> = Vec::new();
        match self {
            Selector::Region(id) => {
                append_str(&mut raw, id.as_str());
            },
            Selector::Focus { id, hops } => {
                append_str(&mut raw, id.as_str());
                append_str(&mut raw, "-h");
                push_dec(*hops as u64, &mut raw);
            },
            Selector::Kind(k) => {
                append_str(&mut raw, k.as_str());
            },
        }
        let ghost r = raw@;
        let mut out: Vec<char> = Vec::new();
        let mut i: usize = 0;
        while i < raw.len()
            invariant
                i <= raw.len(),
                r == raw@,
                out@ == r.take(i as int).map_values(
                    |c: char|
                        if is_ascii_alnum(c) {
                            c
                        } else {
                            '-'
                        },
                ),
            decreases raw.len() - i,
        {
            let c = raw[i];
            let keep = ('0' <= c && c <= '9') || ('a' <= c && c <= 'z') || ('A' <= c && c <= 'Z');
            out.push(if keep { c } else { '-' });
            i = i + 1;
            assert(out@ =~= r.take(i as int).map_values(
                |c: char|
                    if is_ascii_alnum(c) {
                        c
                    } else {
                        '-'
                    },
            ));
        }
        assert(r.take(raw.len() as int) =~= r);
        assert(r =~= slug_spec_raw(self@));
        string_of(&out)
    }
}

pub open spec fn slug_spec_raw(sel: SelectorV) -> Seq<char> {
    match sel {
        SelectorV::Region(id) => id,
        SelectorV::Focus { id, hops } => id + "-h"@ + dec_digits(hops),
        SelectorV::Kind(k) => k,
    }
}


// ---- what a selector picks out ----------------------------------------------------------------

/// Whether the list `v` holds the id `x`.
pub open spec fn listed(v: Seq<String>, x: Seq<char>) -> bool {
    exists|j: int| 0 <= j < v.len() && #[trigger] v[j]@ == x
}

/// The ids of the stickies whose column (as the board resolves it) falls in `[from, to]`.
pub open spec fn region_ids(es: Seq<ElementV>, from: i64, to: i64) -> Set<Seq<char>> {
    Set::new(
        |id: Seq<char>|
            exists|k: int|
                0 <= k < es.len() && #[trigger] es[k].id == id && from <= resolved_col(es, k) <= to,
    )
}

/// The ids of the stickies whose lane's wire string is `kind`.
pub open spec fn kind_ids(es: Seq<ElementV>, kind: Seq<char>) -> Set<Seq<char>> {
    Set::new(
        |id: Seq<char>|
            exists|k: int| 0 <= k < es.len() && #[trigger] es[k].id == id && lane_wire(es[k].kind) == kind,
    )
}

/// Whether edge `k` is real: no self-loop, and both ends on the board.
pub open spec fn real_edge(m: ModelV, k: int) -> bool {
    m.edges[k].src != m.edges[k].dst && has_id(m.elements, m.edges[k].src) && has_id(
        m.elements,
        m.edges[k].dst,
    )
}

/// The ids one real edge (among the first `j`) away from a set, either way.
pub open spec fn neighbours_upto(m: ModelV, r: Set<Seq<char>>, j: int) -> Set<Seq<char>> {
    Set::new(
        |y: Seq<char>|
            exists|k: int|
                0 <= k < j && #[trigger] real_edge(m, k) && ((r.contains(m.edges[k].src)
                    && m.edges[k].dst == y) || (r.contains(m.edges[k].dst) && m.edges[k].src == y)),
    )
}

/// The ids within `h` real edges of `start`, following edges either way.
pub open spec fn reach(m: ModelV, start: Seq<char>, h: nat) -> Set<Seq<char>>
    decreases h,
{
    if h == 0 {
        set![start]
    } else {
        let r = reach(m, start, (h - 1) as nat);
        r.union(neighbours_upto(m, r, m.edges.len() as int))
    }
}

/// Once a walk stops growing it never grows again.
proof fn lemma_reach_fixpoint(m: ModelV, start: Seq<char>, h: nat, h2: nat)
    requires
        h <= h2,
        reach(m, start, h + 1) == reach(m, start, h),
    ensures
        reach(m, start, h2) == reach(m, start, h),
    decreases h2 - h,
{
    if h2 > h {
        lemma_reach_fixpoint(m, start, h, (h2 - 1) as nat);
        assert(reach(m, start, h2) == reach(m, start, (h2 - 1) as nat).union(
            neighbours_upto(m, reach(m, start, (h2 - 1) as nat), m.edges.len() as int),
        ));
    }
}

/// The ids of a board's regions, comma-separated.
pub open spec fn region_list(ps: Seq<PhaseV>) -> Seq<char>
    decreases ps.len(),
{
    if ps.len() == 0 {
        Seq::empty()
    } else if ps.len() == 1 {
        ps[0].id
    } else {
        region_list(ps.drop_last()) + ", "@ + ps.last().id
    }
}

/// The refusal of a region the board does not have, naming the ones it has.
pub open spec fn no_region_msg(id: Seq<char>, ps: Seq<PhaseV>) -> Seq<char> {
    if ps.len() == 0 {
        "no region "@ + id + ": this board has no regions"@
    } else {
        "no region "@ + id + " (this board has "@ + region_list(ps) + ")"@
    }
}

/// The ids a selector picks out, or the error naming what the board does not have.
pub open spec fn select_spec(m: ModelV, sel: SelectorV) -> Result<Set<Seq<char>>, Seq<char>> {
    match sel {
        SelectorV::Region(id) => match find_phase(m.phases, id, 0) {
            None => Err(no_region_msg(id, m.phases)),
            Some(b) => Ok(region_ids(m.elements, m.phases[b].from_col, m.phases[b].to_col)),
        },
        SelectorV::Focus { id, hops } => if has_id(m.elements, id) {
            Ok(reach(m, id, hops))
        } else {
            Err("no element "@ + id + " on this board"@)
        },
        SelectorV::Kind(k) => Ok(kind_ids(m.elements, k)),
    }
}

fn listed_exec(v: &Vec<String>, x: &str) -> (r: bool)
    ensures
        r == listed(v@, x@),
{
    let mut j: usize = 0;
    while j < v.len()
        invariant
            j <= v.len(),
            forall|q: int| 0 <= q < j ==> #[trigger] v@[q]@ != x@,
        decreases v.len() - j,
    {
        if str_eq(v[j].as_str(), x) {
            assert(v@[j as int]@ == x@);
            return true;
        }
        j = j + 1;
    }
    false
}

fn has_element(m: &Model, id: &str) -> (r: bool)
    ensures
        r == has_id(m@.elements, id@),
{
    let ghost es = m@.elements;
    let mut i: usize = 0;
    while i < m.elements.len()
        invariant
            i <= m.elements.len(),
            es == m@.elements,
            es == elements_view(m.elements@),
            forall|k: int| 0 <= k < i ==> #[trigger] es[k].id != id@,
        decreases m.elements.len() - i,
    {
        assert(es[i as int] == m.elements@[i as int]@);
        if str_eq(m.elements[i].id.as_str(), id) {
            assert(es[i as int].id == id@);
            return true;
        }
        i = i + 1;
    }
    false
}

fn push_id(v: &mut Vec<String>, x: &String)
    ensures
        forall|y: Seq<char>| listed(final(v)@, y) <==> (listed(old(v)@, y) || y == x@),
        final(v)@.len() == old(v)@.len() + 1,
{
    v.push(x.clone());
    assert forall|y: Seq<char>| listed(v@, y) <==> (listed(old(v)@, y) || y == x@) by {
        if listed(v@, y) {
            let j = choose|j: int| 0 <= j < v@.len() && #[trigger] v@[j]@ == y;
            if j < old(v)@.len() {
                assert(old(v)@[j]@ == y);
            }
        }
        if listed(old(v)@, y) {
            let j = choose|j: int| 0 <= j < old(v)@.len() && #[trigger] old(v)@[j]@ == y;
            assert(v@[j]@ == y);
        }
        if y == x@ {
            assert(v@[old(v)@.len() as int]@ == y);
        }
    }
}

/// Breadth-first closure around `start`, bounded to `hops` real edges, either way. A dangling
/// edge cannot drag a phantom id in; zero hops is the sticky alone.
///
/// The frontier and the seen ids are lists of ids rather than a `HashSet<String>` and a queue:
/// the specifications std's hash collections get are not provable for `String` keys, so each
/// list is held to the set it stands for (`listed`) instead, membership being a linear scan.
fn neighbourhood(m: &Model, start: &String, hops: usize) -> (r: Vec<String>)
    ensures
        forall|x: Seq<char>| listed(r@, x) <==> reach(m@, start@, hops as nat).contains(x),
{
    let mut cur: Vec<String> = Vec::new();
    push_id(&mut cur, start);
    assert forall|x: Seq<char>| listed(cur@, x) <==> reach(m@, start@, 0).contains(x) by {
        if listed(cur@, x) {
            let j = choose|j: int| 0 <= j < cur@.len() && #[trigger] cur@[j]@ == x;
        }
    }
    let mut round: usize = 0;
    let mut settled = false;
    while round < hops && !settled
        invariant
            round <= hops,
            forall|x: Seq<char>| listed(cur@, x) <==> reach(m@, start@, round as nat).contains(x),
            settled ==> reach(m@, start@, (round + 1) as nat) == reach(m@, start@, round as nat),
        decreases hops - round, (if settled {
            0int
        } else {
            1int
        }),
    {
        let ghost r = reach(m@, start@, round as nat);
        let mut next = crate::model::clone_strings(&cur);
        assert forall|x: Seq<char>| listed(next@, x) <==> listed(cur@, x) by {
            if listed(next@, x) {
                let j = choose|j: int| 0 <= j < next@.len() && #[trigger] next@[j]@ == x;
                assert(cur@[j]@ == x);
            }
            if listed(cur@, x) {
                let j = choose|j: int| 0 <= j < cur@.len() && #[trigger] cur@[j]@ == x;
                assert(next@[j]@ == x);
            }
        }
        let mut grew = false;
        let mut j: usize = 0;
        while j < m.edges.len()
            invariant
                j <= m.edges.len(),
                r == reach(m@, start@, round as nat),
                forall|x: Seq<char>| listed(cur@, x) <==> r.contains(x),
                forall|x: Seq<char>|
                    listed(next@, x) <==> (r.contains(x) || neighbours_upto(m@, r, j as int).contains(x)),
                !grew ==> forall|x: Seq<char>| neighbours_upto(m@, r, j as int).contains(x) ==> r.contains(x),
            decreases m.edges.len() - j,
        {
            let e = &m.edges[j];
            assert(m@.edges[j as int] == e@);
            let is_real = !str_eq(e.src.as_str(), e.dst.as_str()) && has_element(m, e.src.as_str())
                && has_element(m, e.dst.as_str());
            let from_src = is_real && listed_exec(&cur, e.src.as_str());
            let from_dst = is_real && listed_exec(&cur, e.dst.as_str());
            let ghost before = next@;
            if from_src && !listed_exec(&next, e.dst.as_str()) {
                push_id(&mut next, &e.dst);
                grew = true;
            }
            if from_dst && !listed_exec(&next, e.src.as_str()) {
                push_id(&mut next, &e.src);
                grew = true;
            }
            proof {
                assert(is_real == real_edge(m@, j as int));
                assert forall|x: Seq<char>|
                    #[trigger] neighbours_upto(m@, r, j + 1).contains(x) <==> (neighbours_upto(
                        m@,
                        r,
                        j as int,
                    ).contains(x) || (real_edge(m@, j as int) && ((r.contains(m@.edges[j as int].src)
                        && m@.edges[j as int].dst == x) || (r.contains(m@.edges[j as int].dst)
                        && m@.edges[j as int].src == x)))) by {
                    if neighbours_upto(m@, r, j + 1).contains(x) {
                        let k = choose|k: int|
                            0 <= k < j + 1 && #[trigger] real_edge(m@, k) && ((r.contains(
                                m@.edges[k].src,
                            ) && m@.edges[k].dst == x) || (r.contains(m@.edges[k].dst)
                                && m@.edges[k].src == x));
                        if k < j {
                            assert(neighbours_upto(m@, r, j as int).contains(x));
                        }
                    }
                    if neighbours_upto(m@, r, j as int).contains(x) {
                        let k = choose|k: int|
                            0 <= k < j && #[trigger] real_edge(m@, k) && ((r.contains(m@.edges[k].src)
                                && m@.edges[k].dst == x) || (r.contains(m@.edges[k].dst)
                                && m@.edges[k].src == x));
                        assert(neighbours_upto(m@, r, j + 1).contains(x));
                    }
                    if real_edge(m@, j as int) && ((r.contains(m@.edges[j as int].src)
                        && m@.edges[j as int].dst == x) || (r.contains(m@.edges[j as int].dst)
                        && m@.edges[j as int].src == x)) {
                        assert(neighbours_upto(m@, r, j + 1).contains(x));
                    }
                }
            }
            j = j + 1;
        }
        proof {
            assert(m@.edges.len() == m.edges.len());
            let nb = neighbours_upto(m@, r, m@.edges.len() as int);
            assert(reach(m@, start@, (round + 1) as nat) == r.union(nb));
            assert forall|x: Seq<char>| listed(next@, x) <==> reach(
                m@,
                start@,
                (round + 1) as nat,
            ).contains(x) by {
                assert(r.union(nb).contains(x) == (r.contains(x) || nb.contains(x)));
            }
            if !grew {
                assert(r.union(nb) =~= r);
            }
        }
        if !grew {
            settled = true;
        } else {
            cur = next;
            round = round + 1;
        }
    }
    proof {
        if settled {
            lemma_reach_fixpoint(m@, start@, round as nat, hops as nat);
        }
    }
    cur
}


fn msg_no_region(id: &str, phases: &Vec<Phase>) -> (m: String)
    ensures
        m@ == no_region_msg(id@, phases_view(phases@)),
{
    let ghost ps = phases_view(phases@);
    let mut v = chars_of("no region ");
    append_str(&mut v, id);
    if phases.len() == 0 {
        append_str(&mut v, ": this board has no regions");
        assert(v@ =~= no_region_msg(id@, ps));
        return string_of(&v);
    }
    append_str(&mut v, " (this board has ");
    let ghost head = v@;
    let mut k: usize = 0;
    while k < phases.len()
        invariant
            k <= phases.len(),
            phases.len() > 0,
            ps == phases_view(phases@),
            v@ == head + region_list(ps.take(k as int)),
        decreases phases.len() - k,
    {
        let ghost t = ps.take(k + 1);
        assert(t.drop_last() =~= ps.take(k as int));
        assert(ps[k as int] == phases@[k as int]@);
        if k > 0 {
            append_str(&mut v, ", ");
        } else {
            assert(ps.take(0) =~= Seq::<PhaseV>::empty());
        }
        append_str(&mut v, phases[k].id.as_str());
        assert(v@ =~= head + region_list(t));
        k = k + 1;
    }
    assert(ps.take(phases.len() as int) =~= ps);
    append_str(&mut v, ")");
    assert(v@ =~= no_region_msg(id@, ps));
    string_of(&v)
}

/// The ids a selector picks out, judged on the board's resolved columns `cols`, or the error
/// naming what the board does not have.
fn select(m: &Model, cols: &Vec<i64>, sel: &Selector) -> (r: Result<Vec<String>, String>)
    requires
        cols.len() == m.elements.len(),
        forall|i: int| 0 <= i < cols.len() ==> #[trigger] cols[i] == resolved_col(m@.elements, i),
    ensures
        match r {
            Ok(keep) => select_spec(m@, sel@) matches Ok(set) && forall|x: Seq<char>|
                listed(keep@, x) <==> set.contains(x),
            Err(e) => select_spec(m@, sel@) == Err::<Set<Seq<char>>, Seq<char>>(e@),
        },
{
    match sel {
        Selector::Region(id) => {
            proof {
                crate::replay::lemma_find_phase_range(m@.phases, id@, 0);
            }
            let b = match position_of_phase(m, id.as_str()) {
                Some(b) => b,
                None => {
                    return Err(msg_no_region(id.as_str(), &m.phases));
                },
            };
            let from = m.phases[b].from_col;
            let to = m.phases[b].to_col;
            assert(m@.phases[b as int] == m.phases@[b as int]@);
            let ghost set = region_ids(m@.elements, from, to);
            let mut keep: Vec<String> = Vec::new();
            let mut i: usize = 0;
            while i < m.elements.len()
                invariant
                    i <= m.elements.len(),
                    cols.len() == m.elements.len(),
                    forall|q: int| 0 <= q < cols.len() ==> #[trigger] cols[q] == resolved_col(m@.elements, q),
                    forall|x: Seq<char>|
                        listed(keep@, x) <==> exists|k: int|
                            0 <= k < i && #[trigger] m@.elements[k].id == x && from <= resolved_col(
                                m@.elements,
                                k,
                            ) <= to,
                decreases m.elements.len() - i,
            {
                assert(m@.elements[i as int] == m.elements@[i as int]@);
                let c = cols[i];
                let ghost prev = keep@;
                let ghost ok = from <= resolved_col(m@.elements, i as int) <= to;
                if from <= c && c <= to {
                    push_id(&mut keep, &m.elements[i].id);
                }
                proof {
                    assert forall|x: Seq<char>| listed(keep@, x) <==> exists|k: int|
                        0 <= k < i + 1 && #[trigger] m@.elements[k].id == x && from <= resolved_col(
                            m@.elements,
                            k,
                        ) <= to by {
                        if listed(prev, x) {
                            let k = choose|k: int|
                                0 <= k < i && #[trigger] m@.elements[k].id == x && from
                                    <= resolved_col(m@.elements, k) <= to;
                            assert(0 <= k < i + 1 && m@.elements[k].id == x);
                        }
                        if ok && x == m@.elements[i as int].id {
                            assert(0 <= i < i + 1 && m@.elements[i as int].id == x);
                        }
                        if exists|k: int|
                            0 <= k < i + 1 && #[trigger] m@.elements[k].id == x && from <= resolved_col(
                                m@.elements,
                                k,
                            ) <= to {
                            let k = choose|k: int|
                                0 <= k < i + 1 && #[trigger] m@.elements[k].id == x && from
                                    <= resolved_col(m@.elements, k) <= to;
                            if k < i {
                                assert(listed(prev, x));
                            }
                        }
                    }
                }
                i = i + 1;
            }
            assert(m@.elements.len() == m.elements.len());
            Ok(keep)
        },
        Selector::Focus { id, hops } => {
            if !has_element(m, id.as_str()) {
                let mut v = chars_of("no element ");
                append_str(&mut v, id.as_str());
                append_str(&mut v, " on this board");
                return Err(string_of(&v));
            }
            Ok(neighbourhood(m, id, *hops))
        },
        Selector::Kind(kind) => {
            let mut keep: Vec<String> = Vec::new();
            let mut i: usize = 0;
            while i < m.elements.len()
                invariant
                    i <= m.elements.len(),
                    forall|x: Seq<char>|
                        listed(keep@, x) <==> exists|k: int|
                            0 <= k < i && #[trigger] m@.elements[k].id == x && lane_wire(
                                m@.elements[k].kind,
                            ) == kind@,
                decreases m.elements.len() - i,
            {
                assert(m@.elements[i as int] == m.elements@[i as int]@);
                let ghost prev = keep@;
                let ghost ok = lane_wire(m@.elements[i as int].kind) == kind@;
                if str_eq(crate::model::lane_to_str(m.elements[i].kind), kind.as_str()) {
                    push_id(&mut keep, &m.elements[i].id);
                }
                proof {
                    assert forall|x: Seq<char>| listed(keep@, x) <==> exists|k: int|
                        0 <= k < i + 1 && #[trigger] m@.elements[k].id == x && lane_wire(
                            m@.elements[k].kind,
                        ) == kind@ by {
                        if listed(prev, x) {
                            let k = choose|k: int|
                                0 <= k < i && #[trigger] m@.elements[k].id == x && lane_wire(
                                    m@.elements[k].kind,
                                ) == kind@;
                            assert(0 <= k < i + 1 && m@.elements[k].id == x);
                        }
                        if ok && x == m@.elements[i as int].id {
                            assert(0 <= i < i + 1 && m@.elements[i as int].id == x);
                        }
                        if exists|k: int|
                            0 <= k < i + 1 && #[trigger] m@.elements[k].id == x && lane_wire(
                                m@.elements[k].kind,
                            ) == kind@ {
                            let k = choose|k: int|
                                0 <= k < i + 1 && #[trigger] m@.elements[k].id == x && lane_wire(
                                    m@.elements[k].kind,
                                ) == kind@;
                            if k < i {
                                assert(listed(prev, x));
                            }
                        }
                    }
                }
                i = i + 1;
            }
            assert(m@.elements.len() == m.elements.len());
            Ok(keep)
        },
    }
}

fn position_of_phase(m: &Model, id: &str) -> (r: Option<usize>)
    ensures
        r is None <==> find_phase(m@.phases, id@, 0) is None,
        r matches Some(k) ==> find_phase(m@.phases, id@, 0) == Some(k as int),
{
    let ghost v = m@.phases;
    let mut i: usize = 0;
    while i < m.phases.len()
        invariant
            i <= m.phases.len(),
            v == m@.phases,
            v == phases_view(m.phases@),
            find_phase(v, id@, 0) == find_phase(v, id@, i as int),
        decreases m.phases.len() - i,
    {
        assert(v[i as int] == m.phases@[i as int]@);
        if str_eq(m.phases[i].id.as_str(), id) {
            return Some(i);
        }
        i = i + 1;
    }
    None
}


// ---- the cut ----------------------------------------------------------------------------------

/// The columns the stickies carry, in board order (the ones without a column left out).
pub open spec fn cols_of(es: Seq<ElementV>) -> Seq<i64>
    decreases es.len(),
{
    if es.len() == 0 {
        Seq::empty()
    } else {
        let r = cols_of(es.drop_last());
        match es.last().col {
            Some(c) => r.push(c),
            None => r,
        }
    }
}

pub open spec fn seq_min(s: Seq<i64>) -> i64
    decreases s.len(),
{
    if s.len() <= 1 {
        s[0]
    } else {
        let m = seq_min(s.drop_last());
        if s.last() < m {
            s.last()
        } else {
            m
        }
    }
}

pub open spec fn seq_max(s: Seq<i64>) -> i64
    decreases s.len(),
{
    if s.len() <= 1 {
        s[0]
    } else {
        let m = seq_max(s.drop_last());
        if s.last() > m {
            s.last()
        } else {
            m
        }
    }
}

/// The regions that cross `[lo, hi]`, each trimmed to it, in order.
pub open spec fn clip_list(ps: Seq<PhaseV>, lo: i64, hi: i64) -> Seq<PhaseV>
    decreases ps.len(),
{
    if ps.len() == 0 {
        Seq::empty()
    } else {
        let r = clip_list(ps.drop_last(), lo, hi);
        let p = ps.last();
        if p.from_col <= hi && p.to_col >= lo {
            r.push(
                PhaseV {
                    id: p.id,
                    label: p.label,
                    from_col: if p.from_col > lo { p.from_col } else { lo },
                    to_col: if p.to_col < hi { p.to_col } else { hi },
                },
            )
        } else {
            r
        }
    }
}

/// The regions that survive a cut: every band the survivors' column span crosses, trimmed to it
/// and projected back onto a partition; none when no survivor has a column.
pub open spec fn clip_spec(ps: Seq<PhaseV>, es: Seq<ElementV>) -> Seq<PhaseV> {
    let cs = cols_of(es);
    if cs.len() == 0 {
        Seq::empty()
    } else {
        normalize_spec(clip_list(ps, seq_min(cs), seq_max(cs)))
    }
}

/// The stickies among the first `n` whose id is kept, each with its resolved column written out.
pub open spec fn kept_elements(es: Seq<ElementV>, keep: Set<Seq<char>>, n: int) -> Seq<ElementV>
    decreases n,
{
    if n <= 0 {
        Seq::empty()
    } else {
        let r = kept_elements(es, keep, n - 1);
        let e = es[n - 1];
        if keep.contains(e.id) {
            r.push(ElementV { col: Some(resolved_col(es, n - 1) as i64), ..e })
        } else {
            r
        }
    }
}

/// The edges with both ends kept.
pub open spec fn kept_edges(ds: Seq<EdgeV>, keep: Set<Seq<char>>) -> Seq<EdgeV> {
    ds.filter(|d: EdgeV| keep.contains(d.src) && keep.contains(d.dst))
}

/// The sub-board a selector carves, or why there is none: the selector names something the board
/// does not have, or matches no sticky.
pub open spec fn extract_spec(m: ModelV, sel: SelectorV) -> Result<ModelV, Seq<char>> {
    match select_spec(m, sel) {
        Err(e) => Err(e),
        Ok(keep) => if keep == Set::<Seq<char>>::empty() {
            Err(label_spec(sel) + " matched no elements"@)
        } else {
            let els = kept_elements(m.elements, keep, m.elements.len() as int);
            let label = label_spec(sel);
            Ok(
                ModelV {
                    title: if m.title.len() == 0 {
                        label
                    } else {
                        m.title + " \u{b7} "@ + label
                    },
                    format: m.format,
                    level: m.level,
                    phases: clip_spec(m.phases, els),
                    elements: els,
                    edges: kept_edges(m.edges, keep),
                },
            )
        },
    }
}

/// The bands that survive the cut, clipped to the columns the selection occupies and projected
/// back onto a contiguous partition. A band between two survivors is kept even when it holds
/// none: the timeline between them is continuous.
fn clip_phases(phases: &Vec<Phase>, elements: &Vec<Element>) -> (r: Vec<Phase>)
    ensures
        phases_view(r@) == clip_spec(phases_view(phases@), elements_view(elements@)),
{
    let ghost es = elements_view(elements@);
    let mut have = false;
    let mut lo: i64 = 0;
    let mut hi: i64 = 0;
    let mut i: usize = 0;
    while i < elements.len()
        invariant
            i <= elements.len(),
            es == elements_view(elements@),
            have <==> cols_of(es.take(i as int)).len() > 0,
            have ==> lo == seq_min(cols_of(es.take(i as int))) && hi == seq_max(
                cols_of(es.take(i as int)),
            ),
        decreases elements.len() - i,
    {
        assert(es.take(i + 1).drop_last() =~= es.take(i as int));
        assert(es.take(i + 1).last() == elements@[i as int]@);
        let ghost cs = cols_of(es.take(i as int));
        match elements[i].col {
            Some(c) => {
                assert(cols_of(es.take(i + 1)) == cs.push(c));
                assert(cs.push(c).drop_last() =~= cs);
                if !have {
                    lo = c;
                    hi = c;
                    have = true;
                } else {
                    if c < lo {
                        lo = c;
                    }
                    if c > hi {
                        hi = c;
                    }
                }
            },
            None => {},
        }
        i = i + 1;
    }
    assert(es.take(elements.len() as int) =~= es);
    if !have {
        let r: Vec<Phase> = Vec::new();
        assert(phases_view(r@) =~= Seq::<PhaseV>::empty());
        return r;
    }
    let ghost ps = phases_view(phases@);
    let mut kept: Vec<Phase> = Vec::new();
    let mut j: usize = 0;
    assert(phases_view(kept@) =~= Seq::<PhaseV>::empty());
    while j < phases.len()
        invariant
            j <= phases.len(),
            ps == phases_view(phases@),
            phases_view(kept@) == clip_list(ps.take(j as int), lo, hi),
        decreases phases.len() - j,
    {
        assert(ps.take(j + 1).drop_last() =~= ps.take(j as int));
        assert(ps.take(j + 1).last() == phases@[j as int]@);
        let p = &phases[j];
        if p.from_col <= hi && p.to_col >= lo {
            let q = Phase {
                id: p.id.clone(),
                label: p.label.clone(),
                from_col: if p.from_col > lo { p.from_col } else { lo },
                to_col: if p.to_col < hi { p.to_col } else { hi },
            };
            let ghost before = phases_view(kept@);
            kept.push(q);
            assert(phases_view(kept@) =~= before.push(q@));
        }
        j = j + 1;
    }
    assert(ps.take(phases.len() as int) =~= ps);
    normalize(&mut kept);
    kept
}

/// Carve the sub-board a selector names. Fails rather than returning an empty board when the
/// selector names something the board does not have or matches no sticky. Ids and columns are
/// kept (an implicit column written out where the board draws it), an edge with an end outside
/// the selection is dropped, and the title says where the cut came from.
pub fn extract(m: &Model, sel: &Selector) -> (r: Result<Model, String>)
    requires
        m.elements.len() <= i64::MAX,
    ensures
        match r {
            Ok(sub) => extract_spec(m@, sel@) == Ok::<ModelV, Seq<char>>(sub@),
            Err(e) => extract_spec(m@, sel@) == Err::<ModelV, Seq<char>>(e@),
        },
{
    let cols = resolved_cols(&m.elements);
    assert(m@.elements == elements_view(m.elements@));
    let keep = match select(m, &cols, sel) {
        Ok(k) => k,
        Err(e) => {
            return Err(e);
        },
    };
    let ghost set = select_spec(m@, sel@)->Ok_0;
    if keep.len() == 0 {
        assert(set =~= Set::<Seq<char>>::empty()) by {
            assert forall|x: Seq<char>| !set.contains(x) by {
                if set.contains(x) {
                    assert(listed(keep@, x));
                }
            }
        }
        let label = sel.label();
        let mut v = chars_of(label.as_str());
        append_str(&mut v, " matched no elements");
        return Err(string_of(&v));
    }
    assert(set.contains(keep@[0]@));
    let ghost es = m@.elements;
    let mut elements: Vec<Element> = Vec::new();
    let mut i: usize = 0;
    assert(elements_view(elements@) =~= Seq::<ElementV>::empty());
    while i < m.elements.len()
        invariant
            i <= m.elements.len(),
            es == m@.elements,
            es == elements_view(m.elements@),
            cols.len() == m.elements.len(),
            forall|q: int| 0 <= q < cols.len() ==> #[trigger] cols[q] == resolved_col(es, q),
            forall|x: Seq<char>| listed(keep@, x) <==> set.contains(x),
            elements_view(elements@) == kept_elements(es, set, i as int),
        decreases m.elements.len() - i,
    {
        assert(es[i as int] == m.elements@[i as int]@);
        if listed_exec(&keep, m.elements[i].id.as_str()) {
            let mut e = m.elements[i].copy();
            e.col = Some(cols[i]);
            let ghost before = elements_view(elements@);
            elements.push(e);
            assert(elements_view(elements@) =~= before.push(e@));
        }
        i = i + 1;
    }
    assert(m.elements.len() == es.len());
    let ghost ds = m@.edges;
    let ghost pred = |d: EdgeV| set.contains(d.src) && set.contains(d.dst);
    let mut edges: Vec<Edge> = Vec::new();
    let mut k: usize = 0;
    assert(edges_view(edges@) =~= Seq::<EdgeV>::empty());
    assert(ds.take(0) =~= Seq::<EdgeV>::empty());
    proof {
        reveal(Seq::filter);
    }
    while k < m.edges.len()
        invariant
            k <= m.edges.len(),
            ds == m@.edges,
            ds == edges_view(m.edges@),
            forall|x: Seq<char>| listed(keep@, x) <==> set.contains(x),
            pred == (|d: EdgeV| set.contains(d.src) && set.contains(d.dst)),
            edges_view(edges@) == ds.take(k as int).filter(pred),
        decreases m.edges.len() - k,
    {
        proof {
            assert(ds.take(k + 1).drop_last() =~= ds.take(k as int));
            assert(ds.take(k + 1).last() == m.edges@[k as int]@);
            reveal(Seq::filter);
        }
        let d = &m.edges[k];
        if listed_exec(&keep, d.src.as_str()) && listed_exec(&keep, d.dst.as_str()) {
            let ghost before = edges_view(edges@);
            let c = d.copy();
            edges.push(c);
            assert(edges_view(edges@) =~= before.push(c@));
        }
        k = k + 1;
    }
    assert(ds.take(m.edges.len() as int) =~= ds);
    let phases = clip_phases(&m.phases, &elements);
    let label = sel.label();
    let title = if m.title.as_str().is_empty() {
        label
    } else {
        let mut v = chars_of(m.title.as_str());
        append_str(&mut v, " \u{b7} ");
        append_str(&mut v, label.as_str());
        string_of(&v)
    };
    Ok(Model { title, format: m.format, level: m.level, phases, elements, edges })
}

// ---- what a cut keeps -------------------------------------------------------------------------

/// Sticky `j` of a board with its column written out as the board places it.
pub open spec fn placed(es: Seq<ElementV>, j: int) -> ElementV {
    ElementV { col: Some(resolved_col(es, j) as i64), ..es[j] }
}

/// Each sticky a cut keeps is one of the board's, unchanged but for its column, which is written
/// out as the board places it.
proof fn lemma_kept_elements(es: Seq<ElementV>, keep: Set<Seq<char>>, n: int)
    requires
        0 <= n <= es.len(),
    ensures
        forall|i: int|
            #![trigger kept_elements(es, keep, n)[i]]
            0 <= i < kept_elements(es, keep, n).len() ==> exists|j: int|
                #![trigger es[j]]
                0 <= j < n && keep.contains(es[j].id) && kept_elements(es, keep, n)[i] == placed(es, j),
    decreases n,
{
    if n > 0 {
        lemma_kept_elements(es, keep, n - 1);
        let r = kept_elements(es, keep, n - 1);
        let k = kept_elements(es, keep, n);
        assert forall|i: int| #![trigger k[i]] 0 <= i < k.len() implies exists|j: int|
            #![trigger es[j]]
            0 <= j < n && keep.contains(es[j].id) && k[i] == placed(es, j) by {
            if i < r.len() {
                assert(k[i] == r[i]);
                let j = choose|j: int|
                    #![trigger es[j]]
                    0 <= j < n - 1 && keep.contains(es[j].id) && r[i] == placed(es, j);
                assert(es[j] == es[j]);
            } else {
                assert(es[n - 1] == es[n - 1]);
            }
        }
    }
}

/// An extract is the board, smaller: each of its stickies is one of the board's (same id, lane,
/// label and note; its column written out as the board places it), each of its edges is one of
/// the board's, it keeps the board's level and format, and its regions are a contiguous partition
/// (for cuts whose regions stay clear of the `i64::MAX` column).
pub proof fn extract_is_the_board_smaller(m: ModelV, sel: SelectorV)
    requires
        (extract_spec(m, sel) is Ok),
        forall|k: int|
            0 <= k < (extract_spec(m, sel)->Ok_0).phases.len() ==> (#[trigger] (extract_spec(
                m,
                sel,
            )->Ok_0).phases[k]).to_col < i64::MAX,
    ensures
        ({
            let sub = extract_spec(m, sel)->Ok_0;
            &&& forall|i: int|
                #![trigger sub.elements[i]]
                0 <= i < sub.elements.len() ==> exists|j: int|
                    #![trigger m.elements[j]]
                    0 <= j < m.elements.len() && sub.elements[i] == placed(m.elements, j)
            &&& forall|i: int| 0 <= i < sub.edges.len() ==> m.edges.contains(#[trigger] sub.edges[i])
            &&& is_partition(sub.phases)
            &&& sub.level == m.level
            &&& sub.format == m.format
        }),
{
    broadcast use vstd::seq_lib::group_filter_ensures;

    let keep = select_spec(m, sel)->Ok_0;
    let sub = extract_spec(m, sel)->Ok_0;
    let els = kept_elements(m.elements, keep, m.elements.len() as int);
    lemma_kept_elements(m.elements, keep, m.elements.len() as int);
    assert forall|i: int| #![trigger sub.elements[i]] 0 <= i < sub.elements.len() implies exists|j: int|
        #![trigger m.elements[j]]
        0 <= j < m.elements.len() && sub.elements[i] == placed(m.elements, j) by {
        assert(sub.elements[i] == els[i]);
    }
    let pred = |d: EdgeV| keep.contains(d.src) && keep.contains(d.dst);
    assert forall|i: int| 0 <= i < sub.edges.len() implies m.edges.contains(#[trigger] sub.edges[i]) by {
        assert(sub.edges == m.edges.filter(pred));
        assert(m.edges.filter(pred).contains(sub.edges[i]));
        m.edges.lemma_filter_contains_rev(pred, sub.edges[i]);
    }
    let cs = cols_of(els);
    assert(sub.phases == clip_spec(m.phases, els));
    if cs.len() > 0 {
        let cl = clip_list(m.phases, seq_min(cs), seq_max(cs));
        assert(sub.phases == normalize_spec(cl));
        assert forall|k: int| 0 <= k < normalize_spec(cl).len() implies (
        #[trigger] normalize_spec(cl)[k]).to_col < i64::MAX by {
            assert(sub.phases[k] == normalize_spec(cl)[k]);
        }
        normalize_yields_partition(cl);
    }
}

} // verus!
