//! The event-storming grammar lint: a pure graph pass over a board that flags the defects a
//! workshop facilitator would otherwise raise by hand. Warn-only: a big-picture board is legitimately
//! incomplete, so a finding is a nudge, never a gate. A finding carries the offending sticky's
//! stable `id`.

use crate::model::{edges_view, elements_view, EdgeV, ElementV, Lane, Level, Model, ModelV};
use crate::text::str_eq;
use vstd::prelude::*;

verus! {

/// One grammar finding, keyed on the offending sticky's stable `id`.
pub struct Finding {
    /// A stable, machine-readable rule id (such as `"event-no-producer"`).
    pub rule: &'static str,
    /// The stable `id` of the sticky the finding is about.
    pub element_id: String,
    /// A calm one-line explanation of the defect (fixed catalogue text).
    pub message: &'static str,
}

/// What a finding denotes.
pub struct FindingV {
    pub rule: Seq<char>,
    pub element_id: Seq<char>,
    pub message: Seq<char>,
}

impl View for Finding {
    type V = FindingV;

    open spec fn view(&self) -> FindingV {
        FindingV { rule: self.rule@, element_id: self.element_id@, message: self.message@ }
    }
}

/// Whether a board holds a sticky with id `id`.
pub open spec fn has_id(es: Seq<ElementV>, id: Seq<char>) -> bool {
    exists|k: int| 0 <= k < es.len() && #[trigger] es[k].id == id
}

/// Whether a real edge ends at `id`: one that is no self-loop and starts at a sticky on the board.
pub open spec fn has_inbound(m: ModelV, id: Seq<char>) -> bool {
    exists|k: int|
        0 <= k < m.edges.len() && #[trigger] m.edges[k].dst == id && m.edges[k].src != m.edges[k].dst
            && has_id(m.elements, m.edges[k].src)
}

/// Whether a real edge starts at `id`: one that is no self-loop and ends at a sticky on the board.
pub open spec fn has_outbound(m: ModelV, id: Seq<char>) -> bool {
    exists|k: int|
        0 <= k < m.edges.len() && #[trigger] m.edges[k].src == id && m.edges[k].src != m.edges[k].dst
            && has_id(m.elements, m.edges[k].dst)
}

pub open spec fn finding(rule: Seq<char>, id: Seq<char>, message: Seq<char>) -> FindingV {
    FindingV { rule, element_id: id, message }
}

/// The findings about one sticky, in rule order: an event with no producer or no outbound edge, a
/// policy with no input or no output, and (on a design-level board) a command with no output.
pub open spec fn element_findings(m: ModelV, e: ElementV) -> Seq<FindingV> {
    let inb = has_inbound(m, e.id);
    let outb = has_outbound(m, e.id);
    match e.kind {
        Lane::Event => (if !inb {
            seq![
                finding(
                    "event-no-producer"@,
                    e.id,
                    "no producer: nothing emits this event (no incoming edge)"@,
                ),
            ]
        } else {
            Seq::empty()
        }) + (if !outb {
            seq![
                finding(
                    "event-dead-end"@,
                    e.id,
                    "no outbound edge: a dead end unless this event is terminal"@,
                ),
            ]
        } else {
            Seq::empty()
        }),
        Lane::Policy => (if !inb {
            seq![
                finding(
                    "policy-no-input"@,
                    e.id,
                    "no input: nothing triggers this policy (no incoming edge)"@,
                ),
            ]
        } else {
            Seq::empty()
        }) + (if !outb {
            seq![
                finding(
                    "policy-no-output"@,
                    e.id,
                    "no output: this policy triggers nothing (no outgoing edge)"@,
                ),
            ]
        } else {
            Seq::empty()
        }),
        Lane::Command => if m.level == Level::Design && !outb {
            seq![
                finding(
                    "command-no-output"@,
                    e.id,
                    "no output: this command emits no event (no outgoing edge)"@,
                ),
            ]
        } else {
            Seq::empty()
        },
        _ => Seq::empty(),
    }
}

/// The findings about the first `n` stickies, in board order.
pub open spec fn findings_upto(m: ModelV, n: int) -> Seq<FindingV>
    decreases n,
{
    if n <= 0 {
        Seq::empty()
    } else {
        findings_upto(m, n - 1) + element_findings(m, m.elements[n - 1])
    }
}

/// The findings of a board: sticky by sticky in board order, then rule by rule.
pub open spec fn lint_spec(m: ModelV) -> Seq<FindingV> {
    findings_upto(m, m.elements.len() as int)
}

pub open spec fn findings_view(v: Seq<Finding>) -> Seq<FindingV> {
    v.map_values(|f: Finding| f@)
}

/// Whether a sticky with this id is on the board. A scan of the stickies rather than a lookup in a
/// `HashSet<String>`: the specifications std's hash sets get are not provable for `String` keys,
/// and the scan is stated exactly.
fn has_element_id(m: &Model, id: &str) -> (r: bool)
    ensures
        r == has_id(elements_view(m.elements@), id@),
{
    let ghost es = elements_view(m.elements@);
    let mut i: usize = 0;
    while i < m.elements.len()
        invariant
            i <= m.elements.len(),
            es == elements_view(m.elements@),
            forall|k: int| 0 <= k < i ==> #[trigger] es[k].id != id@,
        decreases m.elements.len() - i,
    {
        assert(es[i as int] == m.elements@[i as int]@);
        if str_eq(m.elements[i].id.as_str(), id) {
            assert(es[i as int].id == id@);
            return true;
        }
        i = i + 1;
    }
    false
}

fn inbound(m: &Model, id: &str) -> (r: bool)
    ensures
        r == has_inbound(m@, id@),
{
    let ghost es = edges_view(m.edges@);
    let mut i: usize = 0;
    while i < m.edges.len()
        invariant
            i <= m.edges.len(),
            es == edges_view(m.edges@),
            es == m@.edges,
            forall|k: int|
                0 <= k < i ==> !(#[trigger] es[k].dst == id@ && es[k].src != es[k].dst && has_id(
                    m@.elements,
                    es[k].src,
                )),
        decreases m.edges.len() - i,
    {
        assert(es[i as int] == m.edges@[i as int]@);
        let e = &m.edges[i];
        if str_eq(e.dst.as_str(), id) && !str_eq(e.src.as_str(), e.dst.as_str()) && has_element_id(
            m,
            e.src.as_str(),
        ) {
            assert(m@.edges[i as int].dst == id@);
            return true;
        }
        i = i + 1;
    }
    false
}

fn outbound(m: &Model, id: &str) -> (r: bool)
    ensures
        r == has_outbound(m@, id@),
{
    let ghost es = edges_view(m.edges@);
    let mut i: usize = 0;
    while i < m.edges.len()
        invariant
            i <= m.edges.len(),
            es == edges_view(m.edges@),
            es == m@.edges,
            forall|k: int|
                0 <= k < i ==> !(#[trigger] es[k].src == id@ && es[k].src != es[k].dst && has_id(
                    m@.elements,
                    es[k].dst,
                )),
        decreases m.edges.len() - i,
    {
        assert(es[i as int] == m.edges@[i as int]@);
        let e = &m.edges[i];
        if str_eq(e.src.as_str(), id) && !str_eq(e.src.as_str(), e.dst.as_str()) && has_element_id(
            m,
            e.dst.as_str(),
        ) {
            assert(m@.edges[i as int].src == id@);
            return true;
        }
        i = i + 1;
    }
    false
}

fn push_finding(out: &mut Vec<Finding>, rule: &'static str, id: &String, message: &'static str)
    ensures
        findings_view(final(out)@) == findings_view(old(out)@).push(finding(rule@, id@, message@)),
{
    let f = Finding { rule, element_id: id.clone(), message };
    out.push(f);
    assert(findings_view(out@) =~= findings_view(old(out)@).push(f@));
}

/// Run the grammar rules over a board, in a deterministic order (board order, then rule order) so
/// the output never churns between runs. An edge counts only when it joins two distinct stickies
/// on the board: a self-loop or a dangling edge would otherwise mask the very defect lint looks
/// for.
pub fn lint(m: &Model) -> (r: Vec<Finding>)
    ensures
        findings_view(r@) == lint_spec(m@),
{
    let mut out: Vec<Finding> = Vec::new();
    let mut i: usize = 0;
    assert(findings_view(out@) =~= Seq::<FindingV>::empty());
    while i < m.elements.len()
        invariant
            i <= m.elements.len(),
            findings_view(out@) == findings_upto(m@, i as int),
        decreases m.elements.len() - i,
    {
        let e = &m.elements[i];
        assert(m@.elements[i as int] == e@);
        let inb = inbound(m, e.id.as_str());
        let outb = outbound(m, e.id.as_str());
        let ghost before = findings_view(out@);
        match e.kind {
            Lane::Event => {
                if !inb {
                    push_finding(
                        &mut out,
                        "event-no-producer",
                        &e.id,
                        "no producer: nothing emits this event (no incoming edge)",
                    );
                }
                let ghost mid = findings_view(out@);
                if !outb {
                    push_finding(
                        &mut out,
                        "event-dead-end",
                        &e.id,
                        "no outbound edge: a dead end unless this event is terminal",
                    );
                }
                assert(findings_view(out@) =~= before + element_findings(m@, e@));
            },
            Lane::Policy => {
                if !inb {
                    push_finding(
                        &mut out,
                        "policy-no-input",
                        &e.id,
                        "no input: nothing triggers this policy (no incoming edge)",
                    );
                }
                if !outb {
                    push_finding(
                        &mut out,
                        "policy-no-output",
                        &e.id,
                        "no output: this policy triggers nothing (no outgoing edge)",
                    );
                }
                assert(findings_view(out@) =~= before + element_findings(m@, e@));
            },
            Lane::Command => {
                if m.level == Level::Design && !outb {
                    push_finding(
                        &mut out,
                        "command-no-output",
                        &e.id,
                        "no output: this command emits no event (no outgoing edge)",
                    );
                }
                assert(findings_view(out@) =~= before + element_findings(m@, e@));
            },
            _ => {
                assert(findings_view(out@) =~= before + element_findings(m@, e@));
            },
        }
        i = i + 1;
    }
    out
}

/// Whether a lane carries grammar obligations on a board: events and policies always, commands
/// on a design-level board.
pub open spec fn obliged(m: ModelV, l: Lane) -> bool {
    l == Lane::Event || l == Lane::Policy || (l == Lane::Command && m.level == Level::Design)
}

/// Whether a finding names sticky `k` of the board, in a lane with grammar obligations.
pub open spec fn names_obliged(m: ModelV, f: FindingV, k: int) -> bool {
    0 <= k < m.elements.len() && m.elements[k].id == f.element_id && obliged(m, m.elements[k].kind)
}

proof fn lemma_findings_upto(m: ModelV, n: int)
    requires
        0 <= n <= m.elements.len(),
    ensures
        forall|i: int|
            0 <= i < findings_upto(m, n).len() ==> exists|k: int|
                #![trigger m.elements[k]]
                k < n && names_obliged(m, #[trigger] findings_upto(m, n)[i], k),
    decreases n,
{
    if n > 0 {
        lemma_findings_upto(m, n - 1);
        let r = findings_upto(m, n - 1);
        let e = m.elements[n - 1];
        let ef = element_findings(m, e);
        let all = findings_upto(m, n);
        assert(all == r + ef);
        assert forall|i: int| 0 <= i < all.len() implies exists|k: int|
            #![trigger m.elements[k]]
            k < n && names_obliged(m, #[trigger] all[i], k) by {
            if i < r.len() {
                assert(all[i] == r[i]);
            } else {
                assert(all[i] == ef[i - r.len()]);
                assert(ef[i - r.len()].element_id == e.id);
                assert(obliged(m, e.kind));
                assert(names_obliged(m, all[i], n - 1));
            }
        }
    }
}

/// Lint flags only stickies of the board, and only in the lanes that carry grammar obligations:
/// events and policies always, commands only on a design-level board. Every finding names such a
/// sticky by its id.
pub proof fn lint_flags_only_obliged_stickies(m: ModelV)
    ensures
        forall|i: int|
            0 <= i < lint_spec(m).len() ==> exists|k: int|
                #![trigger m.elements[k]]
                names_obliged(m, #[trigger] lint_spec(m)[i], k),
{
    lemma_findings_upto(m, m.elements.len() as int);
}

/// The rule names are spelled apart.
proof fn lemma_rules_differ()
    ensures
        "event-no-producer"@ != "event-dead-end"@,
        "event-no-producer"@ != "policy-no-input"@,
        "event-no-producer"@ != "policy-no-output"@,
        "event-no-producer"@ != "command-no-output"@,
        "event-dead-end"@ != "policy-no-input"@,
        "event-dead-end"@ != "policy-no-output"@,
        "event-dead-end"@ != "command-no-output"@,
        "policy-no-input"@ != "policy-no-output"@,
        "policy-no-input"@ != "command-no-output"@,
        "policy-no-output"@ != "command-no-output"@,
{
    reveal_strlit("event-no-producer");
    reveal_strlit("event-dead-end");
    reveal_strlit("policy-no-input");
    reveal_strlit("policy-no-output");
    reveal_strlit("command-no-output");
    assert("event-no-producer"@.len() != "event-dead-end"@.len());
    assert("event-no-producer"@.len() != "policy-no-input"@.len());
    assert("event-no-producer"@.len() != "policy-no-output"@.len());
    assert("event-no-producer"@[0] != "command-no-output"@[0]);
    assert("event-dead-end"@.len() != "policy-no-input"@.len());
    assert("event-dead-end"@.len() != "policy-no-output"@.len());
    assert("event-dead-end"@.len() != "command-no-output"@.len());
    assert("policy-no-input"@.len() != "policy-no-output"@.len());
    assert("policy-no-input"@.len() != "command-no-output"@.len());
    assert("policy-no-output"@.len() != "command-no-output"@.len());
}

/// Whether lint reports `rule` about the sticky `id`.
pub open spec fn flagged(m: ModelV, rule: Seq<char>, id: Seq<char>) -> bool {
    flagged_upto(m, m.elements.len() as int, rule, id)
}

/// Whether the findings about the first `n` stickies report `rule` about `id`.
pub open spec fn flagged_upto(m: ModelV, n: int, rule: Seq<char>, id: Seq<char>) -> bool {
    exists|i: int|
        0 <= i < findings_upto(m, n).len() && (#[trigger] findings_upto(m, n)[i]).rule == rule
            && findings_upto(m, n)[i].element_id == id
}

/// Whether the sticky `e` has the gap that `rule` reports.
pub open spec fn has_gap(m: ModelV, rule: Seq<char>, e: ElementV) -> bool {
    &&& rule == "event-no-producer"@ ==> e.kind == Lane::Event && !has_inbound(m, e.id)
    &&& rule == "event-dead-end"@ ==> e.kind == Lane::Event && !has_outbound(m, e.id)
    &&& rule == "policy-no-input"@ ==> e.kind == Lane::Policy && !has_inbound(m, e.id)
    &&& rule == "policy-no-output"@ ==> e.kind == Lane::Policy && !has_outbound(m, e.id)
    &&& rule == "command-no-output"@ ==> e.kind == Lane::Command && m.level == Level::Design
        && !has_outbound(m, e.id)
}

proof fn lemma_flagged_stays(m: ModelV, n1: int, n2: int, rule: Seq<char>, id: Seq<char>)
    requires
        0 <= n1 <= n2 <= m.elements.len(),
        flagged_upto(m, n1, rule, id),
    ensures
        flagged_upto(m, n2, rule, id),
    decreases n2 - n1,
{
    if n1 < n2 {
        let r = findings_upto(m, n1);
        let all = findings_upto(m, n1 + 1);
        assert(all == r + element_findings(m, m.elements[n1]));
        let i = choose|i: int| 0 <= i < r.len() && (#[trigger] r[i]).rule == rule && r[i].element_id == id;
        assert(all[i] == r[i]);
        lemma_flagged_stays(m, n1 + 1, n2, rule, id);
    }
}

proof fn lemma_flagged_here(m: ModelV, k: int, j: int)
    requires
        0 <= k < m.elements.len(),
        0 <= j < element_findings(m, m.elements[k]).len(),
    ensures
        flagged(
            m,
            element_findings(m, m.elements[k])[j].rule,
            element_findings(m, m.elements[k])[j].element_id,
        ),
{
    let ef = element_findings(m, m.elements[k]);
    let r = findings_upto(m, k);
    let all = findings_upto(m, k + 1);
    assert(all == r + ef);
    assert(all[r.len() + j] == ef[j]);
    lemma_flagged_stays(m, k + 1, m.elements.len() as int, ef[j].rule, ef[j].element_id);
}

proof fn lemma_findings_sound(m: ModelV, n: int)
    requires
        0 <= n <= m.elements.len(),
    ensures
        forall|i: int|
            0 <= i < findings_upto(m, n).len() ==> exists|k: int|
                #![trigger m.elements[k]]
                0 <= k < n && m.elements[k].id == (#[trigger] findings_upto(m, n)[i]).element_id
                    && has_gap(m, findings_upto(m, n)[i].rule, m.elements[k]),
    decreases n,
{
    if n > 0 {
        lemma_rules_differ();
        lemma_findings_sound(m, n - 1);
        let r = findings_upto(m, n - 1);
        let e = m.elements[n - 1];
        let ef = element_findings(m, e);
        let all = findings_upto(m, n);
        assert(all == r + ef);
        assert forall|i: int| 0 <= i < all.len() implies exists|k: int|
            #![trigger m.elements[k]]
            0 <= k < n && m.elements[k].id == (#[trigger] all[i]).element_id && has_gap(m, all[i].rule, m.elements[k]) by {
            if i < r.len() {
                assert(all[i] == r[i]);
            } else {
                assert(all[i] == ef[i - r.len()]);
                assert(ef[i - r.len()].element_id == e.id);
                assert(has_gap(m, ef[i - r.len()].rule, e));
                assert(m.elements[n - 1] == e);
            }
        }
    }
}

/// Lint reports every grammar gap of every sticky: an event that nothing produces
/// (`event-no-producer`) or that leads nowhere (`event-dead-end`), a policy with no input
/// (`policy-no-input`) or no output (`policy-no-output`), and on a design-level board a command
/// that emits nothing (`command-no-output`).
pub proof fn lint_flags_every_gap(m: ModelV, k: int)
    requires
        0 <= k < m.elements.len(),
    ensures
        ({
            let e = m.elements[k];
            &&& e.kind == Lane::Event && !has_inbound(m, e.id) ==> flagged(m, "event-no-producer"@, e.id)
            &&& e.kind == Lane::Event && !has_outbound(m, e.id) ==> flagged(m, "event-dead-end"@, e.id)
            &&& e.kind == Lane::Policy && !has_inbound(m, e.id) ==> flagged(m, "policy-no-input"@, e.id)
            &&& e.kind == Lane::Policy && !has_outbound(m, e.id) ==> flagged(m, "policy-no-output"@, e.id)
            &&& e.kind == Lane::Command && m.level == Level::Design && !has_outbound(m, e.id)
                ==> flagged(m, "command-no-output"@, e.id)
        }),
{
    let e = m.elements[k];
    let ef = element_findings(m, e);
    if ef.len() > 0 {
        lemma_flagged_here(m, k, 0);
    }
    if ef.len() > 1 {
        lemma_flagged_here(m, k, 1);
    }
}

/// Lint reports a gap only where there is one: every finding of a rule names a sticky of the
/// board in that rule's lane that lacks the edge the rule asks for.
pub proof fn lint_flags_only_real_gaps(m: ModelV, i: int)
    requires
        0 <= i < lint_spec(m).len(),
    ensures
        exists|k: int|
            0 <= k < m.elements.len() && #[trigger] m.elements[k].id == lint_spec(m)[i].element_id
                && has_gap(m, lint_spec(m)[i].rule, m.elements[k]),
{
    lemma_findings_sound(m, m.elements.len() as int);
    let f = findings_upto(m, m.elements.len() as int);
    assert(f[i] == lint_spec(m)[i]);
    let k = choose|k: int|
        #![trigger m.elements[k]]
        0 <= k < m.elements.len() && m.elements[k].id == f[i].element_id && has_gap(m, f[i].rule, m.elements[k]);
    assert(m.elements[k].id == lint_spec(m)[i].element_id);
}

} // verus!
