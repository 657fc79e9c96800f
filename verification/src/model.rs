//! The typed board model.
//!
//! A board is elements (coloured stickies) on a shared left-to-right column axis, grouped into
//! lanes by `type`, connected by directed edges, and cut into regions (phases) that partition the
//! timeline. Identity is the stable `id`, never text or position.

use crate::json::{
    arr_view, field_arr, field_bool, field_int, field_num, field_str, jarr, jstr, lemma_arr_view, parse,
    parse_spec, Json, JsonV,
};
use crate::number::{
    canonical, dec_digits, digit_val, is_digit, lead_digits, push_dec, Number, MAX_TEXT,
};
use crate::replay::unique_phase_ids;
use crate::text::{chars_of, str_eq, string_of};
use vstd::prelude::*;

verus! {

/// The board's declared modeling granularity, which parameterises lint strictness.
#[derive(Clone, Copy, PartialEq, Eq, Structural, Debug)]
pub enum Level {
    BigPicture,
    Design,
}

/// The board format a log or model file declares. One variant today; the tag exists so a foreign
/// file is refused instead of read as an empty board.
#[derive(Clone, Copy, PartialEq, Eq, Structural, Debug)]
pub enum Format {
    EventStorming,
}

/// The eight-lane event-storming grammar: a sticky's `type`, which selects its lane and colour.
#[derive(Clone, Copy, PartialEq, Eq, Structural, Hash, Debug)]
pub enum Lane {
    Actor,
    Command,
    Aggregate,
    Event,
    Policy,
    ReadModel,
    External,
    Hotspot,
}

/// The wire string of a level.
pub open spec fn level_wire(l: Level) -> Seq<char> {
    match l {
        Level::BigPicture => "big-picture"@,
        Level::Design => "design"@,
    }
}

/// The level a board string declares: `"design"`, or the big picture for anything else.
pub open spec fn level_of(s: Seq<char>) -> Level {
    if s == "design"@ {
        Level::Design
    } else {
        Level::BigPicture
    }
}

/// The wire string of a format.
pub open spec fn format_wire(f: Format) -> Seq<char> {
    match f {
        Format::EventStorming => "event-storming"@,
    }
}

/// The format a board string names, if this build speaks it.
pub open spec fn format_of(s: Seq<char>) -> Option<Format> {
    if s == "event-storming"@ {
        Some(Format::EventStorming)
    } else {
        None
    }
}

/// The wire string of a lane.
pub open spec fn lane_wire(l: Lane) -> Seq<char> {
    match l {
        Lane::Actor => "actor"@,
        Lane::Command => "command"@,
        Lane::Aggregate => "aggregate"@,
        Lane::Event => "event"@,
        Lane::Policy => "policy"@,
        Lane::ReadModel => "readmodel"@,
        Lane::External => "external"@,
        Lane::Hotspot => "hotspot"@,
    }
}

/// The lane a `type` string names, if it names one of the eight.
pub open spec fn lane_of(s: Seq<char>) -> Option<Lane> {
    if s == "actor"@ {
        Some(Lane::Actor)
    } else if s == "command"@ {
        Some(Lane::Command)
    } else if s == "aggregate"@ {
        Some(Lane::Aggregate)
    } else if s == "event"@ {
        Some(Lane::Event)
    } else if s == "policy"@ {
        Some(Lane::Policy)
    } else if s == "readmodel"@ {
        Some(Lane::ReadModel)
    } else if s == "external"@ {
        Some(Lane::External)
    } else if s == "hotspot"@ {
        Some(Lane::Hotspot)
    } else {
        None
    }
}

/// Parse a board `level` string. `"design"` is `Design`; anything else (including
/// `"big-picture"` and unknown values) is `BigPicture`.
pub fn level_from_str(s: &str) -> (l: Level)
    ensures
        l == level_of(s@),
{
    if str_eq(s, "design") {
        Level::Design
    } else {
        Level::BigPicture
    }
}

/// The wire string for a `Level`, the reverse of [`level_from_str`].
pub fn level_to_str(level: Level) -> (s: &'static str)
    ensures
        s@ == level_wire(level),
{
    match level {
        Level::BigPicture => "big-picture",
        Level::Design => "design",
    }
}

/// Parse a board `format` string, or `None` if this build does not speak it.
pub fn format_from_str(s: &str) -> (f: Option<Format>)
    ensures
        f == format_of(s@),
{
    if str_eq(s, "event-storming") {
        Some(Format::EventStorming)
    } else {
        None
    }
}

/// The wire string for a `Format`, the reverse of [`format_from_str`].
pub fn format_to_str(format: Format) -> (s: &'static str)
    ensures
        s@ == format_wire(format),
{
    match format {
        Format::EventStorming => "event-storming",
    }
}

/// The text `format!("{:?}", s)` writes for a string: quoted, with escapes.
pub uninterp spec fn debug_text(s: Seq<char>) -> Seq<char>;

/// `format!("{:?}", s)`: a string written the way `Debug` writes it.
#[verifier::external_body]
pub(crate) fn debug_str(s: &str) -> (r: String)
    ensures
        r@ == debug_text(s@),
{
    format!("{:?}", s)
}

/// The refusal of a format this build does not speak.
pub open spec fn unknown_format_msg(s: Seq<char>) -> Seq<char> {
    "board format "@ + debug_text(s)
        + " is not one this faceto speaks (it reads event-storming) — the file is from another format, or from a newer faceto"@
}

/// A declared format tag read at a file boundary: absent is the default (as `level` is), one this
/// build speaks is that format, and any other is refused.
pub open spec fn format_declared_spec(tag: Option<Seq<char>>) -> Result<Format, Seq<char>> {
    match tag {
        None => Ok(Format::EventStorming),
        Some(s) => match format_of(s) {
            Some(f) => Ok(f),
            None => Err(unknown_format_msg(s)),
        },
    }
}

pub open spec fn opt_str_view(tag: Option<&str>) -> Option<Seq<char>> {
    match tag {
        Some(t) => Some(t@),
        None => None,
    }
}

/// Resolve a declared format tag at a read boundary. Absent gives the default (`event-storming`),
/// so every file written before the tag existed reads unchanged; present but unrecognised is an
/// error naming the format, because going on would show a board this build cannot project as an
/// empty one.
pub fn format_declared(tag: Option<&str>) -> (r: Result<Format, String>)
    ensures
        match r {
            Ok(f) => format_declared_spec(opt_str_view(tag)) == Ok::<Format, Seq<char>>(f),
            Err(m) => format_declared_spec(opt_str_view(tag)) == Err::<Format, Seq<char>>(m@),
        },
{
    match tag {
        None => Ok(Format::EventStorming),
        Some(s) => match format_from_str(s) {
            Some(f) => Ok(f),
            None => {
                let mut v = chars_of("board format ");
                let d = debug_str(s);
                let mut dv = chars_of(d.as_str());
                v.append(&mut dv);
                let mut tail = chars_of(
                    " is not one this faceto speaks (it reads event-storming) — the file is from another format, or from a newer faceto",
                );
                v.append(&mut tail);
                Err(string_of(&v))
            },
        },
    }
}

/// Parse a sticky's `type`, or `None` if it names no lane of the grammar.
pub fn lane_from_str(s: &str) -> (l: Option<Lane>)
    ensures
        l == lane_of(s@),
{
    if str_eq(s, "actor") {
        Some(Lane::Actor)
    } else if str_eq(s, "command") {
        Some(Lane::Command)
    } else if str_eq(s, "aggregate") {
        Some(Lane::Aggregate)
    } else if str_eq(s, "event") {
        Some(Lane::Event)
    } else if str_eq(s, "policy") {
        Some(Lane::Policy)
    } else if str_eq(s, "readmodel") {
        Some(Lane::ReadModel)
    } else if str_eq(s, "external") {
        Some(Lane::External)
    } else if str_eq(s, "hotspot") {
        Some(Lane::Hotspot)
    } else {
        None
    }
}

/// The wire string for a `Lane`, the reverse of [`lane_from_str`].
pub fn lane_to_str(lane: Lane) -> (s: &'static str)
    ensures
        s@ == lane_wire(lane),
{
    match lane {
        Lane::Actor => "actor",
        Lane::Command => "command",
        Lane::Aggregate => "aggregate",
        Lane::Event => "event",
        Lane::Policy => "policy",
        Lane::ReadModel => "readmodel",
        Lane::External => "external",
        Lane::Hotspot => "hotspot",
    }
}

/// Every lane, in the canonical top-to-bottom board order.
pub open spec fn lanes() -> Seq<Lane> {
    seq![
        Lane::Actor,
        Lane::Command,
        Lane::Aggregate,
        Lane::Event,
        Lane::Policy,
        Lane::ReadModel,
        Lane::External,
        Lane::Hotspot,
    ]
}

/// Every lane, in the canonical order (`actor` first, `hotspot` last).
pub fn all_lanes() -> (v: Vec<Lane>)
    ensures
        v@ == lanes(),
{
    let v = vec![
        Lane::Actor,
        Lane::Command,
        Lane::Aggregate,
        Lane::Event,
        Lane::Policy,
        Lane::ReadModel,
        Lane::External,
        Lane::Hotspot,
    ];
    assert(v@ =~= lanes());
    v
}

/// `to_str` then `from_str` gives the level back.
pub proof fn level_round_trip(level: Level)
    ensures
        level_of(level_wire(level)) == level,
{
    reveal_strlit("design");
    reveal_strlit("big-picture");
    assert("design"@.len() != "big-picture"@.len());
}

/// `to_str` then `from_str` gives the format back.
pub proof fn format_round_trip(format: Format)
    ensures
        format_of(format_wire(format)) == Some(format),
{
}

/// `to_str` then `from_str` gives the lane back: the grammar's wire strings are distinct.
pub proof fn lane_round_trip(lane: Lane)
    ensures
        lane_of(lane_wire(lane)) == Some(lane),
{
    reveal_strlit("actor");
    reveal_strlit("command");
    reveal_strlit("aggregate");
    reveal_strlit("event");
    reveal_strlit("policy");
    reveal_strlit("readmodel");
    reveal_strlit("external");
    reveal_strlit("hotspot");
    let w = seq![
        "actor"@,
        "command"@,
        "aggregate"@,
        "event"@,
        "policy"@,
        "readmodel"@,
        "external"@,
        "hotspot"@,
    ];
    assert forall|i: int, j: int| 0 <= i < 8 && 0 <= j < 8 && i != j implies w[i] != w[j] by {
        assert(w[i].len() != w[j].len() || w[i][0] != w[j][0]);
    }
    assert(w[0] != w[3] && w[0] != w[1] && w[1] != w[7] && w[2] != w[5]);
}


// ---- the board ---------------------------------------------------------------------------

/// A region: a labelled band `[from_col, to_col]` of the timeline.
#[derive(Clone, PartialEq, Debug)]
pub struct Phase {
    pub id: String,
    pub label: String,
    pub from_col: i64,
    pub to_col: i64,
}

/// A sticky.
#[derive(Clone, PartialEq, Debug)]
pub struct Element {
    pub id: String,
    /// The sticky's lane (the `"type"` key on the wire).
    pub kind: Lane,
    pub label: String,
    pub col: Option<i64>,
    pub detail: Option<String>,
    /// Vertical sub-position within the lane band, a fraction in `[0, 1]`; `None` = auto-stacked.
    pub y: Option<Number>,
    pub resolved: bool,
    /// Attached reference URLs.
    pub links: Vec<String>,
}

/// A directed connection between two stickies.
#[derive(Clone, PartialEq, Debug)]
pub struct Edge {
    pub src: String,
    pub dst: String,
    pub label: Option<String>,
}

/// A board.
#[derive(Clone, PartialEq, Debug)]
pub struct Model {
    pub title: String,
    pub format: Format,
    pub level: Level,
    pub phases: Vec<Phase>,
    pub elements: Vec<Element>,
    pub edges: Vec<Edge>,
}

/// What a region denotes.
pub struct PhaseV {
    pub id: Seq<char>,
    pub label: Seq<char>,
    pub from_col: i64,
    pub to_col: i64,
}

/// What a sticky denotes.
pub struct ElementV {
    pub id: Seq<char>,
    pub kind: Lane,
    pub label: Seq<char>,
    pub col: Option<i64>,
    pub detail: Option<Seq<char>>,
    pub y: Option<Number>,
    pub resolved: bool,
    pub links: Seq<Seq<char>>,
}

/// What an edge denotes.
pub struct EdgeV {
    pub src: Seq<char>,
    pub dst: Seq<char>,
    pub label: Option<Seq<char>>,
}

/// What a board denotes.
pub struct ModelV {
    pub title: Seq<char>,
    pub format: Format,
    pub level: Level,
    pub phases: Seq<PhaseV>,
    pub elements: Seq<ElementV>,
    pub edges: Seq<EdgeV>,
}

pub open spec fn opt_view(s: Option<String>) -> Option<Seq<char>> {
    match s {
        Some(t) => Some(t@),
        None => None,
    }
}

pub open spec fn strings_view(v: Seq<String>) -> Seq<Seq<char>> {
    v.map_values(|s: String| s@)
}

impl View for Phase {
    type V = PhaseV;

    open spec fn view(&self) -> PhaseV {
        PhaseV { id: self.id@, label: self.label@, from_col: self.from_col, to_col: self.to_col }
    }
}

impl View for Element {
    type V = ElementV;

    open spec fn view(&self) -> ElementV {
        ElementV {
            id: self.id@,
            kind: self.kind,
            label: self.label@,
            col: self.col,
            detail: opt_view(self.detail),
            y: self.y,
            resolved: self.resolved,
            links: strings_view(self.links@),
        }
    }
}

impl View for Edge {
    type V = EdgeV;

    open spec fn view(&self) -> EdgeV {
        EdgeV { src: self.src@, dst: self.dst@, label: opt_view(self.label) }
    }
}

pub open spec fn phases_view(v: Seq<Phase>) -> Seq<PhaseV> {
    v.map_values(|p: Phase| p@)
}

pub open spec fn elements_view(v: Seq<Element>) -> Seq<ElementV> {
    v.map_values(|e: Element| e@)
}

pub open spec fn edges_view(v: Seq<Edge>) -> Seq<EdgeV> {
    v.map_values(|e: Edge| e@)
}

impl View for Model {
    type V = ModelV;

    open spec fn view(&self) -> ModelV {
        ModelV {
            title: self.title@,
            format: self.format,
            level: self.level,
            phases: phases_view(self.phases@),
            elements: elements_view(self.elements@),
            edges: edges_view(self.edges@),
        }
    }
}

/// Whether every stored sub-position of a board is a canonical number.
pub open spec fn wf_elements(es: Seq<ElementV>) -> bool {
    forall|i: int| 0 <= i < es.len() ==> ((#[trigger] es[i]).y matches Some(n) ==> canonical(n))
}

/// The empty board.
pub open spec fn empty_model() -> ModelV {
    ModelV {
        title: Seq::empty(),
        format: Format::EventStorming,
        level: Level::BigPicture,
        phases: Seq::empty(),
        elements: Seq::empty(),
        edges: Seq::empty(),
    }
}

pub fn clone_opt(s: &Option<String>) -> (r: Option<String>)
    ensures
        opt_view(r) == opt_view(*s),
{
    match s {
        Some(t) => Some(t.clone()),
        None => None,
    }
}

pub fn clone_strings(v: &Vec<String>) -> (r: Vec<String>)
    ensures
        r@ == v@,
        strings_view(r@) == strings_view(v@),
{
    let mut r: Vec<String> = Vec::new();
    let mut i: usize = 0;
    while i < v.len()
        invariant
            i <= v.len(),
            r@ == v@.take(i as int),
        decreases v.len() - i,
    {
        r.push(v[i].clone());
        i = i + 1;
        assert(r@ =~= v@.take(i as int));
    }
    assert(v@.take(v.len() as int) =~= v@);
    r
}

impl Phase {
    pub fn copy(&self) -> (r: Phase)
        ensures
            r@ == self@,
    {
        Phase {
            id: self.id.clone(),
            label: self.label.clone(),
            from_col: self.from_col,
            to_col: self.to_col,
        }
    }
}

impl Element {
    pub fn copy(&self) -> (r: Element)
        ensures
            r@ == self@,
    {
        Element {
            id: self.id.clone(),
            kind: self.kind,
            label: self.label.clone(),
            col: self.col,
            detail: clone_opt(&self.detail),
            y: self.y,
            resolved: self.resolved,
            links: clone_strings(&self.links),
        }
    }
}

impl Edge {
    pub fn copy(&self) -> (r: Edge)
        ensures
            r@ == self@,
    {
        Edge { src: self.src.clone(), dst: self.dst.clone(), label: clone_opt(&self.label) }
    }
}

impl Model {
    /// The empty board: no title, the default format and level, nothing on it.
    pub fn new() -> (m: Model)
        ensures
            m@ == empty_model(),
    {
        let m = Model {
            title: String::new(),
            format: Format::EventStorming,
            level: Level::BigPicture,
            phases: Vec::new(),
            elements: Vec::new(),
            edges: Vec::new(),
        };
        assert(m@.phases =~= Seq::<PhaseV>::empty());
        assert(m@.elements =~= Seq::<ElementV>::empty());
        assert(m@.edges =~= Seq::<EdgeV>::empty());
        m
    }
}

impl Default for Model {
    fn default() -> (m: Model)
        ensures
            m@ == empty_model(),
    {
        Model::new()
    }
}

// ---- the region partition -------------------------------------------------------------

/// Lexicographic order on character sequences (code point by code point).
pub open spec fn seq_lt(a: Seq<char>, b: Seq<char>) -> bool
    decreases a.len(),
{
    if a.len() == 0 {
        b.len() > 0
    } else if b.len() == 0 {
        false
    } else if a[0] != b[0] {
        a[0] < b[0]
    } else {
        seq_lt(a.drop_first(), b.drop_first())
    }
}

/// The order regions are swept in: by `(from_col, to_col, id)`.
pub open spec fn key_lt(a: PhaseV, b: PhaseV) -> bool {
    a.from_col < b.from_col || (a.from_col == b.from_col && (a.to_col < b.to_col || (a.to_col
        == b.to_col && seq_lt(a.id, b.id))))
}

/// `s` with `p` inserted after every region that does not sort after it.
pub open spec fn insert_sorted(s: Seq<PhaseV>, p: PhaseV) -> Seq<PhaseV>
    decreases s.len(),
{
    if s.len() == 0 {
        seq![p]
    } else if key_lt(p, s.last()) {
        insert_sorted(s.drop_last(), p).push(s.last())
    } else {
        s.push(p)
    }
}

/// The stable sort of a region list by `(from_col, to_col, id)`.
pub open spec fn sort_phases(s: Seq<PhaseV>) -> Seq<PhaseV>
    decreases s.len(),
{
    if s.len() == 0 {
        s
    } else {
        insert_sorted(sort_phases(s.drop_last()), s.last())
    }
}

pub open spec fn max_int(a: int, b: int) -> int {
    if a >= b {
        a
    } else {
        b
    }
}

/// `c + 1`, saturating at `i64::MAX`.
pub open spec fn sat_inc(c: int) -> int {
    if c >= i64::MAX {
        i64::MAX as int
    } else {
        c + 1
    }
}

/// The start the sweep gives the `k`-th region of `s`, starting from `c0`.
pub open spec fn cursor_at(s: Seq<PhaseV>, c0: int, k: nat) -> int
    decreases k,
{
    if k == 0 {
        c0
    } else {
        sat_inc(max_int(s[k - 1].to_col as int, cursor_at(s, c0, (k - 1) as nat)))
    }
}

/// The left-to-right sweep: each region starts where the previous one ended (plus one) and keeps
/// its own end, never before its start.
pub open spec fn sweep(s: Seq<PhaseV>, c0: int) -> Seq<PhaseV> {
    Seq::new(
        s.len(),
        |k: int|
            PhaseV {
                id: s[k].id,
                label: s[k].label,
                from_col: cursor_at(s, c0, k as nat) as i64,
                to_col: max_int(s[k].to_col as int, cursor_at(s, c0, k as nat)) as i64,
            },
    )
}

/// A region list projected onto a contiguous partition of the timeline: sorted by
/// `(from_col, to_col, id)`, anchored at the first region's `from_col`, then swept.
pub open spec fn normalize_spec(s: Seq<PhaseV>) -> Seq<PhaseV> {
    if s.len() == 0 {
        s
    } else {
        let t = sort_phases(s);
        sweep(t, t[0].from_col as int)
    }
}

/// Whether a region list is a contiguous partition: each region at least one column wide, each
/// starting one past where the previous ended.
pub open spec fn is_partition(s: Seq<PhaseV>) -> bool {
    &&& forall|k: int| 0 <= k < s.len() ==> (#[trigger] s[k]).from_col <= s[k].to_col
    &&& forall|k: int| 0 <= k < s.len() - 1 ==> #[trigger] s[k + 1].from_col == s[k].to_col + 1
}

proof fn lemma_insert_sorted_len(s: Seq<PhaseV>, p: PhaseV)
    ensures
        insert_sorted(s, p).len() == s.len() + 1,
    decreases s.len(),
{
    if s.len() > 0 && key_lt(p, s.last()) {
        lemma_insert_sorted_len(s.drop_last(), p);
    }
}

proof fn lemma_sort_len(s: Seq<PhaseV>)
    ensures
        sort_phases(s).len() == s.len(),
    decreases s.len(),
{
    if s.len() > 0 {
        lemma_sort_len(s.drop_last());
        lemma_insert_sorted_len(sort_phases(s.drop_last()), s.last());
    }
}

proof fn lemma_insert_at(s: Seq<PhaseV>, p: PhaseV, pos: int)
    requires
        0 <= pos <= s.len(),
        forall|j: int| pos <= j < s.len() ==> key_lt(p, #[trigger] s[j]),
        pos == 0 || !key_lt(p, s[pos - 1]),
    ensures
        insert_sorted(s, p) == s.take(pos).push(p) + s.skip(pos),
    decreases s.len(),
{
    if s.len() > pos {
        assert(key_lt(p, s[s.len() - 1]));
        lemma_insert_at(s.drop_last(), p, pos);
        assert(insert_sorted(s, p) =~= s.take(pos).push(p) + s.skip(pos));
    } else if s.len() == 0 {
        assert(insert_sorted(s, p) =~= s.take(pos).push(p) + s.skip(pos));
    } else {
        assert(insert_sorted(s, p) =~= s.take(pos).push(p) + s.skip(pos));
    }
}

/// Lexicographic comparison of character vectors.
pub fn chars_lt(a: &Vec<char>, b: &Vec<char>) -> (r: bool)
    ensures
        r == seq_lt(a@, b@),
{
    let mut i: usize = 0;
    assert(a@.skip(0) =~= a@);
    assert(b@.skip(0) =~= b@);
    while i < a.len() && i < b.len() && a[i] == b[i]
        invariant
            i <= a.len(),
            i <= b.len(),
            seq_lt(a@, b@) == seq_lt(a@.skip(i as int), b@.skip(i as int)),
        decreases a.len() - i,
    {
        assert(a@.skip(i as int).drop_first() =~= a@.skip(i + 1));
        assert(b@.skip(i as int).drop_first() =~= b@.skip(i + 1));
        i = i + 1;
    }
    if i == a.len() {
        i < b.len()
    } else if i == b.len() {
        false
    } else {
        a[i] < b[i]
    }
}

fn phase_key_lt(a: &Phase, b: &Phase) -> (r: bool)
    ensures
        r == key_lt(a@, b@),
{
    if a.from_col != b.from_col {
        return a.from_col < b.from_col;
    }
    if a.to_col != b.to_col {
        return a.to_col < b.to_col;
    }
    let ai = crate::text::chars_of(a.id.as_str());
    let bi = crate::text::chars_of(b.id.as_str());
    chars_lt(&ai, &bi)
}

/// Project a region list onto a contiguous partition of the timeline: sorted left to right by
/// `(from_col, to_col, id)`, the first region keeps its start, and every later region starts one
/// past where the previous one ended, keeping its own end unless that would precede its start.
pub fn normalize(phases: &mut Vec<Phase>)
    ensures
        phases_view(final(phases)@) == normalize_spec(phases_view(old(phases)@)),
{
    if phases.len() == 0 {
        assert(phases_view(phases@) =~= normalize_spec(phases_view(old(phases)@)));
        return;
    }
    let mut input: Vec<Phase> = Vec::new();
    std::mem::swap(&mut input, phases);
    let ghost src = phases_view(input@);
    // Stable insertion sort.
    let mut out: Vec<Phase> = Vec::new();
    let mut i: usize = 0;
    assert(src.take(0) =~= Seq::<PhaseV>::empty());
    while i < input.len()
        invariant
            i <= input.len(),
            src == phases_view(input@),
            phases_view(out@) == sort_phases(src.take(i as int)),
        decreases input.len() - i,
    {
        let p = input[i].copy();
        let ghost sorted = phases_view(out@);
        let mut pos = out.len();
        while pos > 0 && phase_key_lt(&p, &out[pos - 1])
            invariant
                pos <= out.len(),
                sorted == phases_view(out@),
                forall|j: int| pos <= j < out.len() ==> key_lt(p@, #[trigger] sorted[j]),
            decreases pos,
        {
            pos = pos - 1;
        }
        proof {
            lemma_insert_at(sorted, p@, pos as int);
            assert(src.take(i + 1).drop_last() =~= src.take(i as int));
            assert(src.take(i + 1).last() == p@);
        }
        out.insert(pos, p);
        assert(phases_view(out@) =~= sorted.take(pos as int).push(p@) + sorted.skip(pos as int));
        i = i + 1;
    }
    assert(src.take(input.len() as int) =~= src);
    let ghost t = phases_view(out@);
    proof {
        lemma_sort_len(src);
    }
    // The sweep.
    let c0 = out[0].from_col;
    let mut cursor = c0;
    let mut k: usize = 0;
    while k < out.len()
        invariant
            k <= out.len() == t.len(),
            t.len() > 0,
            c0 == t[0].from_col,
            cursor == cursor_at(t, c0 as int, k as nat),
            forall|j: int| 0 <= j < k ==> #[trigger] phases_view(out@)[j] == sweep(t, c0 as int)[j],
            forall|j: int| k <= j < out.len() ==> #[trigger] phases_view(out@)[j] == t[j],
        decreases out.len() - k,
    {
        let p = out[k].copy();
        assert(phases_view(out@)[k as int] == out@[k as int]@);
        assert(p@ == t[k as int]);
        let to = if p.to_col >= cursor { p.to_col } else { cursor };
        let q = Phase { id: p.id, label: p.label, from_col: cursor, to_col: to };
        let ghost prev = out@;
        out.set(k, q);
        proof {
            assert(out@ == prev.update(k as int, q));
            assert(phases_view(out@) =~= phases_view(prev).update(k as int, q@));
            assert(q@ == sweep(t, c0 as int)[k as int]);
        }
        cursor = if to == i64::MAX { i64::MAX } else { to + 1 };
        assert(cursor == cursor_at(t, c0 as int, (k + 1) as nat));
        k = k + 1;
    }
    assert(phases_view(out@) =~= sweep(t, c0 as int));
    *phases = out;
}

proof fn lemma_cursor_range(s: Seq<PhaseV>, c0: int, k: nat)
    requires
        i64::MIN <= c0 <= i64::MAX,
        k <= s.len(),
    ensures
        c0 <= cursor_at(s, c0, k) <= i64::MAX,
    decreases k,
{
    if k > 0 {
        lemma_cursor_range(s, c0, (k - 1) as nat);
    }
}

/// Normalizing any region list yields a contiguous partition of the timeline: every region at
/// least one column wide, each starting one past where the previous one ended (for lists whose
/// result stays clear of the `i64::MAX` column, where the sweep saturates).
pub proof fn normalize_yields_partition(s: Seq<PhaseV>)
    requires
        forall|k: int|
            0 <= k < normalize_spec(s).len() ==> (#[trigger] normalize_spec(s)[k]).to_col
                < i64::MAX,
    ensures
        is_partition(normalize_spec(s)),
        normalize_spec(s).len() == s.len(),
{
    if s.len() > 0 {
        let t = sort_phases(s);
        lemma_sort_len(s);
        let c0 = t[0].from_col as int;
        let r = normalize_spec(s);
        assert forall|k: int| 0 <= k < r.len() implies (#[trigger] r[k]).from_col <= r[k].to_col by {
            lemma_cursor_range(t, c0, k as nat);
        }
        assert forall|k: int| 0 <= k < r.len() - 1 implies #[trigger] r[k + 1].from_col == r[k].to_col
            + 1 by {
            lemma_cursor_range(t, c0, k as nat);
            lemma_cursor_range(t, c0, (k + 1) as nat);
            assert(r[k].to_col < i64::MAX);
        }
    }
}

proof fn lemma_sort_sorted(r: Seq<PhaseV>)
    requires
        forall|k: int| 0 <= k < r.len() - 1 ==> !key_lt(#[trigger] r[k + 1], r[k]),
    ensures
        sort_phases(r) == r,
    decreases r.len(),
{
    if r.len() > 0 {
        let d = r.drop_last();
        assert forall|k: int| 0 <= k < d.len() - 1 implies !key_lt(#[trigger] d[k + 1], d[k]) by {
            assert(d[k + 1] == r[k + 1] && d[k] == r[k]);
        }
        lemma_sort_sorted(d);
        if d.len() > 0 {
            assert(!key_lt(r[r.len() - 1], r[r.len() - 2]));
            assert(d.last() == r[r.len() - 2]);
        }
        assert(d.push(r.last()) =~= r);
    }
}

proof fn lemma_sweep_partition(r: Seq<PhaseV>, k: nat)
    requires
        is_partition(r),
        r.len() > 0,
        k < r.len(),
        forall|j: int| 0 <= j < r.len() ==> (#[trigger] r[j]).to_col < i64::MAX,
    ensures
        cursor_at(r, r[0].from_col as int, k) == r[k as int].from_col,
    decreases k,
{
    if k > 0 {
        lemma_sweep_partition(r, (k - 1) as nat);
        let j: int = k - 1;
        assert(r[j + 1].from_col == r[j].to_col + 1);
        assert(r[k as int].from_col == r[k - 1].to_col + 1);
    }
}

/// Whether every border of every region lies in `[lo, hi]`.
pub open spec fn cols_within(s: Seq<PhaseV>, lo: int, hi: int) -> bool {
    forall|k: int|
        0 <= k < s.len() ==> lo <= #[trigger] s[k].from_col && s[k].from_col <= hi && lo
            <= s[k].to_col && s[k].to_col <= hi
}

proof fn lemma_insert_within(s: Seq<PhaseV>, p: PhaseV, lo: int, hi: int)
    requires
        cols_within(s, lo, hi),
        cols_within(seq![p], lo, hi),
    ensures
        cols_within(insert_sorted(s, p), lo, hi),
    decreases s.len(),
{
    assert(seq![p][0] == p);
    if s.len() > 0 && key_lt(p, s.last()) {
        let d = s.drop_last();
        assert forall|k: int| 0 <= k < d.len() implies lo <= #[trigger] d[k].from_col
            && d[k].from_col <= hi && lo <= d[k].to_col && d[k].to_col <= hi by {
            assert(d[k] == s[k]);
        }
        lemma_insert_within(d, p, lo, hi);
        assert(s.last() == s[s.len() - 1]);
    } else if s.len() > 0 {
        assert(insert_sorted(s, p) == s.push(p));
    } else {
        assert(insert_sorted(s, p) == seq![p]);
    }
}

proof fn lemma_sort_within(s: Seq<PhaseV>, lo: int, hi: int)
    requires
        cols_within(s, lo, hi),
    ensures
        cols_within(sort_phases(s), lo, hi),
    decreases s.len(),
{
    if s.len() > 0 {
        let d = s.drop_last();
        assert forall|k: int| 0 <= k < d.len() implies lo <= #[trigger] d[k].from_col
            && d[k].from_col <= hi && lo <= d[k].to_col && d[k].to_col <= hi by {
            assert(d[k] == s[k]);
        }
        lemma_sort_within(d, lo, hi);
        assert(seq![s.last()][0] == s[s.len() - 1]);
        lemma_insert_within(sort_phases(d), s.last(), lo, hi);
    }
}

proof fn lemma_cursor_bound(s: Seq<PhaseV>, c0: int, hi: int, k: nat)
    requires
        k <= s.len(),
        c0 <= hi,
        forall|j: int| 0 <= j < s.len() ==> (#[trigger] s[j]).to_col <= hi,
    ensures
        cursor_at(s, c0, k) <= hi + k,
    decreases k,
{
    if k > 0 {
        lemma_cursor_bound(s, c0, hi, (k - 1) as nat);
        assert(s[k - 1].to_col <= hi);
    }
}

/// Normalizing regions whose borders lie in `[lo, hi]` moves no end past `hi` plus the number of
/// regions: the sweep pushes a region right by at most one column per region before it.
pub proof fn normalize_stays_near(s: Seq<PhaseV>, lo: int, hi: int)
    requires
        cols_within(s, lo, hi),
    ensures
        forall|k: int|
            0 <= k < normalize_spec(s).len() ==> (#[trigger] normalize_spec(s)[k]).to_col <= hi
                + s.len(),
        normalize_spec(s).len() == s.len(),
{
    if s.len() > 0 {
        let t = sort_phases(s);
        lemma_sort_len(s);
        lemma_sort_within(s, lo, hi);
        let c0 = t[0].from_col as int;
        assert(c0 <= hi);
        assert forall|j: int| 0 <= j < t.len() implies (#[trigger] t[j]).to_col <= hi by {
            assert(t[j].from_col <= hi);
        }
        let r = normalize_spec(s);
        assert forall|k: int| 0 <= k < r.len() implies (#[trigger] r[k]).to_col <= hi + s.len() by {
            lemma_cursor_bound(t, c0, hi, k as nat);
            if hi + s.len() <= i64::MAX {
                assert(r[k].to_col == max_int(t[k].to_col as int, cursor_at(t, c0, k as nat)));
            }
        }
    }
}

/// Normalizing twice changes nothing more than normalizing once, for every region list whose
/// borders lie in `[lo, hi]` with `hi` plus the number of regions below `i64::MAX`.
pub proof fn normalize_idempotent_within(s: Seq<PhaseV>, lo: int, hi: int)
    requires
        cols_within(s, lo, hi),
        hi + s.len() < i64::MAX,
    ensures
        normalize_spec(normalize_spec(s)) == normalize_spec(s),
        is_partition(normalize_spec(s)),
{
    normalize_stays_near(s, lo, hi);
    normalize_idempotent(s);
    normalize_yields_partition(s);
}

/// Normalizing is idempotent: a contiguous partition is its own fixed point (for lists whose
/// result stays clear of the `i64::MAX` column).
pub proof fn normalize_idempotent(s: Seq<PhaseV>)
    requires
        forall|k: int|
            0 <= k < normalize_spec(s).len() ==> (#[trigger] normalize_spec(s)[k]).to_col
                < i64::MAX,
    ensures
        normalize_spec(normalize_spec(s)) == normalize_spec(s),
{
    let r = normalize_spec(s);
    normalize_yields_partition(s);
    if r.len() > 0 {
        assert forall|k: int| 0 <= k < r.len() - 1 implies !key_lt(#[trigger] r[k + 1], r[k]) by {
            assert(r[k + 1].from_col == r[k].to_col + 1);
            assert(r[k].from_col <= r[k].to_col);
        }
        lemma_sort_sorted(r);
        assert forall|k: int| 0 <= k < r.len() implies #[trigger] sweep(r, r[0].from_col as int)[k]
            == r[k] by {
            lemma_sweep_partition(r, k as nat);
        }
        assert(sweep(r, r[0].from_col as int) =~= r);
    }
}

/// Whether some region of `s` is named `id`.
pub open spec fn names_phase(s: Seq<PhaseV>, id: Seq<char>) -> bool {
    exists|j: int| 0 <= j < s.len() && (#[trigger] s[j]).id == id
}

proof fn lemma_insert_sorted_ids(s: Seq<PhaseV>, p: PhaseV)
    requires
        unique_phase_ids(s),
        forall|j: int| 0 <= j < s.len() ==> (#[trigger] s[j]).id != p.id,
    ensures
        unique_phase_ids(insert_sorted(s, p)),
        forall|k: int|
            0 <= k < insert_sorted(s, p).len() ==> (#[trigger] insert_sorted(s, p)[k]).id == p.id
                || names_phase(s, insert_sorted(s, p)[k].id),
    decreases s.len(),
{
    lemma_insert_sorted_len(s, p);
    if s.len() > 0 {
        let last = s.last();
        if key_lt(p, last) {
            let d = s.drop_last();
            assert forall|i: int, j: int| 0 <= i < j < d.len() implies #[trigger] d[i].id
                != #[trigger] d[j].id by {
                assert(d[i] == s[i] && d[j] == s[j]);
            }
            assert forall|j: int| 0 <= j < d.len() implies (#[trigger] d[j]).id != p.id by {
                assert(d[j] == s[j]);
            }
            lemma_insert_sorted_ids(d, p);
            let r0 = insert_sorted(d, p);
            lemma_insert_sorted_len(d, p);
            let r = r0.push(last);
            assert(insert_sorted(s, p) == r);
            assert forall|k: int| 0 <= k < r0.len() implies (#[trigger] r0[k]).id != last.id by {
                if r0[k].id != p.id {
                    let jj = choose|jj: int| 0 <= jj < d.len() && (#[trigger] d[jj]).id == r0[k].id;
                    assert(d[jj] == s[jj]);
                    assert(s[jj].id != s[s.len() - 1].id);
                }
            }
            assert forall|i: int, j: int| 0 <= i < j < r.len() implies #[trigger] r[i].id
                != #[trigger] r[j].id by {
                assert(r[i] == r0[i]);
                if j < r0.len() {
                    assert(r[j] == r0[j]);
                }
            }
            assert forall|k: int| 0 <= k < r.len() implies (#[trigger] r[k]).id == p.id
                || names_phase(s, r[k].id) by {
                if k < r0.len() {
                    assert(r[k] == r0[k]);
                    if r0[k].id != p.id {
                        let jj = choose|jj: int| 0 <= jj < d.len() && (#[trigger] d[jj]).id == r0[k].id;
                        assert(s[jj] == d[jj]);
                    }
                } else {
                    assert(s[s.len() - 1] == r[k]);
                }
            }
        } else {
            let r = s.push(p);
            assert forall|i: int, j: int| 0 <= i < j < r.len() implies #[trigger] r[i].id
                != #[trigger] r[j].id by {
                assert(r[i] == s[i]);
                if j < s.len() {
                    assert(r[j] == s[j]);
                }
            }
            assert forall|k: int| 0 <= k < r.len() implies (#[trigger] r[k]).id == p.id
                || names_phase(s, r[k].id) by {
                if k < s.len() {
                    assert(r[k] == s[k]);
                }
            }
        }
    }
}

proof fn lemma_sort_ids(s: Seq<PhaseV>)
    requires
        unique_phase_ids(s),
    ensures
        unique_phase_ids(sort_phases(s)),
        forall|k: int| 0 <= k < sort_phases(s).len() ==> names_phase(s, (#[trigger] sort_phases(s)[k]).id),
    decreases s.len(),
{
    if s.len() > 0 {
        let d = s.drop_last();
        let last = s.last();
        assert forall|i: int, j: int| 0 <= i < j < d.len() implies #[trigger] d[i].id
            != #[trigger] d[j].id by {
            assert(d[i] == s[i] && d[j] == s[j]);
        }
        lemma_sort_ids(d);
        let t = sort_phases(d);
        assert forall|j: int| 0 <= j < t.len() implies (#[trigger] t[j]).id != last.id by {
            let jj = choose|jj: int| 0 <= jj < d.len() && (#[trigger] d[jj]).id == t[j].id;
            assert(d[jj] == s[jj]);
            assert(s[jj].id != s[s.len() - 1].id);
        }
        lemma_insert_sorted_ids(t, last);
        let r = insert_sorted(t, last);
        assert forall|k: int| 0 <= k < r.len() implies names_phase(s, (#[trigger] r[k]).id) by {
            if r[k].id == last.id {
                assert(s[s.len() - 1] == last);
            } else {
                let j = choose|j: int| 0 <= j < t.len() && (#[trigger] t[j]).id == r[k].id;
                let jj = choose|jj: int| 0 <= jj < d.len() && (#[trigger] d[jj]).id == t[j].id;
                assert(s[jj] == d[jj]);
            }
        }
    }
}

/// Normalizing moves regions and their borders but never renames one: a list with unique region
/// ids keeps them unique.
pub proof fn normalize_keeps_ids_unique(s: Seq<PhaseV>)
    requires
        unique_phase_ids(s),
    ensures
        unique_phase_ids(normalize_spec(s)),
{
    if s.len() > 0 {
        let t = sort_phases(s);
        lemma_sort_len(s);
        lemma_sort_ids(s);
        let r = normalize_spec(s);
        assert forall|i: int, j: int| 0 <= i < j < r.len() implies #[trigger] r[i].id
            != #[trigger] r[j].id by {
            assert(r[i].id == t[i].id && r[j].id == t[j].id);
        }
    }
}

/// Whether some region of `s` is named `id` and labelled `label`.
pub open spec fn holds_region(s: Seq<PhaseV>, id: Seq<char>, label: Seq<char>) -> bool {
    exists|j: int| 0 <= j < s.len() && (#[trigger] s[j]).id == id && s[j].label == label
}

proof fn lemma_insert_sorted_holds(s: Seq<PhaseV>, p: PhaseV, id: Seq<char>, label: Seq<char>)
    ensures
        holds_region(insert_sorted(s, p), id, label) == ((p.id == id && p.label == label)
            || holds_region(s, id, label)),
    decreases s.len(),
{
    lemma_insert_sorted_len(s, p);
    let r = insert_sorted(s, p);
    if s.len() == 0 {
        if p.id == id && p.label == label {
            assert(r[0] == p);
        }
    } else if key_lt(p, s.last()) {
        let d = s.drop_last();
        lemma_insert_sorted_holds(d, p, id, label);
        let r0 = insert_sorted(d, p);
        lemma_insert_sorted_len(d, p);
        assert(r == r0.push(s.last()));
        if holds_region(r, id, label) {
            let j = choose|j: int| 0 <= j < r.len() && (#[trigger] r[j]).id == id && r[j].label == label;
            if j < r0.len() {
                assert(r0[j] == r[j]);
            } else {
                assert(s[s.len() - 1] == r[j]);
            }
        }
        if holds_region(s, id, label) {
            let j = choose|j: int| 0 <= j < s.len() && (#[trigger] s[j]).id == id && s[j].label == label;
            if j < d.len() {
                assert(d[j] == s[j]);
            } else {
                assert(r[r0.len() as int] == s[j]);
            }
        }
        if holds_region(r0, id, label) {
            let j = choose|j: int| 0 <= j < r0.len() && (#[trigger] r0[j]).id == id && r0[j].label == label;
            assert(r[j] == r0[j]);
        }
        if holds_region(d, id, label) {
            let j = choose|j: int| 0 <= j < d.len() && (#[trigger] d[j]).id == id && d[j].label == label;
            assert(s[j] == d[j]);
        }
    } else {
        assert(r == s.push(p));
        if holds_region(r, id, label) {
            let j = choose|j: int| 0 <= j < r.len() && (#[trigger] r[j]).id == id && r[j].label == label;
            if j < s.len() {
                assert(s[j] == r[j]);
            }
        }
        if holds_region(s, id, label) {
            let j = choose|j: int| 0 <= j < s.len() && (#[trigger] s[j]).id == id && s[j].label == label;
            assert(r[j] == s[j]);
        }
        if p.id == id && p.label == label {
            assert(r[s.len() as int] == p);
        }
    }
}

proof fn lemma_sort_holds(s: Seq<PhaseV>, id: Seq<char>, label: Seq<char>)
    ensures
        holds_region(sort_phases(s), id, label) == holds_region(s, id, label),
    decreases s.len(),
{
    if s.len() > 0 {
        let d = s.drop_last();
        lemma_sort_holds(d, id, label);
        lemma_insert_sorted_holds(sort_phases(d), s.last(), id, label);
        if holds_region(s, id, label) {
            let j = choose|j: int| 0 <= j < s.len() && (#[trigger] s[j]).id == id && s[j].label == label;
            if j < d.len() {
                assert(d[j] == s[j]);
            }
        }
        if holds_region(d, id, label) {
            let j = choose|j: int| 0 <= j < d.len() && (#[trigger] d[j]).id == id && d[j].label == label;
            assert(s[j] == d[j]);
        }
    }
}

/// Normalizing moves borders and order but keeps every region with its name and label: a region
/// named `id` and labelled `label` is in the list after normalizing exactly when it was before.
pub proof fn normalize_keeps_regions(s: Seq<PhaseV>, id: Seq<char>, label: Seq<char>)
    ensures
        holds_region(normalize_spec(s), id, label) == holds_region(s, id, label),
        names_phase(normalize_spec(s), id) == names_phase(s, id),
{
    if s.len() > 0 {
        let t = sort_phases(s);
        lemma_sort_len(s);
        lemma_sort_holds(s, id, label);
        let r = normalize_spec(s);
        if holds_region(r, id, label) {
            let j = choose|j: int| 0 <= j < r.len() && (#[trigger] r[j]).id == id && r[j].label == label;
            assert(t[j].id == r[j].id && t[j].label == r[j].label);
        }
        if holds_region(t, id, label) {
            let j = choose|j: int| 0 <= j < t.len() && (#[trigger] t[j]).id == id && t[j].label == label;
            assert(r[j].id == t[j].id && r[j].label == t[j].label);
        }
        if names_phase(r, id) {
            let j = choose|j: int| 0 <= j < r.len() && (#[trigger] r[j]).id == id;
            lemma_sort_holds(s, id, t[j].label);
            assert(holds_region(t, id, t[j].label));
            let q = choose|q: int| 0 <= q < s.len() && (#[trigger] s[q]).id == id && s[q].label == t[j].label;
            assert(s[q].id == id);
        }
        if names_phase(s, id) {
            let q = choose|q: int| 0 <= q < s.len() && (#[trigger] s[q]).id == id;
            lemma_sort_holds(s, id, s[q].label);
            assert(holds_region(s, id, s[q].label));
            let j = choose|j: int| 0 <= j < t.len() && (#[trigger] t[j]).id == id && t[j].label == s[q].label;
            assert(r[j].id == id);
        }
    }
}

// ---- region ids --------------------------------------------------------------------------

/// The value of an unsigned decimal `[+]digits` that fits in a `u32` (`str::parse::<u32>`).
pub open spec fn u32_of(s: Seq<char>) -> Option<u32> {
    let d = if s.len() > 0 && s[0] == '+' { s.drop_first() } else { s };
    if d.len() > 0 && lead_digits(d) == d.len() && crate::number::digits_val(d) <= u32::MAX {
        Some(crate::number::digits_val(d) as u32)
    } else {
        None
    }
}

/// The numeric suffix of a `K<n>` region id.
pub open spec fn k_suffix(id: Seq<char>) -> Option<u32> {
    if id.len() > 0 && id[0] == 'K' {
        u32_of(id.drop_first())
    } else {
        None
    }
}

/// The synthetic id one past the watermark: `K<max + 1>` (wrapping at the `u32` bound).
pub open spec fn minted_id(max_region: u32) -> Seq<char> {
    seq!['K'] + dec_digits(((max_region + 1) % 0x1_0000_0000) as nat)
}

/// A region's id (explicit, else minted past the watermark) and the watermark after it: raised
/// to the id's `K` suffix when that is higher.
pub open spec fn resolve_spec(explicit: Option<Seq<char>>, max_region: u32) -> (Seq<char>, u32) {
    let id = match explicit {
        Some(e) => e,
        None => minted_id(max_region),
    };
    let m2 = match k_suffix(id) {
        Some(n) => if n > max_region {
            n
        } else {
            max_region
        },
        None => max_region,
    };
    (id, m2)
}

/// The `u32` a character string denotes as `str::parse::<u32>` reads it.
#[verifier::loop_isolation(false)]
pub fn parse_u32(v: &Vec<char>, start: usize) -> (r: Option<u32>)
    requires
        start <= v.len(),
    ensures
        r == u32_of(v@.skip(start as int)),
{
    let ghost s = v@.skip(start as int);
    let ds = if start < v.len() && v[start] == '+' { start + 1 } else { start };
    let ghost d = v@.skip(ds as int);
    assert(d =~= (if s.len() > 0 && s[0] == '+' { s.drop_first() } else { s }));
    if ds == v.len() {
        return None;
    }
    let mut val: u64 = 0;
    let mut i = ds;
    assert(d.take(0) =~= Seq::<char>::empty());
    while i < v.len()
        invariant
            ds <= i <= v.len(),
            d == v@.skip(ds as int),
            forall|k: int| ds <= k < i ==> is_digit(#[trigger] v@[k]),
            val == crate::number::digits_val(d.take(i - ds)),
            val <= u32::MAX,
        decreases v.len() - i,
    {
        if !crate::number::is_ascii_digit(v[i]) {
            proof {
                assert forall|k: int| 0 <= k < i - ds implies is_digit(#[trigger] d[k]) by {
                    assert(d[k] == v@[ds + k]);
                }
                assert(d[i - ds] == v@[i as int]);
                crate::number::lemma_lead_digits_prefix(d, i - ds);
            }
            return None;
        }
        proof {
            assert(d.take(i - ds + 1).drop_last() =~= d.take(i - ds));
            assert(d[i - ds] == v@[i as int]);
        }
        let nv = val * 10 + (v[i] as u32 - '0' as u32) as u64;
        if nv > u32::MAX as u64 {
            proof {
                crate::number::lemma_digits_val_mono(d, i - ds + 1);
            }
            return None;
        }
        val = nv;
        i = i + 1;
    }
    proof {
        assert(d.take(v.len() - ds) =~= d);
        assert forall|k: int| 0 <= k < d.len() implies is_digit(#[trigger] d[k]) by {
            assert(d[k] == v@[ds + k]);
        }
        crate::number::lemma_lead_digits_all(d);
    }
    Some(val as u32)
}

/// Resolve a region's id: an explicit id used as-is, otherwise the next free `K<n>` one past the
/// highest `K` suffix ever seen (`max_region`, threaded across a band sequence and never
/// decremented), so a synthetic id never reuses a freed or explicitly taken suffix.
pub fn resolve_region_id(explicit: Option<&str>, max_region: &mut u32) -> (id: String)
    ensures
        (id@, *final(max_region)) == resolve_spec(
            match explicit {
                Some(e) => Some(e@),
                None => None,
            },
            *old(max_region),
        ),
{
    let id = match explicit {
        Some(e) => e.to_string(),
        None => {
            let mut v: Vec<char> = Vec::new();
            v.push('K');
            push_dec((*max_region).wrapping_add(1) as u64, &mut v);
            assert(v@ =~= minted_id(*old(max_region)));
            string_of(&v)
        },
    };
    let v = chars_of(id.as_str());
    if v.len() > 0 && v[0] == 'K' {
        assert(v@.skip(1) =~= v@.drop_first());
        if let Some(n) = parse_u32(&v, 1) {
            if n > *max_region {
                *max_region = n;
            }
        }
    }
    id
}

// ---- reading a board from JSON -----------------------------------------------------------

pub open spec fn opt_json(j: Option<&Json>) -> Option<JsonV> {
    match j {
        Some(v) => Some(v@),
        None => None,
    }
}

/// The string entries of an array, in order.
pub open spec fn str_entries(a: Seq<JsonV>) -> Seq<Seq<char>>
    decreases a.len(),
{
    if a.len() == 0 {
        Seq::empty()
    } else {
        let r = str_entries(a.drop_last());
        match jstr(a.last()) {
            Some(s) => r.push(s),
            None => r,
        }
    }
}

/// The string entries of a `links` array; empty when absent or not an array.
pub open spec fn links_spec(j: Option<JsonV>) -> Seq<Seq<char>> {
    match j {
        Some(v) => match jarr(v) {
            Some(a) => str_entries(a),
            None => Seq::empty(),
        },
        None => Seq::empty(),
    }
}

/// The string entries of a JSON `links` array. Absent, non-array, or non-string entries are
/// dropped, never an error.
pub fn links_from(j: Option<&Json>) -> (r: Vec<String>)
    ensures
        strings_view(r@) == links_spec(opt_json(j)),
{
    let mut out: Vec<String> = Vec::new();
    match j {
        Some(v) => match v.as_array() {
            Some(a) => {
                let ghost av = arr_view(a@);
                proof {
                    lemma_arr_view(a@);
                }
                let mut i: usize = 0;
                assert(av.take(0) =~= Seq::<JsonV>::empty());
                assert(strings_view(out@) =~= Seq::<Seq<char>>::empty());
                while i < a.len()
                    invariant
                        i <= a.len() == av.len(),
                        av == arr_view(a@),
                        forall|q: int| 0 <= q < a.len() ==> #[trigger] av[q] == a@[q]@,
                        strings_view(out@) == str_entries(av.take(i as int)),
                    decreases a.len() - i,
                {
                    assert(av.take(i + 1).drop_last() =~= av.take(i as int));
                    assert(av[i as int] == a@[i as int]@);
                    match a[i].as_str() {
                        Some(t) => {
                            out.push(t.to_string());
                            assert(strings_view(out@) =~= str_entries(av.take(i + 1)));
                        },
                        None => {},
                    }
                    i = i + 1;
                }
                assert(av.take(a.len() as int) =~= av);
            },
            None => {
                assert(strings_view(out@) =~= Seq::<Seq<char>>::empty());
            },
        },
        None => {
            assert(strings_view(out@) =~= Seq::<Seq<char>>::empty());
        },
    }
    out
}

/// A band read from one `phases` entry (`label`, `fromCol` and `toCol` required), with the
/// watermark after resolving its id.
pub open spec fn phase_of(j: JsonV, max_region: u32) -> Option<(PhaseV, u32)> {
    match (field_str(j, "label"@), field_int(j, "fromCol"@), field_int(j, "toCol"@)) {
        (Some(label), Some(from_col), Some(to_col)) => {
            let (id, m2) = resolve_spec(field_str(j, "id"@), max_region);
            Some((PhaseV { id, label, from_col, to_col }, m2))
        },
        _ => None,
    }
}

/// The bands of a `phases` array, threading the region-id watermark; malformed entries dropped.
pub open spec fn phases_fold(a: Seq<JsonV>, max_region: u32) -> (Seq<PhaseV>, u32)
    decreases a.len(),
{
    if a.len() == 0 {
        (Seq::empty(), max_region)
    } else {
        let (ps, m) = phases_fold(a.drop_last(), max_region);
        match phase_of(a.last(), m) {
            Some((p, m2)) => (ps.push(p), m2),
            None => (ps, m),
        }
    }
}

/// A sticky read from one `elements` entry (`id`, an in-grammar `type` and `label` required).
pub open spec fn element_of(j: JsonV) -> Option<ElementV> {
    match (field_str(j, "id"@), field_str(j, "type"@), field_str(j, "label"@)) {
        (Some(id), Some(t), Some(label)) => match lane_of(t) {
            Some(kind) => Some(
                ElementV {
                    id,
                    kind,
                    label,
                    col: field_int(j, "col"@),
                    detail: field_str(j, "detail"@),
                    y: field_num(j, "y"@),
                    resolved: match field_bool(j, "resolved"@) {
                        Some(b) => b,
                        None => false,
                    },
                    links: links_spec(crate::json::jget(j, "links"@)),
                },
            ),
            None => None,
        },
        _ => None,
    }
}

/// An edge read from one `edges` entry: a tuple `[src, dst, ..]` or an object `{src, dst, label}`.
pub open spec fn edge_of(j: JsonV) -> Option<EdgeV> {
    match jarr(j) {
        Some(a) => if a.len() >= 2 && jstr(a[0]) is Some && jstr(a[1]) is Some {
            Some(EdgeV { src: jstr(a[0])->0, dst: jstr(a[1])->0, label: None })
        } else {
            None
        },
        None => match (field_str(j, "src"@), field_str(j, "dst"@)) {
            (Some(src), Some(dst)) => Some(EdgeV { src, dst, label: field_str(j, "label"@) }),
            _ => None,
        },
    }
}

pub open spec fn elements_fold(a: Seq<JsonV>) -> Seq<ElementV>
    decreases a.len(),
{
    if a.len() == 0 {
        Seq::empty()
    } else {
        let r = elements_fold(a.drop_last());
        match element_of(a.last()) {
            Some(e) => r.push(e),
            None => r,
        }
    }
}

pub open spec fn edges_fold(a: Seq<JsonV>) -> Seq<EdgeV>
    decreases a.len(),
{
    if a.len() == 0 {
        Seq::empty()
    } else {
        let r = edges_fold(a.drop_last());
        match edge_of(a.last()) {
            Some(e) => r.push(e),
            None => r,
        }
    }
}

proof fn lemma_elements_fold_has(a: Seq<JsonV>, i: int)
    requires
        0 <= i < a.len(),
        element_of(a[i]) is Some,
    ensures
        exists|k: int| 0 <= k < elements_fold(a).len() && elements_fold(a)[k] == element_of(a[i])->0,
    decreases a.len(),
{
    let d = a.drop_last();
    if i < a.len() - 1 {
        assert(d[i] == a[i]);
        lemma_elements_fold_has(d, i);
        let k = choose|k: int| 0 <= k < elements_fold(d).len() && elements_fold(d)[k] == element_of(d[i])->0;
        match element_of(a.last()) {
            Some(e) => assert(elements_fold(a)[k] == elements_fold(d)[k]),
            None => {},
        }
    } else {
        let e = element_of(a.last())->0;
        assert(elements_fold(a)[elements_fold(d).len() as int] == e);
    }
}

proof fn lemma_edges_fold_has(a: Seq<JsonV>, i: int)
    requires
        0 <= i < a.len(),
        edge_of(a[i]) is Some,
    ensures
        exists|k: int| 0 <= k < edges_fold(a).len() && edges_fold(a)[k] == edge_of(a[i])->0,
    decreases a.len(),
{
    let d = a.drop_last();
    if i < a.len() - 1 {
        assert(d[i] == a[i]);
        lemma_edges_fold_has(d, i);
        let k = choose|k: int| 0 <= k < edges_fold(d).len() && edges_fold(d)[k] == edge_of(d[i])->0;
        match edge_of(a.last()) {
            Some(e) => assert(edges_fold(a)[k] == edges_fold(d)[k]),
            None => {},
        }
    } else {
        let e = edge_of(a.last())->0;
        assert(edges_fold(a)[edges_fold(d).len() as int] == e);
    }
}

/// The board a `model.json` value describes. Lenient: missing or mis-typed parts fall back to
/// their defaults (title `board`, the big-picture level, no phases/elements/edges), malformed
/// entries are dropped, and the phases are projected onto a contiguous partition.
pub open spec fn model_of_json(j: JsonV) -> ModelV {
    ModelV {
        title: match field_str(j, "title"@) {
            Some(t) => t,
            None => "board"@,
        },
        format: Format::EventStorming,
        level: match field_str(j, "level"@) {
            Some(l) => level_of(l),
            None => Level::BigPicture,
        },
        phases: match field_arr(j, "phases"@) {
            Some(a) => normalize_spec(phases_fold(a, 0).0),
            None => Seq::empty(),
        },
        elements: match field_arr(j, "elements"@) {
            Some(a) => elements_fold(a),
            None => Seq::empty(),
        },
        edges: match field_arr(j, "edges"@) {
            Some(a) => edges_fold(a),
            None => Seq::empty(),
        },
    }
}

fn opt_string(s: Option<&str>) -> (r: Option<String>)
    ensures
        opt_view(r) == match s {
            Some(t) => Some(t@),
            None => None,
        },
{
    match s {
        Some(t) => Some(t.to_string()),
        None => None,
    }
}

fn phase_from(j: &Json, max_region: &mut u32) -> (r: Option<Phase>)
    ensures
        match phase_of(j@, *old(max_region)) {
            Some((p, m2)) => r matches Some(q) && q@ == p && *final(max_region) == m2,
            None => r is None && *final(max_region) == *old(max_region),
        },
{
    let label = match j.get_str("label") {
        Some(l) => l,
        None => return None,
    };
    let from_col = match j.get_i64("fromCol") {
        Some(c) => c,
        None => return None,
    };
    let to_col = match j.get_i64("toCol") {
        Some(c) => c,
        None => return None,
    };
    let id = resolve_region_id(j.get_str("id"), max_region);
    Some(Phase { id, label: label.to_string(), from_col, to_col })
}

fn element_from(j: &Json) -> (r: Option<Element>)
    ensures
        match element_of(j@) {
            Some(e) => r matches Some(q) && q@ == e,
            None => r is None,
        },
{
    let id = match j.get_str("id") {
        Some(s) => s,
        None => return None,
    };
    let t = match j.get_str("type") {
        Some(s) => s,
        None => return None,
    };
    let label = match j.get_str("label") {
        Some(s) => s,
        None => return None,
    };
    let kind = match lane_from_str(t) {
        Some(k) => k,
        None => return None,
    };
    let e = Element {
        id: id.to_string(),
        kind,
        label: label.to_string(),
        col: j.get_i64("col"),
        detail: opt_string(j.get_str("detail")),
        y: j.get_num("y"),
        resolved: match j.get_bool("resolved") {
            Some(b) => b,
            None => false,
        },
        links: links_from(j.get("links")),
    };
    Some(e)
}

fn edge_from(j: &Json) -> (r: Option<Edge>)
    ensures
        match edge_of(j@) {
            Some(e) => r matches Some(q) && q@ == e,
            None => r is None,
        },
{
    match j.as_array() {
        Some(a) => {
            proof {
                lemma_arr_view(a@);
            }
            if a.len() < 2 {
                return None;
            }
            let src = match a[0].as_str() {
                Some(s) => s,
                None => return None,
            };
            let dst = match a[1].as_str() {
                Some(s) => s,
                None => return None,
            };
            Some(Edge { src: src.to_string(), dst: dst.to_string(), label: None })
        },
        None => {
            let src = match j.get_str("src") {
                Some(s) => s,
                None => return None,
            };
            let dst = match j.get_str("dst") {
                Some(s) => s,
                None => return None,
            };
            Some(Edge {
                src: src.to_string(),
                dst: dst.to_string(),
                label: opt_string(j.get_str("label")),
            })
        },
    }
}

/// Read a board from a `model.json` value. Lenient by design: [`read_model`] is the boundary that
/// refuses a format this build cannot project.
pub fn from_json(j: &Json) -> (m: Model)
    ensures
        m@ == model_of_json(j@),
{
    let title = match j.get_str("title") {
        Some(t) => t.to_string(),
        None => "board".to_string(),
    };
    let level = match j.get_str("level") {
        Some(l) => level_from_str(l),
        None => Level::BigPicture,
    };
    let mut phases: Vec<Phase> = Vec::new();
    match j.get_array("phases") {
        Some(a) => {
            let ghost av = arr_view(a@);
            proof {
                lemma_arr_view(a@);
            }
            let mut max_region: u32 = 0;
            let mut i: usize = 0;
            assert(av.take(0) =~= Seq::<JsonV>::empty());
            assert(phases_view(phases@) =~= Seq::<PhaseV>::empty());
            while i < a.len()
                invariant
                    i <= a.len() == av.len(),
                    av == arr_view(a@),
                    forall|q: int| 0 <= q < a.len() ==> #[trigger] av[q] == a@[q]@,
                    phases_fold(av.take(i as int), 0) == (phases_view(phases@), max_region),
                decreases a.len() - i,
            {
                assert(av.take(i + 1).drop_last() =~= av.take(i as int));
                assert(av[i as int] == a@[i as int]@);
                match phase_from(&a[i], &mut max_region) {
                    Some(p) => {
                        phases.push(p);
                        assert(phases_view(phases@) =~= phases_fold(av.take(i + 1), 0).0);
                    },
                    None => {},
                }
                i = i + 1;
            }
            assert(av.take(a.len() as int) =~= av);
            normalize(&mut phases);
        },
        None => {},
    }
    let mut elements: Vec<Element> = Vec::new();
    match j.get_array("elements") {
        Some(a) => {
            let ghost av = arr_view(a@);
            proof {
                lemma_arr_view(a@);
            }
            let mut i: usize = 0;
            assert(av.take(0) =~= Seq::<JsonV>::empty());
            assert(elements_view(elements@) =~= Seq::<ElementV>::empty());
            while i < a.len()
                invariant
                    i <= a.len() == av.len(),
                    av == arr_view(a@),
                    forall|q: int| 0 <= q < a.len() ==> #[trigger] av[q] == a@[q]@,
                    elements_fold(av.take(i as int)) == elements_view(elements@),
                decreases a.len() - i,
            {
                assert(av.take(i + 1).drop_last() =~= av.take(i as int));
                assert(av[i as int] == a@[i as int]@);
                match element_from(&a[i]) {
                    Some(e) => {
                        elements.push(e);
                        assert(elements_view(elements@) =~= elements_fold(av.take(i + 1)));
                    },
                    None => {},
                }
                i = i + 1;
            }
            assert(av.take(a.len() as int) =~= av);
        },
        None => {},
    }
    let mut edges: Vec<Edge> = Vec::new();
    match j.get_array("edges") {
        Some(a) => {
            let ghost av = arr_view(a@);
            proof {
                lemma_arr_view(a@);
            }
            let mut i: usize = 0;
            assert(av.take(0) =~= Seq::<JsonV>::empty());
            assert(edges_view(edges@) =~= Seq::<EdgeV>::empty());
            while i < a.len()
                invariant
                    i <= a.len() == av.len(),
                    av == arr_view(a@),
                    forall|q: int| 0 <= q < a.len() ==> #[trigger] av[q] == a@[q]@,
                    edges_fold(av.take(i as int)) == edges_view(edges@),
                decreases a.len() - i,
            {
                assert(av.take(i + 1).drop_last() =~= av.take(i as int));
                assert(av[i as int] == a@[i as int]@);
                match edge_from(&a[i]) {
                    Some(e) => {
                        edges.push(e);
                        assert(edges_view(edges@) =~= edges_fold(av.take(i + 1)));
                    },
                    None => {},
                }
                i = i + 1;
            }
            assert(av.take(a.len() as int) =~= av);
        },
        None => {},
    }
    let m = Model { title, format: Format::EventStorming, level, phases, elements, edges };
    proof {
        reveal_strlit("board");
    }
    assert(m@.phases =~= model_of_json(j@).phases);
    assert(m@.elements =~= model_of_json(j@).elements);
    assert(m@.edges =~= model_of_json(j@).edges);
    m
}

// ---- reading the board ---------------------------------------------------------------------

pub open spec fn covers(p: PhaseV, col: int) -> bool {
    p.from_col <= col && col <= p.to_col
}

pub open spec fn width(p: PhaseV) -> int {
    p.to_col - p.from_col
}

/// Among the first `n` regions, the index of the narrowest one covering `col` (the first such
/// on ties).
pub open spec fn narrowest_cover(ps: Seq<PhaseV>, col: int, n: nat) -> Option<int>
    decreases n,
{
    if n == 0 {
        None
    } else {
        let b = narrowest_cover(ps, col, (n - 1) as nat);
        let p = ps[n - 1];
        if covers(p, col) {
            match b {
                None => Some(n - 1),
                Some(j) => if width(p) < width(ps[j]) {
                    Some(n - 1)
                } else {
                    Some(j)
                },
            }
        } else {
            b
        }
    }
}

proof fn lemma_narrowest_range(ps: Seq<PhaseV>, col: int, n: nat)
    ensures
        narrowest_cover(ps, col, n) matches Some(j) ==> 0 <= j < n,
    decreases n,
{
    if n > 0 {
        lemma_narrowest_range(ps, col, (n - 1) as nat);
    }
}

/// The region a column belongs to: the band whose `[from_col, to_col]` contains it (the
/// narrowest, then the first, should several); `None` when no band covers it.
pub fn region_of(m: &Model, col: i64) -> (r: Option<&Phase>)
    ensures
        match narrowest_cover(m@.phases, col as int, m.phases.len() as nat) {
            Some(j) => r matches Some(p) && p@ == m@.phases[j],
            None => r is None,
        },
{
    let mut best: Option<usize> = None;
    let mut i: usize = 0;
    while i < m.phases.len()
        invariant
            i <= m.phases.len(),
            m@.phases.len() == m.phases.len(),
            forall|q: int| 0 <= q < m.phases.len() ==> #[trigger] m@.phases[q] == m.phases@[q]@,
            match narrowest_cover(m@.phases, col as int, i as nat) {
                Some(j) => best == Some(j as usize),
                None => best is None,
            },
        decreases m.phases.len() - i,
    {
        proof {
            lemma_narrowest_range(m@.phases, col as int, i as nat);
        }
        let p = &m.phases[i];
        assert(m@.phases[i as int] == p@);
        if p.from_col <= col && col <= p.to_col {
            match best {
                None => {
                    best = Some(i);
                },
                Some(j) => {
                    let q = &m.phases[j];
                    assert(m@.phases[j as int] == q@);
                    if (p.to_col as i128) - (p.from_col as i128) < (q.to_col as i128) - (
                    q.from_col as i128) {
                        best = Some(i);
                    }
                },
            }
        }
        i = i + 1;
    }
    proof {
        lemma_narrowest_range(m@.phases, col as int, i as nat);
    }
    match best {
        Some(j) => Some(&m.phases[j]),
        None => None,
    }
}

/// Whether a sticky is a pivotal event: an `event`-lane element whose `col` sits on a region
/// edge.
pub open spec fn pivotal(m: ModelV, e: ElementV) -> bool {
    e.kind == Lane::Event && match e.col {
        Some(c) => on_region_edge(m.phases, c),
        None => false,
    }
}

/// Whether a column is the `from_col` or `to_col` of some region.
pub open spec fn on_region_edge(ps: Seq<PhaseV>, c: i64) -> bool {
    exists|k: int| 0 <= k < ps.len() && (c == (#[trigger] ps[k]).from_col || c == ps[k].to_col)
}

/// Whether an element is a pivotal event: derived from geometry (an event on a region edge),
/// never a stored flag.
#[verifier::loop_isolation(false)]
pub fn is_pivotal(m: &Model, e: &Element) -> (b: bool)
    ensures
        b == pivotal(m@, e@),
{
    if e.kind != Lane::Event {
        return false;
    }
    let c = match e.col {
        Some(c) => c,
        None => return false,
    };
    let mut i: usize = 0;
    while i < m.phases.len()
        invariant
            i <= m.phases.len(),
            m@.phases.len() == m.phases.len(),
            forall|q: int| 0 <= q < m.phases.len() ==> #[trigger] m@.phases[q] == m.phases@[q]@,
            forall|k: int|
                0 <= k < i ==> c != (#[trigger] m@.phases[k]).from_col && c != m@.phases[k].to_col,
        decreases m.phases.len() - i,
    {
        assert(m@.phases[i as int] == m.phases@[i as int]@);
        if c == m.phases[i].from_col || c == m.phases[i].to_col {
            assert(c == m@.phases[i as int].from_col || c == m@.phases[i as int].to_col);
            assert(on_region_edge(m@.phases, c));
            return true;
        }
        i = i + 1;
    }
    false
}

/// The smallest stored column on a board.
pub open spec fn min_col(es: Seq<ElementV>, n: nat) -> Option<i64>
    decreases n,
{
    if n == 0 {
        None
    } else {
        let b = min_col(es, (n - 1) as nat);
        match es[n - 1].col {
            Some(c) => match b {
                Some(m) => if c < m {
                    Some(c)
                } else {
                    Some(m)
                },
                None => Some(c),
            },
            None => b,
        }
    }
}

/// Every `elements` entry that names an id, an in-grammar lane and a label is on the board read
/// from the file, carrying each member the entry gives: its column, its detail, its sub-position,
/// whether it is resolved (false when not said), and the string entries of its `links`.
pub proof fn a_read_sticky_keeps_its_members(
    j: JsonV,
    a: Seq<JsonV>,
    i: int,
    id: Seq<char>,
    t: Seq<char>,
    kind: Lane,
    label: Seq<char>,
)
    requires
        field_arr(j, "elements"@) == Some(a),
        0 <= i < a.len(),
        field_str(a[i], "id"@) == Some(id),
        field_str(a[i], "type"@) == Some(t),
        lane_of(t) == Some(kind),
        field_str(a[i], "label"@) == Some(label),
    ensures
        exists|k: int|
            0 <= k < model_of_json(j).elements.len() && model_of_json(j).elements[k] == (ElementV {
                id,
                kind,
                label,
                col: field_int(a[i], "col"@),
                detail: field_str(a[i], "detail"@),
                y: field_num(a[i], "y"@),
                resolved: field_bool(a[i], "resolved"@) == Some(true),
                links: str_entries(
                    if field_arr(a[i], "links"@) is Some {
                        field_arr(a[i], "links"@)->0
                    } else {
                        Seq::empty()
                    },
                ),
            }),
{
    lemma_elements_fold_has(a, i);
    let ls = if field_arr(a[i], "links"@) is Some {
        field_arr(a[i], "links"@)->0
    } else {
        Seq::empty()
    };
    assert(str_entries(Seq::<JsonV>::empty()) == Seq::<Seq<char>>::empty());
    assert(links_spec(crate::json::jget(a[i], "links"@)) == str_entries(ls));
    let want = ElementV {
        id,
        kind,
        label,
        col: field_int(a[i], "col"@),
        detail: field_str(a[i], "detail"@),
        y: field_num(a[i], "y"@),
        resolved: field_bool(a[i], "resolved"@) == Some(true),
        links: str_entries(ls),
    };
    assert(element_of(a[i]) == Some(want));
    let k = choose|k: int| 0 <= k < elements_fold(a).len() && elements_fold(a)[k] == element_of(a[i])->0;
    assert(model_of_json(j).elements[k] == want);
}

/// Every `edges` entry is on the board read from the file: a tuple `[src, dst, ..]` of two
/// strings as the unlabelled edge between them, an object as the edge from its `src` to its
/// `dst` with its `label`.
pub proof fn a_read_edge_keeps_its_ends(j: JsonV, a: Seq<JsonV>, i: int, src: Seq<char>, dst: Seq<char>)
    requires
        field_arr(j, "edges"@) == Some(a),
        0 <= i < a.len(),
        (jarr(a[i]) matches Some(t) && t.len() >= 2 && jstr(t[0]) == Some(src) && jstr(t[1])
            == Some(dst)) || (jarr(a[i]) is None && field_str(a[i], "src"@) == Some(src)
            && field_str(a[i], "dst"@) == Some(dst)),
    ensures
        exists|k: int|
            0 <= k < model_of_json(j).edges.len() && model_of_json(j).edges[k] == (EdgeV {
                src,
                dst,
                label: if jarr(a[i]) is Some { None } else { field_str(a[i], "label"@) },
            }),
{
    lemma_edges_fold_has(a, i);
    let want = EdgeV { src, dst, label: if jarr(a[i]) is Some { None } else { field_str(a[i], "label"@) } };
    assert(edge_of(a[i]) == Some(want));
    let k = choose|k: int| 0 <= k < edges_fold(a).len() && edges_fold(a)[k] == edge_of(a[i])->0;
    assert(model_of_json(j).edges[k] == want);
}

proof fn lemma_phases_fold_holds(a: Seq<JsonV>, m0: u32, i: int, id: Seq<char>, label: Seq<char>)
    requires
        0 <= i < a.len(),
        field_str(a[i], "id"@) == Some(id),
        field_str(a[i], "label"@) == Some(label),
        field_int(a[i], "fromCol"@) is Some,
        field_int(a[i], "toCol"@) is Some,
    ensures
        holds_region(phases_fold(a, m0).0, id, label),
    decreases a.len(),
{
    let d = a.drop_last();
    let (ps, m) = phases_fold(d, m0);
    if i < a.len() - 1 {
        assert(d[i] == a[i]);
        lemma_phases_fold_holds(d, m0, i, id, label);
        let j = choose|j: int| 0 <= j < ps.len() && (#[trigger] ps[j]).id == id && ps[j].label == label;
        match phase_of(a.last(), m) {
            Some((p, m2)) => assert(phases_fold(a, m0).0[j] == ps[j]),
            None => {},
        }
    } else {
        let pm = phase_of(a.last(), m)->0;
        let p = pm.0;
        assert(phases_fold(a, m0).0[ps.len() as int] == p);
    }
}

/// A board file's header reads as written: its `title` (`board` when it has none) and its
/// `level` (the big-picture level when it has none).
pub proof fn a_read_board_keeps_its_header(j: JsonV)
    ensures
        model_of_json(j).title == (if field_str(j, "title"@) is Some { field_str(j, "title"@)->0 } else { "board"@ }),
        model_of_json(j).level == (if field_str(j, "level"@) is Some { level_of(field_str(j, "level"@)->0) } else { Level::BigPicture }),
{
}

/// Every `phases` entry that names an id, a label and both borders is a region of the board read
/// from the file, under its id and label (its borders then projected onto the partition).
pub proof fn a_read_region_keeps_its_name(
    j: JsonV,
    a: Seq<JsonV>,
    i: int,
    id: Seq<char>,
    label: Seq<char>,
)
    requires
        field_arr(j, "phases"@) == Some(a),
        0 <= i < a.len(),
        field_str(a[i], "id"@) == Some(id),
        field_str(a[i], "label"@) == Some(label),
        field_int(a[i], "fromCol"@) is Some,
        field_int(a[i], "toCol"@) is Some,
    ensures
        holds_region(model_of_json(j).phases, id, label),
{
    lemma_phases_fold_holds(a, 0, i, id, label);
    normalize_keeps_regions(phases_fold(a, 0).0, id, label);
}

/// The `col` for a lane-title add (the left-edge gesture): the board's first column when the
/// lane is empty, one further left when it already holds elements, 0 on a board with no columns.
pub open spec fn lane_left_col_spec(m: ModelV, kind: Lane) -> int {
    match min_col(m.elements, m.elements.len()) {
        None => 0,
        Some(first) => if exists|k: int|
            0 <= k < m.elements.len() && (#[trigger] m.elements[k]).kind == kind {
            first - 1
        } else {
            first as int
        },
    }
}

/// The `col` for a lane-title `+` add. When the target lane is empty this is the board's first
/// column (the new element aligns to the left edge without shoving the other lanes right); when
/// the lane already holds elements it is one column further left (a true prepend); 0 on a board
/// with no placed element.
pub fn lane_left_col(m: &Model, kind: Lane) -> (c: i64)
    requires
        lane_left_col_spec(m@, kind) >= i64::MIN,
    ensures
        c == lane_left_col_spec(m@, kind),
{
    let mut first: Option<i64> = None;
    let mut present = false;
    let mut i: usize = 0;
    while i < m.elements.len()
        invariant
            i <= m.elements.len(),
            m@.elements.len() == m.elements.len(),
            forall|q: int|
                0 <= q < m.elements.len() ==> #[trigger] m@.elements[q] == m.elements@[q]@,
            first == min_col(m@.elements, i as nat),
            present == exists|k: int| 0 <= k < i && (#[trigger] m@.elements[k]).kind == kind,
        decreases m.elements.len() - i,
    {
        let e = &m.elements[i];
        assert(m@.elements[i as int] == e@);
        match e.col {
            Some(c) => {
                first = match first {
                    Some(f) => if c < f {
                        Some(c)
                    } else {
                        Some(f)
                    },
                    None => Some(c),
                };
            },
            None => {},
        }
        if e.kind == kind {
            present = true;
        }
        i = i + 1;
    }
    match first {
        None => 0,
        Some(f) => {
            if present {
                f - 1
            } else {
                f
            }
        },
    }
}

/// The number of elements among the first `n` that leave `col` out.
pub open spec fn unplaced_before(es: Seq<ElementV>, n: nat) -> nat
    decreases n,
{
    if n == 0 {
        0
    } else {
        unplaced_before(es, (n - 1) as nat) + if es[n - 1].col is None {
            1nat
        } else {
            0nat
        }
    }
}

/// The column an element sits in: its own `col`, or, when it has none, the next number counting
/// up from 0 in file order over the elements that have none.
pub open spec fn resolved_col(es: Seq<ElementV>, i: int) -> int {
    match es[i].col {
        Some(c) => c as int,
        None => unplaced_before(es, i as nat) as int,
    }
}

proof fn lemma_unplaced_bound(es: Seq<ElementV>, n: nat)
    ensures
        unplaced_before(es, n) <= n,
    decreases n,
{
    if n > 0 {
        lemma_unplaced_bound(es, (n - 1) as nat);
    }
}

/// Resolve every element's column, filling in the ones the file left out: a missing `col`
/// auto-assigns in file order, counting up from 0. One column per element, positionally.
pub fn resolved_cols(elements: &Vec<Element>) -> (r: Vec<i64>)
    requires
        elements.len() <= i64::MAX,
    ensures
        r.len() == elements.len(),
        forall|i: int|
            0 <= i < elements.len() ==> #[trigger] r[i] == resolved_col(
                elements_view(elements@),
                i,
            ),
{
    let ghost es = elements_view(elements@);
    let mut r: Vec<i64> = Vec::new();
    let mut auto: i64 = 0;
    let mut i: usize = 0;
    while i < elements.len()
        invariant
            i <= elements.len() <= i64::MAX,
            es == elements_view(elements@),
            r.len() == i,
            auto == unplaced_before(es, i as nat),
            forall|q: int| 0 <= q < i ==> #[trigger] r[q] == resolved_col(es, q),
        decreases elements.len() - i,
    {
        proof {
            lemma_unplaced_bound(es, i as nat);
        }
        assert(es[i as int] == elements@[i as int]@);
        match elements[i].col {
            Some(c) => r.push(c),
            None => {
                r.push(auto);
                auto = auto + 1;
            },
        }
        i = i + 1;
    }
    r
}
/// What the text of a `model.json` reads as: its board, or the reason it is not one (not JSON, or
/// a declared format this build cannot project).
pub open spec fn read_model_spec(text: Seq<char>) -> Result<ModelV, Seq<char>> {
    match parse_spec(text) {
        Err(e) => Err(e),
        Ok(j) => match format_declared_spec(field_str(j, "format"@)) {
            Err(e) => Err(e),
            Ok(_) => Ok(model_of_json(j)),
        },
    }
}

/// A board file is read exactly when it parses and declares no format or `event-storming`: then
/// it reads as the board its value describes; a file declaring any other format is refused with
/// the message naming that format.
pub proof fn a_board_file_is_read_unless_foreign(text: Seq<char>)
    ensures
        parse_spec(text) matches Ok(j) ==> (field_str(j, "format"@) is None || field_str(j, "format"@)
            == Some("event-storming"@) ==> read_model_spec(text) == Ok::<ModelV, Seq<char>>(
            model_of_json(j),
        )),
        parse_spec(text) matches Ok(j) ==> (field_str(j, "format"@) is Some && field_str(j, "format"@)->0
            != "event-storming"@ ==> read_model_spec(text) == Err::<ModelV, Seq<char>>(
            unknown_format_msg(field_str(j, "format"@)->0),
        )),
        parse_spec(text) is Err ==> read_model_spec(text) is Err,
{
}

/// Read the text of a `model.json` into its board: the boundary that refuses a file declaring a
/// format this build cannot project, rather than show it as an empty board.
pub fn read_model(text: &str) -> (r: Result<Model, String>)
    requires
        text@.len() < MAX_TEXT,
    ensures
        match r {
            Ok(m) => read_model_spec(text@) == Ok::<ModelV, Seq<char>>(m@),
            Err(e) => read_model_spec(text@) == Err::<ModelV, Seq<char>>(e@),
        },
{
    let j = match parse(text) {
        Ok(j) => j,
        Err(e) => {
            return Err(e);
        },
    };
    let tag = j.get_str("format");
    proof {
        reveal_strlit("format");
    }
    match format_declared(tag) {
        Ok(_) => {},
        Err(e) => {
            return Err(e);
        },
    }
    Ok(from_json(&j))
}

} // verus!
