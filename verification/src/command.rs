//! The command boundary: [`parse_command`] reads one posted comment body into a [`Command`], and
//! [`fold_to_events`] maps the ones that need no server-minted id to their events.
//!
//! Every guard on a posted field lives in the parse, so a `Command` in hand is already legal. A
//! command, unlike a log record, has a client waiting for an answer, so a kind this build has no
//! command for is refused by name rather than skipped.

use crate::comments::{comment_events_spec, nonblank, nonblank_spec, valid_span};
use crate::event::{events_view, Event, EventV};
use crate::json::{field_bool, field_int, field_num, field_str, Json, JsonV};
use crate::model::{lane_from_str, lane_of, Lane};
use crate::number::{clamp_y, clamp_y_spec, Number};
use crate::model::ModelV;
use crate::replay::{fold_from, fold_keeps_labels, labels_nonblank, labels_ok, nonblank_label};
use crate::text::{chars_of, str_eq, string_of, trim};
use vstd::prelude::*;

verus! {

broadcast use vstd::string::group_string_axioms;

/// A parsed comment body, split along the server's two paths: a [`Mint`] needs an id only the
/// server can assign; a [`Fold`] carries everything its events need.
#[derive(Clone, PartialEq, Debug)]
pub enum Command {
    Mint(Mint),
    Fold(Fold),
}

/// A creation command: its event cannot be built from the post alone.
#[derive(Clone, PartialEq, Debug)]
pub enum Mint {
    /// `prepend` asks the server to derive the lane's left-edge column, which is why `col` is
    /// optional beside it.
    Add { lane: Lane, label: String, col: Option<i64>, detail: Option<String>, prepend: bool },
    RegionAdd { label: String, from_col: i64, to_col: i64 },
    /// Whether `at_col` falls strictly inside the region is judged against the replayed board.
    PhaseSplit { id: String, at_col: i64, label: String },
}

/// A command whose events the post fully determines.
#[derive(Clone, PartialEq, Debug)]
pub enum Fold {
    /// Relocate along the timeline (`col`) and/or within the lane band (`y`); at least one is
    /// present. `swap` is a displaced occupant.
    Move { id: String, col: Option<i64>, y: Option<Number>, swap: Option<(String, i64)> },
    Rename { id: String, label: String },
    /// The resolution may be empty: closing a hotspot is an act, not a note.
    Resolve { id: String, resolution: String },
    Drop { id: String },
    /// `comment`, `question` and `split` all land here.
    Annotate { id: String, text: String },
    /// An edge's identity is its directed pair; endpoint existence is not checked here.
    Connect { src: String, dst: String },
    Disconnect { src: String, dst: String },
    /// The legacy independent-span resize.
    RegionResize { id: String, from_col: i64, to_col: i64 },
    /// Set one border of a region.
    FrontierMove { id: String, edge: Frontier, col: i64 },
    RegionRename { id: String, label: String },
    RegionRemove { id: String },
}

/// Which border of a region a [`Fold::FrontierMove`] names.
#[derive(Clone, Copy, PartialEq, Eq, Structural, Debug)]
pub enum Frontier {
    Start,
    End,
}

impl Frontier {
    /// The spelling `FrontierMoved` carries.
    pub fn as_str(self) -> (s: &'static str)
        ensures
            s@ == frontier_wire(self),
    {
        match self {
            Frontier::Start => "start",
            Frontier::End => "end",
        }
    }
}

pub open spec fn frontier_wire(f: Frontier) -> Seq<char> {
    match f {
        Frontier::Start => "start"@,
        Frontier::End => "end"@,
    }
}

/// Why a posted body is not a command: a kind with no command, or a known kind whose payload is
/// missing, blank or out of range (with the sentence the console prints).
#[derive(Clone, PartialEq, Debug)]
pub enum Rejection {
    UnknownKind(String),
    Malformed(&'static str),
}

/// What a mint denotes.
pub enum MintV {
    Add { lane: Lane, label: Seq<char>, col: Option<i64>, detail: Option<Seq<char>>, prepend: bool },
    RegionAdd { label: Seq<char>, from_col: i64, to_col: i64 },
    PhaseSplit { id: Seq<char>, at_col: i64, label: Seq<char> },
}

/// What a fold denotes.
pub enum FoldV {
    Move { id: Seq<char>, col: Option<i64>, y: Option<Number>, swap: Option<(Seq<char>, i64)> },
    Rename { id: Seq<char>, label: Seq<char> },
    Resolve { id: Seq<char>, resolution: Seq<char> },
    Drop { id: Seq<char> },
    Annotate { id: Seq<char>, text: Seq<char> },
    Connect { src: Seq<char>, dst: Seq<char> },
    Disconnect { src: Seq<char>, dst: Seq<char> },
    RegionResize { id: Seq<char>, from_col: i64, to_col: i64 },
    FrontierMove { id: Seq<char>, edge: Frontier, col: i64 },
    RegionRename { id: Seq<char>, label: Seq<char> },
    RegionRemove { id: Seq<char> },
}

/// What a command denotes.
pub enum CommandV {
    Mint(MintV),
    Fold(FoldV),
}

/// What a rejection denotes.
pub enum RejectionV {
    UnknownKind(Seq<char>),
    Malformed(Seq<char>),
}

impl View for Mint {
    type V = MintV;

    open spec fn view(&self) -> MintV {
        match *self {
            Mint::Add { lane, label, col, detail, prepend } => MintV::Add {
                lane,
                label: label@,
                col,
                detail: crate::model::opt_view(detail),
                prepend,
            },
            Mint::RegionAdd { label, from_col, to_col } => MintV::RegionAdd {
                label: label@,
                from_col,
                to_col,
            },
            Mint::PhaseSplit { id, at_col, label } => MintV::PhaseSplit {
                id: id@,
                at_col,
                label: label@,
            },
        }
    }
}

impl View for Fold {
    type V = FoldV;

    open spec fn view(&self) -> FoldV {
        match *self {
            Fold::Move { id, col, y, swap } => FoldV::Move {
                id: id@,
                col,
                y,
                swap: match swap {
                    Some((s, c)) => Some((s@, c)),
                    None => None,
                },
            },
            Fold::Rename { id, label } => FoldV::Rename { id: id@, label: label@ },
            Fold::Resolve { id, resolution } => FoldV::Resolve { id: id@, resolution: resolution@ },
            Fold::Drop { id } => FoldV::Drop { id: id@ },
            Fold::Annotate { id, text } => FoldV::Annotate { id: id@, text: text@ },
            Fold::Connect { src, dst } => FoldV::Connect { src: src@, dst: dst@ },
            Fold::Disconnect { src, dst } => FoldV::Disconnect { src: src@, dst: dst@ },
            Fold::RegionResize { id, from_col, to_col } => FoldV::RegionResize {
                id: id@,
                from_col,
                to_col,
            },
            Fold::FrontierMove { id, edge, col } => FoldV::FrontierMove { id: id@, edge, col },
            Fold::RegionRename { id, label } => FoldV::RegionRename { id: id@, label: label@ },
            Fold::RegionRemove { id } => FoldV::RegionRemove { id: id@ },
        }
    }
}

impl View for Command {
    type V = CommandV;

    open spec fn view(&self) -> CommandV {
        match *self {
            Command::Mint(m) => CommandV::Mint(m@),
            Command::Fold(f) => CommandV::Fold(f@),
        }
    }
}

impl View for Rejection {
    type V = RejectionV;

    open spec fn view(&self) -> RejectionV {
        match *self {
            Rejection::UnknownKind(k) => RejectionV::UnknownKind(k@),
            Rejection::Malformed(why) => RejectionV::Malformed(why@),
        }
    }
}

/// The sentence a rejection is reported with.
pub open spec fn rejection_text(r: RejectionV) -> Seq<char> {
    match r {
        RejectionV::UnknownKind(k) => "no command named "@ + crate::model::debug_text(k),
        RejectionV::Malformed(why) => why,
    }
}

impl Rejection {
    /// The sentence the console prints for this rejection: the kind named for an unknown one,
    /// the guard's own reason for a malformed one.
    pub fn message(&self) -> (s: String)
        ensures
            s@ == rejection_text(self@),
    {
        match self {
            Rejection::UnknownKind(kind) => {
                let mut v = chars_of("no command named ");
                let d = crate::model::debug_str(kind.as_str());
                let mut dv = chars_of(d.as_str());
                let ghost head = v@;
                let ghost tail = dv@;
                v.append(&mut dv);
                assert(v@ =~= head + tail);
                string_of(&v)
            },
            Rejection::Malformed(why) => {
                let w: &str = *why;
                w.to_string()
            },
        }
    }
}

/// The `text` member, or empty.
pub open spec fn text_of(v: JsonV) -> Seq<char> {
    match field_str(v, "text"@) {
        Some(t) => t,
        None => Seq::empty(),
    }
}

/// The trimmed non-blank `text` member, or the rejection `why`.
pub open spec fn label_of(v: JsonV, why: Seq<char>) -> Result<Seq<char>, RejectionV> {
    match field_str(v, "text"@) {
        Some(t) => match nonblank_spec(t) {
            Some(l) => Ok(l),
            None => Err(RejectionV::Malformed(why)),
        },
        None => Err(RejectionV::Malformed(why)),
    }
}

/// The string member `key`, or the rejection `why`.
pub open spec fn required(v: JsonV, key: Seq<char>, why: Seq<char>) -> Result<Seq<char>, RejectionV> {
    match field_str(v, key) {
        Some(s) => Ok(s),
        None => Err(RejectionV::Malformed(why)),
    }
}

/// A well-ordered `[fromCol, toCol]`, or the rejection naming `kind`.
pub open spec fn span_of(v: JsonV, kind: Seq<char>) -> Result<(i64, i64), RejectionV> {
    match (field_int(v, "fromCol"@), field_int(v, "toCol"@)) {
        (Some(f), Some(t)) => if f < t {
            Ok((f, t))
        } else {
            Err(RejectionV::Malformed(kind + ": needs a well-ordered [fromCol, toCol]"@))
        },
        _ => Err(RejectionV::Malformed(kind + ": needs a well-ordered [fromCol, toCol]"@)),
    }
}

/// Both endpoints of an edge: present, non-blank (trimmed) and distinct.
pub open spec fn endpoints_of(v: JsonV) -> Result<(Seq<char>, Seq<char>), RejectionV> {
    let src = match field_str(v, "src"@) {
        Some(s) => nonblank_spec(s),
        None => None,
    };
    let dst = match field_str(v, "dst"@) {
        Some(s) => nonblank_spec(s),
        None => None,
    };
    match (src, dst) {
        (Some(s), Some(d)) => if s == d {
            Err(RejectionV::Malformed("connect: an element cannot link to itself"@))
        } else {
            Ok((s, d))
        },
        _ => Err(RejectionV::Malformed("connect: both `src` and `dst` must name an element"@)),
    }
}

/// What a creation body reads as.
pub open spec fn mint_spec(v: JsonV, kind: Seq<char>) -> Result<MintV, RejectionV> {
    if kind == "add"@ {
        match field_str(v, "type"@) {
            Some(t) if lane_of(t) is Some => match label_of(v, "add: a sticky needs a non-blank label"@) {
                Ok(label) => Ok(
                    MintV::Add {
                        lane: lane_of(t)->0,
                        label,
                        col: field_int(v, "col"@),
                        detail: match field_str(v, "detail"@) {
                            Some(d) => if d.len() > 0 {
                                Some(d)
                            } else {
                                None
                            },
                            None => None,
                        },
                        prepend: match field_bool(v, "prepend"@) {
                            Some(b) => b,
                            None => false,
                        },
                    },
                ),
                Err(e) => Err(e),
            },
            _ => Err(RejectionV::Malformed("add: `type` must name one of the eight lanes"@)),
        }
    } else if kind == "region-add"@ {
        match label_of(v, "region-add: a region needs a non-blank label"@) {
            Err(e) => Err(e),
            Ok(label) => match span_of(v, "region-add"@) {
                Err(e) => Err(e),
                Ok((from_col, to_col)) => Ok(MintV::RegionAdd { label, from_col, to_col }),
            },
        }
    } else {
        match required(v, "regionId"@, "phase-split: no regionId to split"@) {
            Err(e) => Err(e),
            Ok(id) => match field_int(v, "atCol"@) {
                None => Err(RejectionV::Malformed("phase-split: no atCol to split at"@)),
                Some(at_col) => match label_of(
                    v,
                    "phase-split: the right half needs a non-blank label"@,
                ) {
                    Err(e) => Err(e),
                    Ok(label) => Ok(MintV::PhaseSplit { id, at_col, label }),
                },
            },
        }
    }
}

/// What a `move` body reads as: the target (at least a column or a clamped, rounded
/// sub-position) and a swap when it names both halves and another sticky.
pub open spec fn move_spec(v: JsonV) -> Result<FoldV, RejectionV> {
    match required(v, "elemId"@, "move: no elemId to move"@) {
        Err(e) => Err(e),
        Ok(id) => {
            let col = field_int(v, "col"@);
            let y = match field_num(v, "y"@) {
                Some(n) => Some(clamp_y_spec(n)),
                None => None,
            };
            if col is None && y is None {
                Err(RejectionV::Malformed("move: neither a col nor a y to move to"@))
            } else {
                let swap = match (field_str(v, "swapId"@), field_int(v, "swapCol"@)) {
                    (Some(sid), Some(scol)) => if sid != id {
                        Some((sid, scol))
                    } else {
                        None
                    },
                    _ => None,
                };
                Ok(FoldV::Move { id, col, y, swap })
            }
        },
    }
}

/// What a non-creation body reads as.
pub open spec fn fold_spec(v: JsonV, kind: Seq<char>) -> Result<FoldV, RejectionV> {
    if kind == "connect"@ || kind == "disconnect"@ {
        match endpoints_of(v) {
            Err(e) => Err(e),
            Ok((src, dst)) => if kind == "connect"@ {
                Ok(FoldV::Connect { src, dst })
            } else {
                Ok(FoldV::Disconnect { src, dst })
            },
        }
    } else if kind == "region-resize"@ {
        match required(v, "regionId"@, "region-resize: no regionId to resize"@) {
            Err(e) => Err(e),
            Ok(id) => match span_of(v, "region-resize"@) {
                Err(e) => Err(e),
                Ok((from_col, to_col)) => Ok(FoldV::RegionResize { id, from_col, to_col }),
            },
        }
    } else if kind == "frontier-move"@ {
        match required(v, "regionId"@, "frontier-move: no regionId to re-border"@) {
            Err(e) => Err(e),
            Ok(id) => {
                let edge = match field_str(v, "edge"@) {
                    Some(e) => if e == "start"@ {
                        Some(Frontier::Start)
                    } else if e == "end"@ {
                        Some(Frontier::End)
                    } else {
                        None
                    },
                    None => None,
                };
                match edge {
                    None => Err(
                        RejectionV::Malformed(
                            "frontier-move: `edge` must be \"start\" or \"end\""@,
                        ),
                    ),
                    Some(edge) => match field_int(v, "col"@) {
                        None => Err(RejectionV::Malformed("frontier-move: no col to move to"@)),
                        Some(col) => Ok(FoldV::FrontierMove { id, edge, col }),
                    },
                }
            },
        }
    } else if kind == "region-rename"@ {
        match required(v, "regionId"@, "region-rename: no regionId to rename"@) {
            Err(e) => Err(e),
            Ok(id) => match label_of(v, "region-rename: a region needs a non-blank label"@) {
                Err(e) => Err(e),
                Ok(label) => Ok(FoldV::RegionRename { id, label }),
            },
        }
    } else if kind == "region-remove"@ {
        match required(v, "regionId"@, "region-remove: no regionId to remove"@) {
            Err(e) => Err(e),
            Ok(id) => Ok(FoldV::RegionRemove { id }),
        }
    } else if kind == "move"@ {
        move_spec(v)
    } else if kind == "rename"@ {
        match required(v, "elemId"@, "rename: no elemId to rename"@) {
            Err(e) => Err(e),
            Ok(id) => match label_of(v, "rename: an element needs a non-blank label"@) {
                Err(e) => Err(e),
                Ok(label) => Ok(FoldV::Rename { id, label }),
            },
        }
    } else if kind == "resolve"@ {
        match required(v, "elemId"@, "resolve: no elemId to resolve"@) {
            Err(e) => Err(e),
            Ok(id) => Ok(FoldV::Resolve { id, resolution: text_of(v) }),
        }
    } else if kind == "drop"@ {
        match required(v, "elemId"@, "drop: no elemId to remove"@) {
            Err(e) => Err(e),
            Ok(id) => Ok(FoldV::Drop { id }),
        }
    } else if kind == "comment"@ || kind == "question"@ || kind == "split"@ {
        match required(v, "elemId"@, "comment: no elemId to annotate"@) {
            Err(e) => Err(e),
            Ok(id) => Ok(FoldV::Annotate { id, text: text_of(v) }),
        }
    } else {
        Err(RejectionV::UnknownKind(kind))
    }
}

/// The kind a body names: `comment` when it names none.
pub open spec fn kind_of(v: JsonV) -> Seq<char> {
    match field_str(v, "kind"@) {
        Some(k) => k,
        None => "comment"@,
    }
}

/// What one posted body reads as: the command it names, or why it is none.
pub open spec fn parse_command_spec(v: JsonV) -> Result<CommandV, RejectionV> {
    let kind = kind_of(v);
    if kind == "add"@ || kind == "region-add"@ || kind == "phase-split"@ {
        match mint_spec(v, kind) {
            Ok(m) => Ok(CommandV::Mint(m)),
            Err(e) => Err(e),
        }
    } else {
        match fold_spec(v, kind) {
            Ok(f) => Ok(CommandV::Fold(f)),
            Err(e) => Err(e),
        }
    }
}

pub open spec fn res_view<T: View>(r: Result<T, Rejection>) -> Result<T::V, RejectionV> {
    match r {
        Ok(x) => Ok(x@),
        Err(e) => Err(e@),
    }
}

fn malformed<T>(why: &'static str) -> (r: Result<T, Rejection>)
    ensures
        r matches Err(e) && e@ == RejectionV::Malformed(why@),
{
    Err(Rejection::Malformed(why))
}

fn text(v: &Json) -> (s: String)
    ensures
        s@ == text_of(v@),
{
    match v.get_str("text") {
        Some(t) => t.to_string(),
        None => String::new(),
    }
}

fn label(v: &Json, why: &'static str) -> (r: Result<String, Rejection>)
    ensures
        match r {
            Ok(l) => label_of(v@, why@) == Ok::<Seq<char>, RejectionV>(l@),
            Err(e) => label_of(v@, why@) == Err::<Seq<char>, RejectionV>(e@),
        },
{
    match v.get_str("text") {
        Some(t) => match nonblank(t) {
            Some(l) => Ok(l),
            None => Err(Rejection::Malformed(why)),
        },
        None => Err(Rejection::Malformed(why)),
    }
}

fn required_field(v: &Json, key: &str, why: &'static str) -> (r: Result<String, Rejection>)
    ensures
        match r {
            Ok(s) => required(v@, key@, why@) == Ok::<Seq<char>, RejectionV>(s@),
            Err(e) => required(v@, key@, why@) == Err::<Seq<char>, RejectionV>(e@),
        },
{
    match v.get_str(key) {
        Some(s) => Ok(s.to_string()),
        None => Err(Rejection::Malformed(why)),
    }
}

fn span(v: &Json, region_add: bool) -> (r: Result<(i64, i64), Rejection>)
    ensures
        match r {
            Ok(p) => span_of(v@, if region_add { "region-add"@ } else { "region-resize"@ }) == Ok::<
                (i64, i64),
                RejectionV,
            >(p),
            Err(e) => span_of(v@, if region_add { "region-add"@ } else { "region-resize"@ }) == Err::<
                (i64, i64),
                RejectionV,
            >(e@),
        },
{
    let why: &'static str = if region_add {
        "region-add: needs a well-ordered [fromCol, toCol]"
    } else {
        "region-resize: needs a well-ordered [fromCol, toCol]"
    };
    proof {
        reveal_strlit("region-add: needs a well-ordered [fromCol, toCol]");
        reveal_strlit("region-resize: needs a well-ordered [fromCol, toCol]");
        reveal_strlit("region-add");
        reveal_strlit("region-resize");
        reveal_strlit(": needs a well-ordered [fromCol, toCol]");
        assert("region-add: needs a well-ordered [fromCol, toCol]"@ =~= "region-add"@
            + ": needs a well-ordered [fromCol, toCol]"@);
        assert("region-resize: needs a well-ordered [fromCol, toCol]"@ =~= "region-resize"@
            + ": needs a well-ordered [fromCol, toCol]"@);
    }
    match (v.get_i64("fromCol"), v.get_i64("toCol")) {
        (Some(from_col), Some(to_col)) => {
            if valid_span(from_col, to_col) {
                Ok((from_col, to_col))
            } else {
                Err(Rejection::Malformed(why))
            }
        },
        _ => Err(Rejection::Malformed(why)),
    }
}

fn endpoints(v: &Json) -> (r: Result<(String, String), Rejection>)
    ensures
        match r {
            Ok((s, d)) => endpoints_of(v@) == Ok::<(Seq<char>, Seq<char>), RejectionV>((s@, d@)),
            Err(e) => endpoints_of(v@) == Err::<(Seq<char>, Seq<char>), RejectionV>(e@),
        },
{
    let src = match v.get_str("src") {
        Some(s) => nonblank(s),
        None => None,
    };
    let dst = match v.get_str("dst") {
        Some(s) => nonblank(s),
        None => None,
    };
    match (src, dst) {
        (Some(s), Some(d)) => {
            if s == d {
                Err(Rejection::Malformed("connect: an element cannot link to itself"))
            } else {
                Ok((s, d))
            }
        },
        _ => Err(Rejection::Malformed("connect: both `src` and `dst` must name an element")),
    }
}

fn parse_mint(v: &Json, kind: &str) -> (r: Result<Mint, Rejection>)
    ensures
        res_view(r) == mint_spec(v@, kind@),
{
    if str_eq(kind, "add") {
        let lane = match v.get_str("type") {
            Some(t) => lane_from_str(t),
            None => None,
        };
        let lane = match lane {
            Some(l) => l,
            None => {
                return Err(Rejection::Malformed("add: `type` must name one of the eight lanes"));
            },
        };
        let label = match label(v, "add: a sticky needs a non-blank label") {
            Ok(l) => l,
            Err(e) => {
                return Err(e);
            },
        };
        let detail = match v.get_str("detail") {
            Some(d) => if d.is_empty() {
                None
            } else {
                Some(d.to_string())
            },
            None => None,
        };
        let prepend = match v.get_bool("prepend") {
            Some(b) => b,
            None => false,
        };
        Ok(Mint::Add { lane, label, col: v.get_i64("col"), detail, prepend })
    } else if str_eq(kind, "region-add") {
        let label = match label(v, "region-add: a region needs a non-blank label") {
            Ok(l) => l,
            Err(e) => {
                return Err(e);
            },
        };
        let (from_col, to_col) = match span(v, true) {
            Ok(p) => p,
            Err(e) => {
                return Err(e);
            },
        };
        Ok(Mint::RegionAdd { label, from_col, to_col })
    } else {
        let id = match required_field(v, "regionId", "phase-split: no regionId to split") {
            Ok(i) => i,
            Err(e) => {
                return Err(e);
            },
        };
        let at_col = match v.get_i64("atCol") {
            Some(c) => c,
            None => {
                return Err(Rejection::Malformed("phase-split: no atCol to split at"));
            },
        };
        let label = match label(v, "phase-split: the right half needs a non-blank label") {
            Ok(l) => l,
            Err(e) => {
                return Err(e);
            },
        };
        Ok(Mint::PhaseSplit { id, at_col, label })
    }
}

fn parse_move(v: &Json) -> (r: Result<Fold, Rejection>)
    ensures
        res_view(r) == move_spec(v@),
{
    let id = match required_field(v, "elemId", "move: no elemId to move") {
        Ok(i) => i,
        Err(e) => {
            return Err(e);
        },
    };
    let col = v.get_i64("col");
    let y = match v.get_num("y") {
        Some(n) => Some(clamp_y(n)),
        None => None,
    };
    if col.is_none() && y.is_none() {
        return Err(Rejection::Malformed("move: neither a col nor a y to move to"));
    }
    let swap = match (v.get_str("swapId"), v.get_i64("swapCol")) {
        (Some(sid), Some(scol)) => if !str_eq(sid, id.as_str()) {
            Some((sid.to_string(), scol))
        } else {
            None
        },
        _ => None,
    };
    Ok(Fold::Move { id, col, y, swap })
}

fn parse_fold(v: &Json, kind: &str) -> (r: Result<Fold, Rejection>)
    ensures
        res_view(r) == fold_spec(v@, kind@),
{
    if str_eq(kind, "connect") || str_eq(kind, "disconnect") {
        let (src, dst) = match endpoints(v) {
            Ok(p) => p,
            Err(e) => {
                return Err(e);
            },
        };
        if str_eq(kind, "connect") {
            Ok(Fold::Connect { src, dst })
        } else {
            Ok(Fold::Disconnect { src, dst })
        }
    } else if str_eq(kind, "region-resize") {
        let id = match required_field(v, "regionId", "region-resize: no regionId to resize") {
            Ok(i) => i,
            Err(e) => {
                return Err(e);
            },
        };
        let (from_col, to_col) = match span(v, false) {
            Ok(p) => p,
            Err(e) => {
                return Err(e);
            },
        };
        Ok(Fold::RegionResize { id, from_col, to_col })
    } else if str_eq(kind, "frontier-move") {
        let id = match required_field(v, "regionId", "frontier-move: no regionId to re-border") {
            Ok(i) => i,
            Err(e) => {
                return Err(e);
            },
        };
        let edge = match v.get_str("edge") {
            Some(e) => if str_eq(e, "start") {
                Some(Frontier::Start)
            } else if str_eq(e, "end") {
                Some(Frontier::End)
            } else {
                None
            },
            None => None,
        };
        let edge = match edge {
            Some(e) => e,
            None => {
                return Err(
                    Rejection::Malformed("frontier-move: `edge` must be \"start\" or \"end\""),
                );
            },
        };
        let col = match v.get_i64("col") {
            Some(c) => c,
            None => {
                return Err(Rejection::Malformed("frontier-move: no col to move to"));
            },
        };
        Ok(Fold::FrontierMove { id, edge, col })
    } else if str_eq(kind, "region-rename") {
        let id = match required_field(v, "regionId", "region-rename: no regionId to rename") {
            Ok(i) => i,
            Err(e) => {
                return Err(e);
            },
        };
        let label = match label(v, "region-rename: a region needs a non-blank label") {
            Ok(l) => l,
            Err(e) => {
                return Err(e);
            },
        };
        Ok(Fold::RegionRename { id, label })
    } else if str_eq(kind, "region-remove") {
        let id = match required_field(v, "regionId", "region-remove: no regionId to remove") {
            Ok(i) => i,
            Err(e) => {
                return Err(e);
            },
        };
        Ok(Fold::RegionRemove { id })
    } else if str_eq(kind, "move") {
        parse_move(v)
    } else if str_eq(kind, "rename") {
        let id = match required_field(v, "elemId", "rename: no elemId to rename") {
            Ok(i) => i,
            Err(e) => {
                return Err(e);
            },
        };
        let label = match label(v, "rename: an element needs a non-blank label") {
            Ok(l) => l,
            Err(e) => {
                return Err(e);
            },
        };
        Ok(Fold::Rename { id, label })
    } else if str_eq(kind, "resolve") {
        let id = match required_field(v, "elemId", "resolve: no elemId to resolve") {
            Ok(i) => i,
            Err(e) => {
                return Err(e);
            },
        };
        Ok(Fold::Resolve { id, resolution: text(v) })
    } else if str_eq(kind, "drop") {
        let id = match required_field(v, "elemId", "drop: no elemId to remove") {
            Ok(i) => i,
            Err(e) => {
                return Err(e);
            },
        };
        Ok(Fold::Drop { id })
    } else if str_eq(kind, "comment") || str_eq(kind, "question") || str_eq(kind, "split") {
        let id = match required_field(v, "elemId", "comment: no elemId to annotate") {
            Ok(i) => i,
            Err(e) => {
                return Err(e);
            },
        };
        Ok(Fold::Annotate { id, text: text(v) })
    } else {
        Err(Rejection::UnknownKind(kind.to_string()))
    }
}

/// Read one posted body into the command it names, or say why it is none. An absent `kind` means
/// `comment`.
pub fn parse_command(v: &Json) -> (r: Result<Command, Rejection>)
    ensures
        res_view(r) == parse_command_spec(v@),
{
    let kind = match v.get_str("kind") {
        Some(k) => k,
        None => "comment",
    };
    if str_eq(kind, "add") || str_eq(kind, "region-add") || str_eq(kind, "phase-split") {
        match parse_mint(v, kind) {
            Ok(m) => Ok(Command::Mint(m)),
            Err(e) => Err(e),
        }
    } else {
        match parse_fold(v, kind) {
            Ok(f) => Ok(Command::Fold(f)),
            Err(e) => Err(e),
        }
    }
}

/// The events a fold persists: total, because every guard ran at the parse. A move that displaces
/// an occupant gives two moves, so the swap round-trips.
pub open spec fn fold_events_spec(f: FoldV) -> Seq<EventV> {
    match f {
        FoldV::Move { id, col, y, swap } => {
            let first = EventV::ElementMoved { id, col, kind: None, y };
            match swap {
                Some((sid, scol)) => seq![
                    first,
                    EventV::ElementMoved { id: sid, col: Some(scol), kind: None, y: None },
                ],
                None => seq![first],
            }
        },
        FoldV::Rename { id, label } => seq![EventV::ElementRenamed { id, label }],
        FoldV::Resolve { id, resolution } => seq![EventV::HotspotResolved { id, resolution }],
        FoldV::Drop { id } => seq![EventV::ElementRemoved { id }],
        FoldV::Annotate { id, text } => seq![EventV::ElementAnnotated { id, text }],
        FoldV::Connect { src, dst } => seq![EventV::EdgeAdded { src, dst, label: None }],
        FoldV::Disconnect { src, dst } => seq![EventV::EdgeRemoved { src, dst }],
        FoldV::RegionResize { id, from_col, to_col } => seq![
            EventV::PhaseResized { id, from_col, to_col },
        ],
        FoldV::FrontierMove { id, edge, col } => seq![
            EventV::FrontierMoved { id, edge: frontier_wire(edge), col },
        ],
        FoldV::RegionRename { id, label } => seq![EventV::PhaseRenamed { id, label }],
        FoldV::RegionRemove { id } => seq![EventV::PhaseRemoved { id }],
    }
}

fn single(ev: Event) -> (r: Vec<Event>)
    ensures
        events_view(r@) == seq![ev@],
{
    let mut r: Vec<Event> = Vec::new();
    r.push(ev);
    assert(events_view(r@) =~= seq![ev@]);
    r
}

/// The events a fold persists.
pub fn fold_to_events(cmd: &Fold) -> (r: Vec<Event>)
    ensures
        events_view(r@) == fold_events_spec(cmd@),
{
    match cmd {
        Fold::Move { id, col, y, swap } => {
            let first = Event::ElementMoved { id: id.clone(), col: *col, kind: None, y: *y };
            let mut evs: Vec<Event> = Vec::new();
            evs.push(first);
            match swap {
                Some((sid, scol)) => {
                    let second = Event::ElementMoved {
                        id: sid.clone(),
                        col: Some(*scol),
                        kind: None,
                        y: None,
                    };
                    evs.push(second);
                    assert(events_view(evs@) =~= seq![first@, second@]);
                },
                None => {
                    assert(events_view(evs@) =~= seq![first@]);
                },
            }
            evs
        },
        Fold::Rename { id, label } => single(
            Event::ElementRenamed { id: id.clone(), label: label.clone() },
        ),
        Fold::Resolve { id, resolution } => single(
            Event::HotspotResolved { id: id.clone(), resolution: resolution.clone() },
        ),
        Fold::Drop { id } => single(Event::ElementRemoved { id: id.clone() }),
        Fold::Annotate { id, text } => single(
            Event::ElementAnnotated { id: id.clone(), text: text.clone() },
        ),
        Fold::Connect { src, dst } => single(
            Event::EdgeAdded { src: src.clone(), dst: dst.clone(), label: None },
        ),
        Fold::Disconnect { src, dst } => single(
            Event::EdgeRemoved { src: src.clone(), dst: dst.clone() },
        ),
        Fold::RegionResize { id, from_col, to_col } => single(
            Event::PhaseResized { id: id.clone(), from_col: *from_col, to_col: *to_col },
        ),
        Fold::FrontierMove { id, edge, col } => single(
            Event::FrontierMoved { id: id.clone(), edge: edge.as_str().to_string(), col: *col },
        ),
        Fold::RegionRename { id, label } => single(
            Event::PhaseRenamed { id: id.clone(), label: label.clone() },
        ),
        Fold::RegionRemove { id } => single(Event::PhaseRemoved { id: id.clone() }),
    }
}


/// No posted command ever leaves a sticky with a blank label: a fold's events keep every label on
/// the board non-blank, because a rename's label is trimmed and refused when blank.
pub proof fn command_never_blanks_a_label(m: ModelV, w: u32, v: JsonV)
    requires
        labels_nonblank(m),
    ensures
        parse_command_spec(v) matches Ok(CommandV::Fold(f)) ==> labels_nonblank(
            fold_from((m, w), fold_events_spec(f)).0,
        ),
{
    if let Ok(CommandV::Fold(f)) = parse_command_spec(v) {
        let evs = fold_events_spec(f);
        if let FoldV::Rename { id, label } = f {
            let t = field_str(v, "text"@)->0;
            crate::text::lemma_trim_idempotent(t);
            assert(nonblank_label(label));
        }
        assert forall|i: int| 0 <= i < evs.len() implies labels_ok(#[trigger] evs[i]) by {}
        fold_keeps_labels((m, w), evs);
    }
}

/// The command kinds are spelled apart.
proof fn lemma_command_kinds_differ()
    ensures
        "add"@ != "region-add"@,
        "add"@ != "phase-split"@,
        "add"@ != "connect"@,
        "add"@ != "disconnect"@,
        "add"@ != "region-resize"@,
        "add"@ != "frontier-move"@,
        "add"@ != "region-rename"@,
        "add"@ != "region-remove"@,
        "add"@ != "move"@,
        "add"@ != "rename"@,
        "add"@ != "resolve"@,
        "add"@ != "drop"@,
        "add"@ != "comment"@,
        "add"@ != "question"@,
        "add"@ != "split"@,
        "region-add"@ != "phase-split"@,
        "region-add"@ != "connect"@,
        "region-add"@ != "disconnect"@,
        "region-add"@ != "region-resize"@,
        "region-add"@ != "frontier-move"@,
        "region-add"@ != "region-rename"@,
        "region-add"@ != "region-remove"@,
        "region-add"@ != "move"@,
        "region-add"@ != "rename"@,
        "region-add"@ != "resolve"@,
        "region-add"@ != "drop"@,
        "region-add"@ != "comment"@,
        "region-add"@ != "question"@,
        "region-add"@ != "split"@,
        "phase-split"@ != "connect"@,
        "phase-split"@ != "disconnect"@,
        "phase-split"@ != "region-resize"@,
        "phase-split"@ != "frontier-move"@,
        "phase-split"@ != "region-rename"@,
        "phase-split"@ != "region-remove"@,
        "phase-split"@ != "move"@,
        "phase-split"@ != "rename"@,
        "phase-split"@ != "resolve"@,
        "phase-split"@ != "drop"@,
        "phase-split"@ != "comment"@,
        "phase-split"@ != "question"@,
        "phase-split"@ != "split"@,
        "connect"@ != "disconnect"@,
        "connect"@ != "region-resize"@,
        "connect"@ != "frontier-move"@,
        "connect"@ != "region-rename"@,
        "connect"@ != "region-remove"@,
        "connect"@ != "move"@,
        "connect"@ != "rename"@,
        "connect"@ != "resolve"@,
        "connect"@ != "drop"@,
        "connect"@ != "comment"@,
        "connect"@ != "question"@,
        "connect"@ != "split"@,
        "disconnect"@ != "region-resize"@,
        "disconnect"@ != "frontier-move"@,
        "disconnect"@ != "region-rename"@,
        "disconnect"@ != "region-remove"@,
        "disconnect"@ != "move"@,
        "disconnect"@ != "rename"@,
        "disconnect"@ != "resolve"@,
        "disconnect"@ != "drop"@,
        "disconnect"@ != "comment"@,
        "disconnect"@ != "question"@,
        "disconnect"@ != "split"@,
        "region-resize"@ != "frontier-move"@,
        "region-resize"@ != "region-rename"@,
        "region-resize"@ != "region-remove"@,
        "region-resize"@ != "move"@,
        "region-resize"@ != "rename"@,
        "region-resize"@ != "resolve"@,
        "region-resize"@ != "drop"@,
        "region-resize"@ != "comment"@,
        "region-resize"@ != "question"@,
        "region-resize"@ != "split"@,
        "frontier-move"@ != "region-rename"@,
        "frontier-move"@ != "region-remove"@,
        "frontier-move"@ != "move"@,
        "frontier-move"@ != "rename"@,
        "frontier-move"@ != "resolve"@,
        "frontier-move"@ != "drop"@,
        "frontier-move"@ != "comment"@,
        "frontier-move"@ != "question"@,
        "frontier-move"@ != "split"@,
        "region-rename"@ != "region-remove"@,
        "region-rename"@ != "move"@,
        "region-rename"@ != "rename"@,
        "region-rename"@ != "resolve"@,
        "region-rename"@ != "drop"@,
        "region-rename"@ != "comment"@,
        "region-rename"@ != "question"@,
        "region-rename"@ != "split"@,
        "region-remove"@ != "move"@,
        "region-remove"@ != "rename"@,
        "region-remove"@ != "resolve"@,
        "region-remove"@ != "drop"@,
        "region-remove"@ != "comment"@,
        "region-remove"@ != "question"@,
        "region-remove"@ != "split"@,
        "move"@ != "rename"@,
        "move"@ != "resolve"@,
        "move"@ != "drop"@,
        "move"@ != "comment"@,
        "move"@ != "question"@,
        "move"@ != "split"@,
        "rename"@ != "resolve"@,
        "rename"@ != "drop"@,
        "rename"@ != "comment"@,
        "rename"@ != "question"@,
        "rename"@ != "split"@,
        "resolve"@ != "drop"@,
        "resolve"@ != "comment"@,
        "resolve"@ != "question"@,
        "resolve"@ != "split"@,
        "drop"@ != "comment"@,
        "drop"@ != "question"@,
        "drop"@ != "split"@,
        "comment"@ != "question"@,
        "comment"@ != "split"@,
        "question"@ != "split"@,
{
    reveal_strlit("add");
    reveal_strlit("region-add");
    reveal_strlit("phase-split");
    reveal_strlit("connect");
    reveal_strlit("disconnect");
    reveal_strlit("region-resize");
    reveal_strlit("frontier-move");
    reveal_strlit("region-rename");
    reveal_strlit("region-remove");
    reveal_strlit("move");
    reveal_strlit("rename");
    reveal_strlit("resolve");
    reveal_strlit("drop");
    reveal_strlit("comment");
    reveal_strlit("question");
    reveal_strlit("split");
    assert("add"@.len() != "region-add"@.len());
    assert("add"@.len() != "phase-split"@.len());
    assert("add"@.len() != "connect"@.len());
    assert("add"@.len() != "disconnect"@.len());
    assert("add"@.len() != "region-resize"@.len());
    assert("add"@.len() != "frontier-move"@.len());
    assert("add"@.len() != "region-rename"@.len());
    assert("add"@.len() != "region-remove"@.len());
    assert("add"@.len() != "move"@.len());
    assert("add"@.len() != "rename"@.len());
    assert("add"@.len() != "resolve"@.len());
    assert("add"@.len() != "drop"@.len());
    assert("add"@.len() != "comment"@.len());
    assert("add"@.len() != "question"@.len());
    assert("add"@.len() != "split"@.len());
    assert("region-add"@.len() != "phase-split"@.len());
    assert("region-add"@.len() != "connect"@.len());
    assert("region-add"@[0] != "disconnect"@[0]);
    assert("region-add"@.len() != "region-resize"@.len());
    assert("region-add"@.len() != "frontier-move"@.len());
    assert("region-add"@.len() != "region-rename"@.len());
    assert("region-add"@.len() != "region-remove"@.len());
    assert("region-add"@.len() != "move"@.len());
    assert("region-add"@.len() != "rename"@.len());
    assert("region-add"@.len() != "resolve"@.len());
    assert("region-add"@.len() != "drop"@.len());
    assert("region-add"@.len() != "comment"@.len());
    assert("region-add"@.len() != "question"@.len());
    assert("region-add"@.len() != "split"@.len());
    assert("phase-split"@.len() != "connect"@.len());
    assert("phase-split"@.len() != "disconnect"@.len());
    assert("phase-split"@.len() != "region-resize"@.len());
    assert("phase-split"@.len() != "frontier-move"@.len());
    assert("phase-split"@.len() != "region-rename"@.len());
    assert("phase-split"@.len() != "region-remove"@.len());
    assert("phase-split"@.len() != "move"@.len());
    assert("phase-split"@.len() != "rename"@.len());
    assert("phase-split"@.len() != "resolve"@.len());
    assert("phase-split"@.len() != "drop"@.len());
    assert("phase-split"@.len() != "comment"@.len());
    assert("phase-split"@.len() != "question"@.len());
    assert("phase-split"@.len() != "split"@.len());
    assert("connect"@.len() != "disconnect"@.len());
    assert("connect"@.len() != "region-resize"@.len());
    assert("connect"@.len() != "frontier-move"@.len());
    assert("connect"@.len() != "region-rename"@.len());
    assert("connect"@.len() != "region-remove"@.len());
    assert("connect"@.len() != "move"@.len());
    assert("connect"@.len() != "rename"@.len());
    assert("connect"@[0] != "resolve"@[0]);
    assert("connect"@.len() != "drop"@.len());
    assert("connect"@[2] != "comment"@[2]);
    assert("connect"@.len() != "question"@.len());
    assert("connect"@.len() != "split"@.len());
    assert("disconnect"@.len() != "region-resize"@.len());
    assert("disconnect"@.len() != "frontier-move"@.len());
    assert("disconnect"@.len() != "region-rename"@.len());
    assert("disconnect"@.len() != "region-remove"@.len());
    assert("disconnect"@.len() != "move"@.len());
    assert("disconnect"@.len() != "rename"@.len());
    assert("disconnect"@.len() != "resolve"@.len());
    assert("disconnect"@.len() != "drop"@.len());
    assert("disconnect"@.len() != "comment"@.len());
    assert("disconnect"@.len() != "question"@.len());
    assert("disconnect"@.len() != "split"@.len());
    assert("region-resize"@[0] != "frontier-move"@[0]);
    assert("region-resize"@[9] != "region-rename"@[9]);
    assert("region-resize"@[9] != "region-remove"@[9]);
    assert("region-resize"@.len() != "move"@.len());
    assert("region-resize"@.len() != "rename"@.len());
    assert("region-resize"@.len() != "resolve"@.len());
    assert("region-resize"@.len() != "drop"@.len());
    assert("region-resize"@.len() != "comment"@.len());
    assert("region-resize"@.len() != "question"@.len());
    assert("region-resize"@.len() != "split"@.len());
    assert("frontier-move"@[0] != "region-rename"@[0]);
    assert("frontier-move"@[0] != "region-remove"@[0]);
    assert("frontier-move"@.len() != "move"@.len());
    assert("frontier-move"@.len() != "rename"@.len());
    assert("frontier-move"@.len() != "resolve"@.len());
    assert("frontier-move"@.len() != "drop"@.len());
    assert("frontier-move"@.len() != "comment"@.len());
    assert("frontier-move"@.len() != "question"@.len());
    assert("frontier-move"@.len() != "split"@.len());
    assert("region-rename"@[9] != "region-remove"@[9]);
    assert("region-rename"@.len() != "move"@.len());
    assert("region-rename"@.len() != "rename"@.len());
    assert("region-rename"@.len() != "resolve"@.len());
    assert("region-rename"@.len() != "drop"@.len());
    assert("region-rename"@.len() != "comment"@.len());
    assert("region-rename"@.len() != "question"@.len());
    assert("region-rename"@.len() != "split"@.len());
    assert("region-remove"@.len() != "move"@.len());
    assert("region-remove"@.len() != "rename"@.len());
    assert("region-remove"@.len() != "resolve"@.len());
    assert("region-remove"@.len() != "drop"@.len());
    assert("region-remove"@.len() != "comment"@.len());
    assert("region-remove"@.len() != "question"@.len());
    assert("region-remove"@.len() != "split"@.len());
    assert("move"@.len() != "rename"@.len());
    assert("move"@.len() != "resolve"@.len());
    assert("move"@[0] != "drop"@[0]);
    assert("move"@.len() != "comment"@.len());
    assert("move"@.len() != "question"@.len());
    assert("move"@.len() != "split"@.len());
    assert("rename"@.len() != "resolve"@.len());
    assert("rename"@.len() != "drop"@.len());
    assert("rename"@.len() != "comment"@.len());
    assert("rename"@.len() != "question"@.len());
    assert("rename"@.len() != "split"@.len());
    assert("resolve"@.len() != "drop"@.len());
    assert("resolve"@[0] != "comment"@[0]);
    assert("resolve"@.len() != "question"@.len());
    assert("resolve"@.len() != "split"@.len());
    assert("drop"@.len() != "comment"@.len());
    assert("drop"@.len() != "question"@.len());
    assert("drop"@.len() != "split"@.len());
    assert("comment"@.len() != "question"@.len());
    assert("comment"@.len() != "split"@.len());
    assert("question"@.len() != "split"@.len());
}

/// An `add` body with a lane and a label mints exactly the sticky it posts: in that lane, labelled
/// with the trimmed text, at the posted column (auto-placed when none), with the posted detail
/// when it is not empty, prepended when asked.
pub proof fn an_add_mints_what_was_posted(v: JsonV, t: Seq<char>, lane: Lane, text: Seq<char>)
    requires
        field_str(v, "kind"@) == Some("add"@),
        field_str(v, "type"@) == Some(t),
        lane_of(t) == Some(lane),
        field_str(v, "text"@) == Some(text),
        trim(text).len() > 0,
    ensures
        parse_command_spec(v) == Ok::<CommandV, RejectionV>(
            CommandV::Mint(
                MintV::Add {
                    lane,
                    label: trim(text),
                    col: field_int(v, "col"@),
                    detail: if field_str(v, "detail"@) is Some && field_str(v, "detail"@)->0.len() > 0 {
                        field_str(v, "detail"@)
                    } else {
                        None
                    },
                    prepend: field_bool(v, "prepend"@) == Some(true),
                },
            ),
        ),
{
    lemma_command_kinds_differ();
}

/// An `add` body is refused when its `type` names no lane or its text is blank.
pub proof fn an_add_without_lane_or_label_is_refused(v: JsonV)
    requires
        field_str(v, "kind"@) == Some("add"@),
        !(field_str(v, "type"@) matches Some(t) && lane_of(t) is Some) || !(field_str(
            v,
            "text"@,
        ) matches Some(x) && trim(x).len() > 0),
    ensures
        parse_command_spec(v) matches Err(RejectionV::Malformed(_)),
{
    lemma_command_kinds_differ();
}

/// A `region-add` body with a label and a well-ordered span mints exactly that region.
pub proof fn a_region_add_mints_its_span(v: JsonV, text: Seq<char>, from_col: i64, to_col: i64)
    requires
        field_str(v, "kind"@) == Some("region-add"@),
        field_str(v, "text"@) == Some(text),
        trim(text).len() > 0,
        field_int(v, "fromCol"@) == Some(from_col),
        field_int(v, "toCol"@) == Some(to_col),
        from_col < to_col,
    ensures
        parse_command_spec(v) == Ok::<CommandV, RejectionV>(
            CommandV::Mint(MintV::RegionAdd { label: trim(text), from_col, to_col }),
        ),
{
    lemma_command_kinds_differ();
}

/// A `phase-split` body naming a region, a column and a label mints exactly that cut.
pub proof fn a_phase_split_mints_its_cut(v: JsonV, id: Seq<char>, at_col: i64, text: Seq<char>)
    requires
        field_str(v, "kind"@) == Some("phase-split"@),
        field_str(v, "regionId"@) == Some(id),
        field_int(v, "atCol"@) == Some(at_col),
        field_str(v, "text"@) == Some(text),
        trim(text).len() > 0,
    ensures
        parse_command_spec(v) == Ok::<CommandV, RejectionV>(
            CommandV::Mint(MintV::PhaseSplit { id, at_col, label: trim(text) }),
        ),
{
    lemma_command_kinds_differ();
}

/// A `connect` (or `disconnect`) body naming two distinct stickies folds to exactly the edge
/// between their trimmed ids, added (or removed).
pub proof fn a_connect_links_its_endpoints(v: JsonV, s: Seq<char>, d: Seq<char>)
    requires
        field_str(v, "kind"@) == Some("connect"@) || field_str(v, "kind"@) == Some("disconnect"@),
        field_str(v, "src"@) == Some(s),
        field_str(v, "dst"@) == Some(d),
        trim(s).len() > 0,
        trim(d).len() > 0,
        trim(s) != trim(d),
    ensures
        parse_command_spec(v) matches Ok(CommandV::Fold(f)) && fold_events_spec(f) == if field_str(
            v,
            "kind"@,
        ) == Some("connect"@) {
            seq![EventV::EdgeAdded { src: trim(s), dst: trim(d), label: None }]
        } else {
            seq![EventV::EdgeRemoved { src: trim(s), dst: trim(d) }]
        },
{
    lemma_command_kinds_differ();
}

/// A posted edit of a sticky or a region persists the same events on both of the server's paths:
/// the events of the command it parses to are the events the same body persists as a comment.
pub proof fn a_command_persists_what_its_comment_persists(v: JsonV)
    requires
        parse_command_spec(v) is Ok,
        field_str(v, "kind"@) != Some("connect"@),
        field_str(v, "kind"@) != Some("disconnect"@),
    ensures
        parse_command_spec(v) matches Ok(CommandV::Fold(f)) ==> fold_events_spec(f)
            == comment_events_spec(v),
{
    lemma_command_kinds_differ();
    reveal_strlit("start");
    reveal_strlit("end");
}

/// Whether a kind names an edit of a sticky or a region that the command parser folds.
pub open spec fn edit_kind(k: Seq<char>) -> bool {
    k == "move"@ || k == "rename"@ || k == "resolve"@ || k == "drop"@ || k == "comment"@ || k
        == "question"@ || k == "split"@ || k == "region-resize"@ || k == "frontier-move"@ || k
        == "region-rename"@ || k == "region-remove"@
}

/// A posted edit is accepted as a command exactly when it persists something as a comment: the
/// command parser refuses no edit that the comment path keeps, and keeps none it drops.
pub proof fn an_edit_is_accepted_when_it_persists_something(v: JsonV)
    requires
        edit_kind(kind_of(v)),
    ensures
        parse_command_spec(v) is Ok <==> comment_events_spec(v).len() > 0,
{
    lemma_command_kinds_differ();
    reveal_strlit("start");
    reveal_strlit("end");
}

/// A `region-add` body is refused when its label is blank or missing or its span is not well
/// ordered.
pub proof fn a_bad_region_add_is_refused(v: JsonV)
    requires
        field_str(v, "kind"@) == Some("region-add"@),
        !(field_str(v, "text"@) matches Some(x) && trim(x).len() > 0) || !(field_int(v, "fromCol"@) matches Some(a)
            && field_int(v, "toCol"@) matches Some(b) && a < b),
    ensures
        parse_command_spec(v) matches Err(RejectionV::Malformed(_)),
{
    lemma_command_kinds_differ();
}

/// A `phase-split` body is refused when it names no region, no column or a blank label.
pub proof fn a_bad_phase_split_is_refused(v: JsonV)
    requires
        field_str(v, "kind"@) == Some("phase-split"@),
        field_str(v, "regionId"@) is None || field_int(v, "atCol"@) is None || !(field_str(v, "text"@) matches Some(x)
            && trim(x).len() > 0),
    ensures
        parse_command_spec(v) matches Err(RejectionV::Malformed(_)),
{
    lemma_command_kinds_differ();
}

} // verus!
