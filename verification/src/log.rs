//! Reading an event log: the JSONL line grammar ([`jsonl_records`]) and the read itself
//! ([`parse_log`], [`parse_log_full`]), which tells a malformed known event (an error) from an
//! unknown kind (skipped) and refuses a log with records but nothing it can read.

use crate::codec::{names_an_unknown_lane, names_unknown_lane, parse_event, parse_event_spec, Rejected};
use crate::event::{events_view, Event, EventV};
use crate::json::{field_str, parse, parse_spec, Json, JsonV};
use crate::model::{format_declared, format_declared_spec, read_model, read_model_spec, Model, ModelV};
use crate::paths::{is_log_ext, is_log_path, path_extension};
use crate::replay::{replay, replay_spec};
use crate::number::{dec_digits, push_dec, MAX_TEXT};
use crate::text::{chars_of, string_of, string_of_range, trim, trim_bounds};
use vstd::prelude::*;

verus! {

broadcast use vstd::string::group_string_axioms;

/// The lines of a text, split at each `\n` (the last one possibly empty).
pub open spec fn split_lines(s: Seq<char>) -> Seq<Seq<char>>
    decreases s.len(),
{
    if s.len() == 0 {
        seq![Seq::empty()]
    } else {
        let r = split_lines(s.drop_last());
        if s.last() == '\n' {
            r.push(Seq::empty())
        } else {
            r.update(r.len() - 1, r.last().push(s.last()))
        }
    }
}

pub proof fn lemma_split_lines_len(s: Seq<char>)
    ensures
        split_lines(s).len() >= 1,
        split_lines(s).len() <= s.len() + 1,
    decreases s.len(),
{
    if s.len() > 0 {
        lemma_split_lines_len(s.drop_last());
    }
}

/// The records of a list of lines: each line trimmed, paired with its 1-based number, blank ones
/// left out.
pub open spec fn records_of(lines: Seq<Seq<char>>) -> Seq<(int, Seq<char>)>
    decreases lines.len(),
{
    if lines.len() == 0 {
        Seq::empty()
    } else {
        let r = records_of(lines.drop_last());
        let t = trim(lines.last());
        if t.len() > 0 {
            r.push((lines.len() as int, t))
        } else {
            r
        }
    }
}

/// The meaningful records of JSONL text: each non-blank line, trimmed, with its line number.
pub open spec fn records_spec(text: Seq<char>) -> Seq<(int, Seq<char>)> {
    records_of(split_lines(text))
}

/// The meaningful records of JSONL text: each non-blank line, trimmed, paired with its 1-based
/// line number. The single place the log's line grammar (skip blanks, trim) lives.
pub fn jsonl_records(text: &str) -> (r: Vec<(usize, String)>)
    requires
        text@.len() < MAX_TEXT,
    ensures
        r@.len() == records_spec(text@).len(),
        forall|k: int|
            0 <= k < r@.len() ==> (#[trigger] r@[k]).0 as int == records_spec(text@)[k].0
                && r@[k].1@ == records_spec(text@)[k].1,
{
    let c = chars_of(text);
    let ghost s = c@;
    let mut out: Vec<(usize, String)> = Vec::new();
    let mut start: usize = 0;
    let mut line_no: usize = 1;
    let mut i: usize = 0;
    proof {
        assert(s.take(0) =~= Seq::<char>::empty());
        assert(split_lines(Seq::<char>::empty()) =~= seq![Seq::<char>::empty()]);
    }
    while i < c.len()
        invariant
            i <= c.len(),
            s == c@,
            s == text@,
            start <= i,
            split_lines(s.take(i as int)).len() == line_no,
            split_lines(s.take(i as int)).last() == s.subrange(start as int, i as int),
            1 <= line_no <= i + 1,
            c.len() < MAX_TEXT,
            out@.len() == records_of(split_lines(s.take(i as int)).drop_last()).len(),
            forall|k: int|
                0 <= k < out@.len() ==> (#[trigger] out@[k]).0 as int == records_of(
                    split_lines(s.take(i as int)).drop_last(),
                )[k].0 && out@[k].1@ == records_of(split_lines(s.take(i as int)).drop_last())[k].1,
        decreases c.len() - i,
    {
        let ghost prev = split_lines(s.take(i as int));
        assert(s.take(i + 1).drop_last() =~= s.take(i as int));
        assert(s.take(i + 1).last() == c@[i as int]);
        if c[i] == '\n' {
            let (lo, hi) = trim_bounds(&c, start, i);
            proof {
                assert(prev.push(Seq::<char>::empty()).drop_last() =~= prev);
                assert(prev =~= prev.drop_last().push(prev.last()));
            }
            if lo < hi {
                let t = string_of_range(&c, lo, hi);
                out.push((line_no, t));
            }
            start = i + 1;
            line_no = line_no + 1;
        } else {
            proof {
                let cur = prev.update(prev.len() - 1, prev.last().push(c@[i as int]));
                assert(cur.drop_last() =~= prev.drop_last());
                assert(s.subrange(start as int, i + 1) =~= s.subrange(start as int, i as int).push(
                    c@[i as int],
                ));
            }
        }
        i = i + 1;
    }
    let ghost lines = split_lines(s.take(i as int));
    assert(s.take(i as int) =~= s);
    let (lo, hi) = trim_bounds(&c, start, c.len());
    proof {
        assert(lines =~= lines.drop_last().push(lines.last()));
    }
    if lo < hi {
        let t = string_of_range(&c, lo, hi);
        out.push((line_no, t));
    }
    out
}

/// A log read, with what it could not project: `unread` counts records a newer build could read
/// (an unknown kind, or a lane outside this build's grammar), `corrupt` those no build will (a
/// line naming no event kind).
pub struct LogRead {
    pub events: Vec<Event>,
    pub unread: usize,
    pub corrupt: usize,
}

/// The state of a read after some records: the events so far and the counts of unknown kinds,
/// unknown lanes and unnamed records.
pub struct ReadState {
    pub events: Seq<EventV>,
    pub foreign: nat,
    pub unknown_lane: nat,
    pub unnamed: nat,
}

pub open spec fn line_error(n: int, e: Seq<char>) -> Seq<char> {
    "event-log line "@ + dec_digits(n as nat) + ": "@ + e
}

pub open spec fn malformed_error(n: int, kind: Seq<char>) -> Seq<char> {
    line_error(n, kind + " event with a missing or mis-typed required field"@)
}

/// One record applied to a read so far: the event appended (and counted when it names a lane
/// this build cannot read), a rejection counted, or the error that stops the read.
pub open spec fn read_record(st: ReadState, n: int, line: Seq<char>) -> Result<ReadState, Seq<char>> {
    match parse_spec(line) {
        Err(e) => Err(line_error(n, e)),
        Ok(j) => match parse_event_spec(j) {
            Ok(ev) => {
                let lane = if names_unknown_lane(j) { 1nat } else { 0nat };
                let bad_format = match ev {
                    EventV::BoardFormat { format } => match format_declared_spec(Some(format)) {
                        Err(e) => Some(e),
                        Ok(_) => None,
                    },
                    _ => None,
                };
                match bad_format {
                    Some(e) => Err(line_error(n, e)),
                    None => Ok(
                        ReadState {
                            events: st.events.push(ev),
                            unknown_lane: st.unknown_lane + lane,
                            ..st
                        },
                    ),
                }
            },
            Err(Rejected::UnknownKind) => Ok(ReadState { foreign: st.foreign + 1, ..st }),
            Err(Rejected::UnknownLane) => Ok(ReadState { unknown_lane: st.unknown_lane + 1, ..st }),
            Err(Rejected::Unnamed) => Ok(ReadState { unnamed: st.unnamed + 1, ..st }),
            Err(Rejected::Malformed) => Err(
                malformed_error(
                    n,
                    match field_str(j, "event"@) {
                        Some(k) => k,
                        None => "?"@,
                    },
                ),
            ),
        },
    }
}

/// The read of a list of records, from nothing: the first error stops it.
pub open spec fn read_records(recs: Seq<(int, Seq<char>)>) -> Result<ReadState, Seq<char>>
    decreases recs.len(),
{
    if recs.len() == 0 {
        Ok(ReadState { events: Seq::empty(), foreign: 0, unknown_lane: 0, unnamed: 0 })
    } else {
        match read_records(recs.drop_last()) {
            Err(e) => Err(e),
            Ok(st) => read_record(st, recs.last().0, recs.last().1),
        }
    }
}

pub open spec fn foreign_error(records: nat) -> Seq<char> {
    "event-log: "@ + dec_digits(records) + " record(s), none of a recognised event kind \u{2014} this log is from another board format, or from a newer faceto"@
}

pub open spec fn lane_error(records: nat, lanes: nat) -> Seq<char> {
    "event-log: "@ + dec_digits(records) + " record(s) and no readable board \u{2014} "@
        + dec_digits(lanes)
        + " of them name a lane this faceto does not know, so the log is from a newer faceto"@
}

/// What a log text reads as: its events and the counts of what it could not project, or the
/// error that stops the read. A log with records but not one readable event is refused, since
/// nothing in a single line tells another format's log from an empty board.
pub open spec fn parse_log_spec(text: Seq<char>) -> Result<(Seq<EventV>, nat, nat), Seq<char>> {
    let recs = records_spec(text);
    match read_records(recs) {
        Err(e) => Err(e),
        Ok(st) => if st.events.len() == 0 && st.foreign > 0 {
            Err(foreign_error(recs.len()))
        } else if st.events.len() == 0 && st.unknown_lane > 0 {
            Err(lane_error(recs.len(), st.unknown_lane))
        } else {
            Ok((st.events, st.foreign + st.unknown_lane, st.unnamed))
        },
    }
}

fn msg_line(n: usize, e: &str) -> (m: String)
    ensures
        m@ == line_error(n as int, e@),
{
    let mut v = chars_of("event-log line ");
    push_dec(n as u64, &mut v);
    let mut sep = chars_of(": ");
    v.append(&mut sep);
    let mut ev = chars_of(e);
    v.append(&mut ev);
    string_of(&v)
}

/// [`parse_log`], keeping the counts of what it could not project.
pub fn parse_log_full(text: &str) -> (r: Result<LogRead, String>)
    requires
        text@.len() < MAX_TEXT,
    ensures
        match r {
            Ok(read) => parse_log_spec(text@) == Ok::<(Seq<EventV>, nat, nat), Seq<char>>(
                (events_view(read.events@), read.unread as nat, read.corrupt as nat),
            ),
            Err(m) => parse_log_spec(text@) == Err::<(Seq<EventV>, nat, nat), Seq<char>>(m@),
        },
{
    let recs = jsonl_records(text);
    let ghost rs = records_spec(text@);
    proof {
        lemma_records_bound(text@);
    }
    let mut events: Vec<Event> = Vec::new();
    assert(events_view(events@) =~= Seq::<EventV>::empty());
    assert(rs.take(0) =~= Seq::<(int, Seq<char>)>::empty());
    let mut foreign: usize = 0;
    let mut unknown_lane: usize = 0;
    let mut unnamed: usize = 0;
    let mut i: usize = 0;
    while i < recs.len()
        invariant
            i <= recs.len(),
            recs@.len() == rs.len(),
            rs == records_spec(text@),
            rs.len() <= text@.len() + 1,
            text@.len() < MAX_TEXT,
            forall|q: int| 0 <= q < rs.len() ==> rs[q].1.len() <= text@.len(),
            forall|k: int|
                0 <= k < recs@.len() ==> (#[trigger] recs@[k]).0 as int == rs[k].0 && recs@[k].1@
                    == rs[k].1,
            foreign <= i,
            unknown_lane <= i,
            unnamed <= i,
            read_records(rs.take(i as int)) == Ok::<ReadState, Seq<char>>(
                ReadState {
                    events: events_view(events@),
                    foreign: foreign as nat,
                    unknown_lane: unknown_lane as nat,
                    unnamed: unnamed as nat,
                },
            ),
        decreases recs.len() - i,
    {
        let n = recs[i].0;
        let line = recs[i].1.as_str();
        proof {
            assert(rs.take(i + 1).drop_last() =~= rs.take(i as int));
            assert(rs.take(i + 1).last() == rs[i as int]);
        }
        let j = match parse(line) {
            Ok(j) => j,
            Err(e) => {
                proof {
                    lemma_read_error_sticks(rs, i + 1);
                }
                return Err(msg_line(n, e.as_str()));
            },
        };
        match parse_event(&j) {
            Ok(ev) => {
                if names_an_unknown_lane(&j) {
                    unknown_lane = unknown_lane + 1;
                }
                match &ev {
                    Event::BoardFormat { format } => {
                        match format_declared(Some(format.as_str())) {
                            Ok(_) => {},
                            Err(e) => {
                                proof {
                                    lemma_read_error_sticks(rs, i + 1);
                                }
                                return Err(msg_line(n, e.as_str()));
                            },
                        }
                    },
                    _ => {},
                }
                let ghost before = events_view(events@);
                events.push(ev);
                assert(events_view(events@) =~= before.push(ev@));
            },
            Err(Rejected::UnknownKind) => {
                foreign = foreign + 1;
            },
            Err(Rejected::UnknownLane) => {
                unknown_lane = unknown_lane + 1;
            },
            Err(Rejected::Unnamed) => {
                unnamed = unnamed + 1;
            },
            Err(Rejected::Malformed) => {
                let kind = match j.get_str("event") {
                    Some(k) => k,
                    None => "?",
                };
                let mut v = chars_of(kind);
                let mut tail = chars_of(" event with a missing or mis-typed required field");
                v.append(&mut tail);
                let msg = string_of(&v);
                proof {
                    lemma_read_error_sticks(rs, i + 1);
                }
                return Err(msg_line(n, msg.as_str()));
            },
        }
        i = i + 1;
    }
    assert(rs.take(recs.len() as int) =~= rs);
    if events.len() == 0 {
        if foreign > 0 {
            let mut v = chars_of("event-log: ");
            push_dec(recs.len() as u64, &mut v);
            let mut tail = chars_of(
                " record(s), none of a recognised event kind \u{2014} this log is from another board format, or from a newer faceto",
            );
            v.append(&mut tail);
            return Err(string_of(&v));
        }
        if unknown_lane > 0 {
            let mut v = chars_of("event-log: ");
            push_dec(recs.len() as u64, &mut v);
            let mut mid = chars_of(" record(s) and no readable board \u{2014} ");
            v.append(&mut mid);
            push_dec(unknown_lane as u64, &mut v);
            let mut tail = chars_of(
                " of them name a lane this faceto does not know, so the log is from a newer faceto",
            );
            v.append(&mut tail);
            return Err(string_of(&v));
        }
    }
    Ok(LogRead { events, unread: foreign + unknown_lane, corrupt: unnamed })
}

/// Parse JSONL text into events: an unknown kind is skipped (how an older build reads a newer
/// log), a malformed known event is an error, and a log with records but not one recognised kind
/// is refused.
pub fn parse_log(text: &str) -> (r: Result<Vec<Event>, String>)
    requires
        text@.len() < MAX_TEXT,
    ensures
        match r {
            Ok(evs) => parse_log_spec(text@) matches Ok((e, _, _)) && e == events_view(evs@),
            Err(m) => parse_log_spec(text@) == Err::<(Seq<EventV>, nat, nat), Seq<char>>(m@),
        },
{
    match parse_log_full(text) {
        Ok(read) => Ok(read.events),
        Err(m) => Err(m),
    }
}

proof fn lemma_read_error_sticks(rs: Seq<(int, Seq<char>)>, k: int)
    requires
        0 <= k <= rs.len(),
        read_records(rs.take(k)) is Err,
    ensures
        read_records(rs) == read_records(rs.take(k)),
    decreases rs.len() - k,
{
    if k < rs.len() {
        assert(rs.take(k + 1).drop_last() =~= rs.take(k));
        lemma_read_error_sticks(rs, k + 1);
    } else {
        assert(rs.take(k) =~= rs);
    }
}

proof fn lemma_trim_len(s: Seq<char>)
    ensures
        trim(s).len() <= s.len(),
{
    lemma_trim_start_len(s);
    lemma_trim_end_len(crate::text::trim_start(s));
}

proof fn lemma_trim_start_len(s: Seq<char>)
    ensures
        crate::text::trim_start(s).len() <= s.len(),
    decreases s.len(),
{
    if s.len() > 0 && crate::text::is_ws(s[0]) {
        lemma_trim_start_len(s.drop_first());
    }
}

proof fn lemma_trim_end_len(s: Seq<char>)
    ensures
        crate::text::trim_end(s).len() <= s.len(),
    decreases s.len(),
{
    if s.len() > 0 && crate::text::is_ws(s.last()) {
        lemma_trim_end_len(s.drop_last());
    }
}

proof fn lemma_split_pieces(s: Seq<char>)
    ensures
        split_lines(s).len() <= s.len() + 1,
        forall|q: int| 0 <= q < split_lines(s).len() ==> (#[trigger] split_lines(s)[q]).len() <= s.len(),
    decreases s.len(),
{
    if s.len() > 0 {
        lemma_split_pieces(s.drop_last());
        lemma_split_lines_len(s.drop_last());
    }
}

proof fn lemma_records_of(lines: Seq<Seq<char>>, b: nat)
    requires
        forall|q: int| 0 <= q < lines.len() ==> (#[trigger] lines[q]).len() <= b,
    ensures
        records_of(lines).len() <= lines.len(),
        forall|q: int| 0 <= q < records_of(lines).len() ==> (#[trigger] records_of(lines)[q]).1.len() <= b,
    decreases lines.len(),
{
    if lines.len() > 0 {
        let d = lines.drop_last();
        assert forall|q: int| 0 <= q < d.len() implies (#[trigger] d[q]).len() <= b by {
            assert(d[q] == lines[q]);
        }
        lemma_records_of(d, b);
        lemma_trim_len(lines.last());
    }
}

pub proof fn lemma_records_bound(text: Seq<char>)
    ensures
        records_spec(text).len() <= text.len() + 1,
        forall|q: int|
            0 <= q < records_spec(text).len() ==> (#[trigger] records_spec(text)[q]).1.len()
                <= text.len(),
{
    lemma_split_pieces(text);
    lemma_records_of(split_lines(text), text.len());
}

/// What the text of an event log reads as: the board its events replay to, or the reason the log
/// cannot be read.
pub open spec fn read_board_spec(text: Seq<char>) -> Result<ModelV, Seq<char>> {
    match parse_log_spec(text) {
        Err(e) => Err(e),
        Ok((evs, _, _)) => Ok(replay_spec(evs)),
    }
}

/// Read the text of an event log into the board it replays to.
pub fn read_board(text: &str) -> (r: Result<Model, String>)
    requires
        text@.len() < MAX_TEXT,
    ensures
        match r {
            Ok(m) => read_board_spec(text@) == Ok::<ModelV, Seq<char>>(m@),
            Err(e) => read_board_spec(text@) == Err::<ModelV, Seq<char>>(e@),
        },
{
    match parse_log(text) {
        Ok(evs) => Ok(replay(&evs)),
        Err(e) => Err(e),
    }
}

/// What the text of a board source reads as: an event log when the path names one, a board file
/// otherwise.
pub open spec fn read_source_spec(path: Seq<char>, text: Seq<char>) -> Result<ModelV, Seq<char>> {
    if is_log_ext(path_extension(path)) {
        read_board_spec(text)
    } else {
        read_model_spec(text)
    }
}

/// Read the text of a board source into its board: a log is replayed, a board file is read, the
/// kind told apart by the path's extension.
pub fn read_source(path: &str, text: &str) -> (r: Result<Model, String>)
    requires
        text@.len() < MAX_TEXT,
    ensures
        match r {
            Ok(m) => read_source_spec(path@, text@) == Ok::<ModelV, Seq<char>>(m@),
            Err(e) => read_source_spec(path@, text@) == Err::<ModelV, Seq<char>>(e@),
        },
{
    if is_log_path(path) {
        read_board(text)
    } else {
        read_model(text)
    }
}

} // verus!
