//! The log writer: a state machine over the activity log's fixed-size
//! records, kept in step with the file by explicit write offsets.
use vstd::prelude::*;

verus! {

/// The debounced view of what the user is doing.
#[derive(PartialEq, Eq, Structural, Clone, Copy, Debug)]
pub enum Status {
    Active { time: i64, language: usize, project: usize },
    Dormant { time: i64 },
}

/// Notifications from the system's sleep handling.
#[derive(PartialEq, Eq, Structural, Clone, Copy, Debug)]
pub enum SystemMessage {
    Suspend { time: i64 },
    Resume,
}

/// One input of the log writer.
#[derive(PartialEq, Eq, Structural, Clone, Copy, Debug)]
pub enum Message {
    Status(Status),
    System(SystemMessage),
    /// The heartbeat timer fired: the open entry's end is moved to now.
    Heartbeat,
}

/// Size in bytes of one log entry.
pub const ENTRY_SIZE: u64 = 20;

/// Size in bytes of an entry's header: tag byte, project index, start time.
pub const HEADER_SIZE: u64 = 11;

/// Largest language index the tag byte can carry.
pub const MAX_LANGUAGE: usize = 254;

/// Largest project index the two-byte field can carry.
pub const MAX_PROJECT: usize = 65535;

/// Little-endian bytes of a 16-bit value.
pub open spec fn u16_bytes(v: u16) -> Seq<u8> {
    seq![v as u8, (v >> 8u16) as u8]
}

/// Little-endian two's-complement bytes of a timestamp.
pub open spec fn i64_bytes(t: i64) -> Seq<u8> {
    let u = #[verifier::truncate] (t as u64);
    seq![
        u as u8,
        (u >> 8u64) as u8,
        (u >> 16u64) as u8,
        (u >> 24u64) as u8,
        (u >> 32u64) as u8,
        (u >> 40u64) as u8,
        (u >> 48u64) as u8,
        (u >> 56u64) as u8,
    ]
}

/// The 20 bytes of an entry: tag byte (language + 1), project index, start
/// time, a zero end marker, end time.
pub open spec fn entry_bytes(language: usize, project: usize, start: i64, end: i64) -> Seq<u8> {
    seq![(language + 1) as u8] + u16_bytes(project as u16) + i64_bytes(start) + seq![0u8] + i64_bytes(end)
}

/// Why a status cannot be logged.
#[derive(PartialEq, Eq, Structural, Clone, Copy, Debug)]
pub enum LogError {
    /// The language index does not fit the tag byte.
    TooManyLanguages,
    /// The project index does not fit two bytes.
    TooManyProjects,
}

/// What the log writer knows of itself: the file's cursor and length, the
/// pair of the open entry, and whether the system is suspended.
pub struct WriterView {
    pub cursor: u64,
    pub len: u64,
    pub open: Option<(usize, usize)>,
    pub suspended: bool,
}

/// A write of `bytes` at `offset`, the cursor to leave after it, and whether
/// the debouncer must forget its last accepted report.
pub struct EffectView {
    pub write: Option<(u64, Seq<u8>)>,
    pub cursor: u64,
    pub reset: bool,
}

/// The cursor discipline: with an entry open the cursor is at the first byte
/// of its footer (the end marker), otherwise at the end of the file.
pub open spec fn writer_wf(w: WriterView) -> bool {
    match w.open {
        Some((l, p)) => w.cursor >= HEADER_SIZE && w.cursor + 9 == w.len && l <= MAX_LANGUAGE && p <= MAX_PROJECT,
        None => w.cursor == w.len,
    }
}

/// Nothing written, cursor left where it is.
pub open spec fn idle(w: WriterView) -> EffectView {
    EffectView { write: None, cursor: w.cursor, reset: false }
}

/// Overwrites the open entry's end time with `t` and leaves the cursor at the
/// end of the file, nothing open.
pub open spec fn close_entry(w: WriterView, t: i64, suspended: bool) -> (WriterView, EffectView) {
    if w.open is Some {
        (
            WriterView { cursor: w.len, len: w.len, open: None, suspended },
            EffectView { write: Some(((w.cursor + 1) as u64, i64_bytes(t))), cursor: w.len, reset: false },
        )
    } else {
        (WriterView { suspended, ..w }, idle(w))
    }
}

/// The log writer's transition on `msg`, with `now` the time a heartbeat
/// records.
pub open spec fn transition(w: WriterView, msg: Message, now: i64) -> Result<(WriterView, EffectView), LogError> {
    match msg {
        Message::System(SystemMessage::Suspend { time }) => Ok(close_entry(w, time, true)),
        Message::System(SystemMessage::Resume) => Ok((
            WriterView { suspended: false, ..w },
            EffectView { write: None, cursor: w.cursor, reset: true },
        )),
        _ => if w.suspended {
            Ok((w, idle(w)))
        } else {
            match msg {
                Message::Heartbeat => if w.open is Some {
                    Ok((w, EffectView { write: Some(((w.cursor + 1) as u64, i64_bytes(now))), cursor: w.cursor, reset: false }))
                } else {
                    Ok((w, idle(w)))
                },
                Message::Status(Status::Active { time, language, project }) => if w.open == Some((language, project)) {
                    Ok((w, idle(w)))
                } else if language > MAX_LANGUAGE {
                    Err(LogError::TooManyLanguages)
                } else if project > MAX_PROJECT {
                    Err(LogError::TooManyProjects)
                } else {
                    Ok((
                        WriterView {
                            cursor: (w.len + HEADER_SIZE) as u64,
                            len: (w.len + ENTRY_SIZE) as u64,
                            open: Some((language, project)),
                            suspended: false,
                        },
                        EffectView {
                            write: Some((w.len, entry_bytes(language, project, time, time))),
                            cursor: (w.len + HEADER_SIZE) as u64,
                            reset: false,
                        },
                    ))
                },
                Message::Status(Status::Dormant { time }) => Ok(close_entry(w, time, false)),
                _ => Ok((w, idle(w))),
            }
        },
    }
}

/// The file `file` after writing `bytes` at `offset`, for an offset within
/// the file or at its end.
pub open spec fn apply_write(file: Seq<u8>, offset: int, bytes: Seq<u8>) -> Seq<u8> {
    let n = if offset + bytes.len() > file.len() { offset + bytes.len() } else { file.len() as int };
    Seq::new(n as nat, |i: int| if offset <= i < offset + bytes.len() { bytes[i - offset] } else { file[i] })
}

/// A heartbeat while an entry is open rewrites only that entry's end time:
/// the file keeps its length, every other byte stays, the cursor stays at the
/// footer, and firing again leads to the same state.
pub proof fn lemma_heartbeat_rewrites_end_only(w: WriterView, now: i64, later: i64, file: Seq<u8>)
    requires
        writer_wf(w),
        w.open is Some,
        !w.suspended,
        file.len() == w.len,
    ensures
        transition(w, Message::Heartbeat, now) == Ok::<(WriterView, EffectView), LogError>((
            w,
            EffectView { write: Some(((w.cursor + 1) as u64, i64_bytes(now))), cursor: w.cursor, reset: false },
        )),
        apply_write(file, w.cursor + 1, i64_bytes(now)).len() == file.len(),
        forall|i: int| 0 <= i <= w.cursor ==> #[trigger] apply_write(file, w.cursor + 1, i64_bytes(now))[i] == file[i],
        apply_write(file, w.cursor + 1, i64_bytes(now)).subrange(w.cursor + 1, w.len as int) == i64_bytes(now),
        (transition(w, Message::Heartbeat, later) matches Ok((w2, _)) && w2 == w),
{
    let f2 = apply_write(file, w.cursor + 1, i64_bytes(now));
    assert(f2.subrange(w.cursor + 1, w.len as int) =~= i64_bytes(now));
}

/// Every transition keeps the cursor discipline, and leaves the cursor where
/// the new state says it is.
pub proof fn lemma_transition_keeps_cursor_discipline(w: WriterView, msg: Message, now: i64)
    requires
        writer_wf(w),
        w.len <= u64::MAX - ENTRY_SIZE,
    ensures
        transition(w, msg, now) matches Ok((next, e)) ==> writer_wf(next) && e.cursor == next.cursor
            && (next.len == w.len || next.len == w.len + ENTRY_SIZE)
            && (e.write is None ==> next.len == w.len && (next.open is None || next.open == w.open)),
        transition(w, msg, now) is Err ==> msg is Status,
{
}

/// The file after a step's write, if it makes one.
pub open spec fn apply_effect(file: Seq<u8>, e: EffectView) -> Seq<u8> {
    match e.write {
        Some((offset, bytes)) => apply_write(file, offset as int, bytes),
        None => file,
    }
}

/// Runs the writer from `w` over `file` on `steps`, each a message and the
/// time a heartbeat would record: the final state and file, or the first
/// error.
pub open spec fn run_log(w: WriterView, file: Seq<u8>, steps: Seq<(Message, i64)>) -> Result<(WriterView, Seq<u8>), LogError>
    decreases steps.len(),
{
    if steps.len() == 0 {
        Ok((w, file))
    } else {
        match run_log(w, file, steps.drop_last()) {
            Ok((w1, f1)) => match transition(w1, steps.last().0, steps.last().1) {
                Ok((w2, e)) => Ok((w2, apply_effect(f1, e))),
                Err(err) => Err(err),
            },
            Err(err) => Err(err),
        }
    }
}

/// Heartbeat steps, one per recorded time.
pub open spec fn heartbeat_steps(nows: Seq<i64>) -> Seq<(Message, i64)> {
    nows.map_values(|n: i64| (Message::Heartbeat, n))
}

/// An `Active` for a pair other than the open one appends exactly one whole
/// entry at the end of the file, keeping every earlier byte, and opens it.
pub proof fn lemma_active_appends_entry(w: WriterView, file: Seq<u8>, time: i64, language: usize, project: usize, now: i64)
    requires
        writer_wf(w),
        !w.suspended,
        file.len() == w.len,
        w.open != Some((language, project)),
        language <= MAX_LANGUAGE,
        project <= MAX_PROJECT,
        w.len <= u64::MAX - ENTRY_SIZE,
    ensures
        transition(w, Message::Status(Status::Active { time, language, project }), now)
            == Ok::<(WriterView, EffectView), LogError>((
            WriterView {
                cursor: (w.len + HEADER_SIZE) as u64,
                len: (w.len + ENTRY_SIZE) as u64,
                open: Some((language, project)),
                suspended: false,
            },
            EffectView {
                write: Some((w.len, entry_bytes(language, project, time, time))),
                cursor: (w.len + HEADER_SIZE) as u64,
                reset: false,
            },
        )),
        apply_write(file, w.len as int, entry_bytes(language, project, time, time))
            == file + entry_bytes(language, project, time, time),
{
    assert(apply_write(file, w.len as int, entry_bytes(language, project, time, time))
        =~= file + entry_bytes(language, project, time, time));
}

/// An `Active` for the pair already open changes nothing and writes nothing:
/// one pair never gets a second open entry.
pub proof fn lemma_same_pair_active_is_noop(w: WriterView, time: i64, language: usize, project: usize, now: i64)
    requires
        writer_wf(w),
        !w.suspended,
        w.open == Some((language, project)),
    ensures
        transition(w, Message::Status(Status::Active { time, language, project }), now)
            == Ok::<(WriterView, EffectView), LogError>((w, idle(w))),
{
}

/// Records stay whole: from a file of whole 20-byte records, every message
/// either appends one whole record at the end or rewrites the last eight
/// bytes (the open entry's end time), so the file stays a run of whole
/// records of the length the writer keeps.
pub proof fn lemma_records_stay_whole(w: WriterView, file: Seq<u8>, msg: Message, now: i64)
    requires
        writer_wf(w),
        file.len() == w.len,
        w.len % 20 == 0,
        w.len <= u64::MAX - ENTRY_SIZE,
    ensures
        transition(w, msg, now) matches Ok((next, e)) ==> {
            &&& next.len % 20 == 0
            &&& apply_effect(file, e).len() == next.len
            &&& apply_effect(file, e).subrange(0, w.len - 8) == file.subrange(0, w.len - 8) || w.len < 8
            &&& match e.write {
                Some((offset, bytes)) => (offset == w.len && bytes.len() == ENTRY_SIZE)
                    || (w.open is Some && offset + 8 == w.len && bytes.len() == 8),
                None => next.len == w.len,
            }
        },
{
    match transition(w, msg, now) {
        Ok((next, e)) => {
            match e.write {
                Some((offset, bytes)) => {
                    let f2 = apply_write(file, offset as int, bytes);
                    if w.len >= 8 {
                        assert(f2.subrange(0, w.len - 8) =~= file.subrange(0, w.len - 8));
                    }
                },
                None => {},
            }
        },
        Err(_) => {},
    }
}

/// Any number of heartbeats while an entry is open leave the writer as it
/// was and the file as one heartbeat with the last time would: only the open
/// entry's end time changes, and nothing is appended.
pub proof fn lemma_heartbeats_rewrite_end_only(w: WriterView, file: Seq<u8>, nows: Seq<i64>)
    requires
        writer_wf(w),
        w.open is Some,
        !w.suspended,
        file.len() == w.len,
        nows.len() >= 1,
    ensures
        run_log(w, file, heartbeat_steps(nows))
            == Ok::<(WriterView, Seq<u8>), LogError>((w, apply_write(file, w.cursor + 1, i64_bytes(nows.last())))),
    decreases nows.len(),
{
    let steps = heartbeat_steps(nows);
    assert(steps.drop_last() =~= heartbeat_steps(nows.drop_last()));
    assert(steps.last() == (Message::Heartbeat, nows.last()));
    if nows.len() == 1 {
        assert(steps.drop_last().len() == 0);
    } else {
        lemma_heartbeats_rewrite_end_only(w, file, nows.drop_last());
        let f1 = apply_write(file, w.cursor + 1, i64_bytes(nows.drop_last().last()));
        assert(apply_write(f1, w.cursor + 1, i64_bytes(nows.last()))
            =~= apply_write(file, w.cursor + 1, i64_bytes(nows.last())));
    }
}

/// Running on `a` then `b` is running on `a` and then, from where it ended,
/// on `b`.
pub proof fn lemma_run_concat(w: WriterView, file: Seq<u8>, a: Seq<(Message, i64)>, b: Seq<(Message, i64)>)
    ensures
        run_log(w, file, a + b) == match run_log(w, file, a) {
            Ok((w1, f1)) => run_log(w1, f1, b),
            Err(err) => Err(err),
        },
    decreases b.len(),
{
    if b.len() == 0 {
        assert(a + b =~= a);
    } else {
        assert((a + b).drop_last() =~= a + b.drop_last());
        assert((a + b).last() == b.last());
        lemma_run_concat(w, file, a, b.drop_last());
    }
}

/// A session on a writer with nothing open: an `Active`, any number of
/// heartbeats, then a `Dormant` add exactly one whole entry at the end of
/// the file, with the start and end times given, keeping every earlier byte,
/// and leave nothing open.
pub proof fn lemma_session_appends_one_entry(
    w: WriterView,
    file: Seq<u8>,
    language: usize,
    project: usize,
    t1: i64,
    t2: i64,
    n1: i64,
    nows: Seq<i64>,
    n2: i64,
)
    requires
        writer_wf(w),
        w.open is None,
        !w.suspended,
        file.len() == w.len,
        language <= MAX_LANGUAGE,
        project <= MAX_PROJECT,
        w.len <= u64::MAX - ENTRY_SIZE,
    ensures
        run_log(
            w,
            file,
            seq![(Message::Status(Status::Active { time: t1, language, project }), n1)] + heartbeat_steps(nows)
                + seq![(Message::Status(Status::Dormant { time: t2 }), n2)],
        ) == Ok::<(WriterView, Seq<u8>), LogError>((
            WriterView { cursor: (w.len + ENTRY_SIZE) as u64, len: (w.len + ENTRY_SIZE) as u64, open: None, suspended: false },
            file + entry_bytes(language, project, t1, t2),
        )),
{
    let first = seq![(Message::Status(Status::Active { time: t1, language, project }), n1)];
    let last = seq![(Message::Status(Status::Dormant { time: t2 }), n2)];
    let w1 = WriterView {
        cursor: (w.len + HEADER_SIZE) as u64,
        len: (w.len + ENTRY_SIZE) as u64,
        open: Some((language, project)),
        suspended: false,
    };
    lemma_active_appends_entry(w, file, t1, language, project, n1);
    let f1 = file + entry_bytes(language, project, t1, t1);
    assert(first.drop_last().len() == 0);
    assert(run_log(w, file, first.drop_last()) == Ok::<(WriterView, Seq<u8>), LogError>((w, file)));
    assert(first.last() == (Message::Status(Status::Active { time: t1, language, project }), n1));
    assert(run_log(w, file, first) == Ok::<(WriterView, Seq<u8>), LogError>((w1, f1)));
    lemma_run_concat(w, file, first, heartbeat_steps(nows));
    let mid_end = if nows.len() == 0 { t1 } else { nows.last() };
    if nows.len() == 0 {
        assert(heartbeat_steps(nows).len() == 0);
    } else {
        lemma_heartbeats_rewrite_end_only(w1, f1, nows);
        lemma_rewrite_end(file, language, project, t1, t1, nows.last());
    }
    let f2 = file + entry_bytes(language, project, t1, mid_end);
    assert(run_log(w, file, first + heartbeat_steps(nows)) == Ok::<(WriterView, Seq<u8>), LogError>((w1, f2)));
    lemma_run_concat(w, file, first + heartbeat_steps(nows), last);
    assert(last.drop_last().len() == 0);
    assert(run_log(w1, f2, last.drop_last()) == Ok::<(WriterView, Seq<u8>), LogError>((w1, f2)));
    assert(last.last() == (Message::Status(Status::Dormant { time: t2 }), n2));
    lemma_rewrite_end(file, language, project, t1, mid_end, t2);
    assert(file.len() + 12 == w1.cursor + 1);
    assert(run_log(w1, f2, last) == Ok::<(WriterView, Seq<u8>), LogError>((
        WriterView { cursor: (w.len + ENTRY_SIZE) as u64, len: (w.len + ENTRY_SIZE) as u64, open: None, suspended: false },
        file + entry_bytes(language, project, t1, t2),
    )));
}

/// One persisted interval: language, project, start time, end time.
pub type Interval = (usize, usize, i64, i64);

/// The bytes of `es`, one entry each, in order.
pub open spec fn entries_bytes(es: Seq<Interval>) -> Seq<u8>
    decreases es.len(),
{
    if es.len() == 0 {
        Seq::empty()
    } else {
        entries_bytes(es.drop_last()) + entry_bytes(es.last().0, es.last().1, es.last().2, es.last().3)
    }
}

/// Each interval starts no later than it ends, and ends no later than the
/// next one starts: no two intervals overlap.
pub open spec fn non_overlapping(es: Seq<Interval>) -> bool {
    &&& forall|i: int| 0 <= i < es.len() ==> (#[trigger] es[i]).2 <= es[i].3
    &&& forall|i: int| 0 <= i < es.len() - 1 ==> (#[trigger] es[i]).3 <= es[i + 1].2
}

/// The time a step carries: that of its status or suspend, else the time a
/// heartbeat would record.
pub open spec fn step_time(step: (Message, i64)) -> i64 {
    match step.0 {
        Message::Status(Status::Active { time, .. }) => time,
        Message::Status(Status::Dormant { time }) => time,
        Message::System(SystemMessage::Suspend { time }) => time,
        _ => step.1,
    }
}

/// The time of the last step, or the least time when there is none.
spec fn last_time(steps: Seq<(Message, i64)>) -> i64 {
    if steps.len() == 0 {
        i64::MIN
    } else {
        step_time(steps.last())
    }
}

/// The steps' times never decrease.
pub open spec fn times_ordered(steps: Seq<(Message, i64)>) -> bool {
    forall|i: int, j: int| 0 <= i <= j < steps.len() ==> step_time(#[trigger] steps[i]) <= step_time(#[trigger] steps[j])
}

/// What holds after each step of a run from `base` with nothing open: the
/// file is `base` followed by whole entries for `es`, which do not overlap,
/// the open entry (if any) is the last one, and no interval ends after `t`.
spec fn log_inv(w: WriterView, file: Seq<u8>, base: Seq<u8>, es: Seq<Interval>, t: i64) -> bool {
    &&& writer_wf(w)
    &&& file == base + entries_bytes(es)
    &&& w.len == file.len()
    &&& non_overlapping(es)
    &&& es.len() > 0 ==> es.last().3 <= t
    &&& (w.open matches Some((l, p)) ==> es.len() > 0 && es.last().0 == l && es.last().1 == p)
}

/// Rewriting an entry's end time gives the entry with the new end.
proof fn lemma_rewrite_end(x: Seq<u8>, l: usize, p: usize, s: i64, e: i64, t: i64)
    ensures
        apply_write(x + entry_bytes(l, p, s, e), x.len() + 12 as int, i64_bytes(t)) == x + entry_bytes(l, p, s, t),
{
    assert(apply_write(x + entry_bytes(l, p, s, e), x.len() + 12 as int, i64_bytes(t)) =~= x + entry_bytes(l, p, s, t));
}

/// One step keeps `log_inv`, with the intervals it names.
proof fn lemma_step_keeps_inv(w: WriterView, file: Seq<u8>, base: Seq<u8>, es: Seq<Interval>, t: i64, step: (Message, i64))
    requires
        log_inv(w, file, base, es, t),
        t <= step_time(step),
        w.len <= u64::MAX - ENTRY_SIZE,
    ensures
        transition(w, step.0, step.1) matches Ok((w2, e)) ==> exists|es2: Seq<Interval>|
            log_inv(w2, apply_effect(file, e), base, es2, step_time(step)),
{
    let t2 = step_time(step);
    lemma_transition_keeps_cursor_discipline(w, step.0, step.1);
    match transition(w, step.0, step.1) {
        Ok((w2, e)) => {
            if e.write is None {
                assert(log_inv(w2, apply_effect(file, e), base, es, t2));
            } else if let Message::Status(Status::Active { time, language, project }) = step.0 {
                assert(w.open != Some((language, project)) && !w.suspended);
                assert(time == t2);
                assert(e.write == Some((w.len, entry_bytes(language, project, time, time))));
                assert(w2.open == Some((language, project)));
                let es2 = es.push((language, project, t2, t2));
                assert(es2.drop_last() =~= es);
                assert(apply_write(file, w.len as int, entry_bytes(language, project, time, time))
                    =~= file + entry_bytes(language, project, time, time));
                assert(entries_bytes(es2) == entries_bytes(es) + entry_bytes(language, project, t2, t2));
                assert(file + entry_bytes(language, project, t2, t2) =~= base + entries_bytes(es2));
                assert(non_overlapping(es2)) by {
                    assert forall|i: int| 0 <= i < es2.len() - 1 implies (#[trigger] es2[i]).3 <= es2[i + 1].2 by {
                        assert(es2[i] == es[i]);
                        if i < es.len() - 1 {
                            assert(es2[i + 1] == es[i + 1]);
                        } else {
                            assert(es[i] == es.last());
                        }
                    }
                    assert forall|i: int| 0 <= i < es2.len() implies (#[trigger] es2[i]).2 <= es2[i].3 by {
                        if i < es.len() {
                            assert(es2[i] == es[i]);
                            assert(es[i].2 <= es[i].3);
                        }
                    }
                }
                assert(log_inv(w2, apply_effect(file, e), base, es2, t2));
            } else {
                let (offset, bytes) = e.write->Some_0;
                assert(w.open is Some && offset == w.cursor + 1 && bytes == i64_bytes(t2));
                assert(w2.open is None || w2.open == w.open);
                assert(w2.len == w.len);
                let last = es.last();
                let es2 = es.update(es.len() - 1, (last.0, last.1, last.2, t2));
                assert(es2.drop_last() =~= es.drop_last());
                let x = base + entries_bytes(es.drop_last());
                assert(file =~= x + entry_bytes(last.0, last.1, last.2, last.3));
                lemma_rewrite_end(x, last.0, last.1, last.2, last.3, t2);
                assert(x + entry_bytes(last.0, last.1, last.2, t2) =~= base + entries_bytes(es2));
                assert(non_overlapping(es2)) by {
                    assert forall|i: int| 0 <= i < es2.len() - 1 implies (#[trigger] es2[i]).3 <= es2[i + 1].2 by {
                        assert(es[i] == es2[i]);
                        assert(es[i + 1].2 == es2[i + 1].2);
                    }
                    assert forall|i: int| 0 <= i < es2.len() implies (#[trigger] es2[i]).2 <= es2[i].3 by {
                        assert(es[i].2 <= es[i].3);
                    }
                }
                assert(log_inv(w2, apply_effect(file, e), base, es2, t2));
            }
        },
        Err(_) => {},
    }
}

/// Run over steps whose times never decrease, from a writer with nothing
/// open: when the run succeeds, `log_inv` holds of its end with the intervals
/// returned, and the file grew by at most one entry per step.
proof fn lemma_run_keeps_inv(w: WriterView, file: Seq<u8>, steps: Seq<(Message, i64)>) -> (es: Seq<Interval>)
    requires
        writer_wf(w),
        w.open is None,
        file.len() == w.len,
        w.len + ENTRY_SIZE * steps.len() <= u64::MAX,
        times_ordered(steps),
    ensures
        run_log(w, file, steps) is Ok ==> log_inv(
            run_log(w, file, steps)->Ok_0.0,
            run_log(w, file, steps)->Ok_0.1,
            file,
            es,
            last_time(steps),
        ) && run_log(w, file, steps)->Ok_0.0.len <= w.len + ENTRY_SIZE * steps.len(),
    decreases steps.len(),
{
    if steps.len() == 0 {
        assert(file + entries_bytes(Seq::<Interval>::empty()) =~= file);
        assert(log_inv(w, file, file, Seq::<Interval>::empty(), last_time(steps)));
        Seq::empty()
    } else {
        let prefix = steps.drop_last();
        assert(times_ordered(prefix)) by {
            assert forall|i: int, j: int| 0 <= i <= j < prefix.len() implies
                step_time(#[trigger] prefix[i]) <= step_time(#[trigger] prefix[j]) by {
                assert(prefix[i] == steps[i] && prefix[j] == steps[j]);
            }
        }
        let es = lemma_run_keeps_inv(w, file, prefix);
        match run_log(w, file, prefix) {
            Ok((w1, f1)) => {
                let t1 = last_time(prefix);
                if prefix.len() > 0 {
                    assert(prefix.last() == steps[steps.len() - 2]);
                    assert(step_time(steps[steps.len() - 2]) <= step_time(steps[steps.len() - 1]));
                }
                lemma_step_keeps_inv(w1, f1, file, es, t1, steps.last());
                lemma_transition_keeps_cursor_discipline(w1, steps.last().0, steps.last().1);
                assert(ENTRY_SIZE * steps.len() == ENTRY_SIZE * prefix.len() + ENTRY_SIZE);
                match transition(w1, steps.last().0, steps.last().1) {
                    Ok((w2, e)) => {
                        let es2 = choose|es2: Seq<Interval>| log_inv(w2, apply_effect(f1, e), file, es2, step_time(steps.last()));
                        assert(run_log(w, file, steps) == Ok::<(WriterView, Seq<u8>), LogError>((w2, apply_effect(f1, e))));
                        assert(last_time(steps) == step_time(steps.last()));
                        es2
                    },
                    Err(_) => es,
                }
            },
            Err(_) => es,
        }
    }
}

/// Persisted intervals never overlap: running the writer from a file with
/// nothing open, on steps whose times never decrease, leaves the starting
/// file followed by whole entries whose intervals each start no later than
/// they end and end no later than the next one starts.
pub proof fn lemma_intervals_never_overlap(w: WriterView, file: Seq<u8>, steps: Seq<(Message, i64)>)
    requires
        writer_wf(w),
        w.open is None,
        file.len() == w.len,
        w.len + ENTRY_SIZE * steps.len() <= u64::MAX,
        times_ordered(steps),
    ensures
        run_log(w, file, steps) matches Ok((w2, f2)) ==> exists|es: Seq<Interval>|
            f2 == file + entries_bytes(es) && non_overlapping(es),
{
    let es = lemma_run_keeps_inv(w, file, steps);
}

/// A `Dormant` while an entry is open rewrites only that entry's end time and
/// leaves nothing open, so a second `Dormant` writes nothing: each entry is
/// closed at most once.
pub proof fn lemma_dormant_closes_once(w: WriterView, t1: i64, t2: i64, now: i64)
    requires
        writer_wf(w),
        w.open is Some,
        !w.suspended,
    ensures
        transition(w, Message::Status(Status::Dormant { time: t1 }), now) == Ok::<(WriterView, EffectView), LogError>((
            WriterView { cursor: w.len, len: w.len, open: None, suspended: false },
            EffectView { write: Some(((w.cursor + 1) as u64, i64_bytes(t1))), cursor: w.len, reset: false },
        )),
        w.cursor + 1 + i64_bytes(t1).len() == w.len,
        transition(
            WriterView { cursor: w.len, len: w.len, open: None, suspended: false },
            Message::Status(Status::Dormant { time: t2 }),
            now,
        ) == Ok::<(WriterView, EffectView), LogError>((
            WriterView { cursor: w.len, len: w.len, open: None, suspended: false },
            EffectView { write: None, cursor: w.len, reset: false },
        )),
{
}

/// A suspend and a resume with no entry open write nothing: the bytes of the
/// entries already closed stay as they are.
pub proof fn lemma_idle_suspend_resume_writes_nothing(w: WriterView, time: i64, now: i64)
    requires
        writer_wf(w),
        w.open is None,
    ensures
        transition(w, Message::System(SystemMessage::Suspend { time }), now) == Ok::<(WriterView, EffectView), LogError>((
            WriterView { suspended: true, ..w },
            idle(w),
        )),
        transition(WriterView { suspended: true, ..w }, Message::System(SystemMessage::Resume), now)
            == Ok::<(WriterView, EffectView), LogError>((
            WriterView { suspended: false, ..w },
            EffectView { write: None, cursor: w.cursor, reset: true },
        )),
{
}

/// A write to perform on the log file.
pub struct FileWrite {
    pub offset: u64,
    pub bytes: Vec<u8>,
}

/// What the caller does after a transition: perform `write` if any, leave the
/// file's cursor at `cursor`, and send a reset to the debouncer if
/// `reset_debouncer`.
pub struct Effect {
    pub write: Option<FileWrite>,
    pub cursor: u64,
    pub reset_debouncer: bool,
}

impl View for Effect {
    type V = EffectView;

    open spec fn view(&self) -> EffectView {
        EffectView {
            write: match self.write {
                Some(w) => Some((w.offset, w.bytes@)),
                None => None,
            },
            cursor: self.cursor,
            reset: self.reset_debouncer,
        }
    }
}

/// A step's result as the transition states it, with `after` the writer's
/// new state.
pub open spec fn outcome(r: Result<Effect, LogError>, after: WriterView) -> Result<(WriterView, EffectView), LogError> {
    match r {
        Ok(e) => Ok((after, e@)),
        Err(err) => Err(err),
    }
}

/// The log writer's state.
pub struct LogWriter {
    cursor: u64,
    len: u64,
    open: Option<(usize, usize)>,
    suspended: bool,
}

impl View for LogWriter {
    type V = WriterView;

    closed spec fn view(&self) -> WriterView {
        WriterView { cursor: self.cursor, len: self.len, open: self.open, suspended: self.suspended }
    }
}

/// Little-endian bytes of `t`, appended to `out`.
fn push_i64(out: &mut Vec<u8>, t: i64)
    ensures
        final(out)@ == old(out)@ + i64_bytes(t),
{
    let u = t as u64;
    out.push(u as u8);
    out.push((u >> 8u64) as u8);
    out.push((u >> 16u64) as u8);
    out.push((u >> 24u64) as u8);
    out.push((u >> 32u64) as u8);
    out.push((u >> 40u64) as u8);
    out.push((u >> 48u64) as u8);
    out.push((u >> 56u64) as u8);
    assert(final(out)@ =~= old(out)@ + i64_bytes(t));
}

/// The eight bytes of a timestamp, as the log and the heartbeat file store it.
pub fn timestamp_bytes(t: i64) -> (r: Vec<u8>)
    ensures
        r@ == i64_bytes(t),
{
    let mut out: Vec<u8> = Vec::new();
    push_i64(&mut out, t);
    assert(out@ =~= i64_bytes(t));
    out
}

/// The 20 bytes of a new entry for `language` and `project`, opened and
/// closed at `time`.
pub fn encode_entry(language: usize, project: usize, time: i64) -> (r: Vec<u8>)
    requires
        language <= MAX_LANGUAGE,
        project <= MAX_PROJECT,
    ensures
        r@ == entry_bytes(language, project, time, time),
        r@.len() == ENTRY_SIZE,
        r@[0] != 0,
{
    let mut out: Vec<u8> = Vec::new();
    out.push((language + 1) as u8);
    let p = project as u16;
    out.push(p as u8);
    out.push((p >> 8u16) as u8);
    push_i64(&mut out, time);
    out.push(0u8);
    push_i64(&mut out, time);
    assert(out@ =~= entry_bytes(language, project, time, time));
    out
}

impl LogWriter {
    pub open spec fn wf(&self) -> bool {
        writer_wf(self@)
    }

    /// A writer over a log file of `len` bytes, cursor at its end, nothing
    /// open, not suspended.
    pub fn new(len: u64) -> (r: Self)
        ensures
            r.wf(),
            r@ == (WriterView { cursor: len, len, open: None, suspended: false }),
    {
        LogWriter { cursor: len, len, open: None, suspended: false }
    }

    /// Whether an entry is open, so that the heartbeat timer runs.
    pub fn heartbeat_armed(&self) -> (r: bool)
        ensures
            r == self@.open is Some,
    {
        self.open.is_some()
    }

    /// Length of the log file as the writer keeps it.
    pub fn file_len(&self) -> (r: u64)
        ensures
            r == self@.len,
    {
        self.len
    }

    /// Rewrites the open entry's end time and leaves nothing open.
    fn close(&mut self, t: i64, suspended: bool) -> (r: Effect)
        requires
            old(self).wf(),
        ensures
            final(self).wf(),
            (final(self)@, r@) == close_entry(old(self)@, t, suspended),
    {
        self.suspended = suspended;
        if self.open.is_some() {
            let offset = self.cursor + 1;
            self.cursor = self.len;
            self.open = None;
            Effect {
                write: Some(FileWrite { offset, bytes: timestamp_bytes(t) }),
                cursor: self.len,
                reset_debouncer: false,
            }
        } else {
            Effect { write: None, cursor: self.cursor, reset_debouncer: false }
        }
    }

    /// Takes one message, with `now` the time a heartbeat records.
    pub fn handle_at(&mut self, msg: Message, now: i64) -> (r: Result<Effect, LogError>)
        requires
            old(self).wf(),
            old(self)@.len <= u64::MAX - ENTRY_SIZE,
        ensures
            final(self).wf(),
            transition(old(self)@, msg, now) == outcome(r, final(self)@),
            r is Err ==> final(self)@ == old(self)@,
    {
        let nothing = Effect { write: None, cursor: self.cursor, reset_debouncer: false };
        match msg {
            Message::System(SystemMessage::Suspend { time }) => Ok(self.close(time, true)),
            Message::System(SystemMessage::Resume) => {
                self.suspended = false;
                Ok(Effect { write: None, cursor: self.cursor, reset_debouncer: true })
            },
            _ => {
                if self.suspended {
                    return Ok(nothing);
                }
                match msg {
                    Message::Heartbeat => {
                        if self.open.is_some() {
                            Ok(Effect {
                                write: Some(FileWrite { offset: self.cursor + 1, bytes: timestamp_bytes(now) }),
                                cursor: self.cursor,
                                reset_debouncer: false,
                            })
                        } else {
                            Ok(nothing)
                        }
                    },
                    Message::Status(Status::Active { time, language, project }) => {
                        let same = match self.open {
                            Some((l, p)) => l == language && p == project,
                            None => false,
                        };
                        if same {
                            Ok(nothing)
                        } else if language > MAX_LANGUAGE {
                            Err(LogError::TooManyLanguages)
                        } else if project > MAX_PROJECT {
                            Err(LogError::TooManyProjects)
                        } else {
                            let offset = self.len;
                            self.cursor = offset + HEADER_SIZE;
                            self.len = offset + ENTRY_SIZE;
                            self.open = Some((language, project));
                            Ok(Effect {
                                write: Some(FileWrite { offset, bytes: encode_entry(language, project, time) }),
                                cursor: self.cursor,
                                reset_debouncer: false,
                            })
                        }
                    },
                    Message::Status(Status::Dormant { time }) => Ok(self.close(time, false)),
                    _ => Ok(nothing),
                }
            },
        }
    }
}

} // verus!
