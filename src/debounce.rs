//! The debouncer: consolidation of raw start/stop reports from every
//! connection into one status stream, and the quiescence filter that forwards
//! a status only once no newer one has arrived within the debounce window.
use crate::log::Status;
use vstd::prelude::*;

verus! {

/// A raw report from a connection, or the reset sent after a resume.
#[derive(PartialEq, Eq, Structural, Clone, Copy, Debug)]
pub enum LogMessage {
    Start { id: u128, time: i64, language: usize, project: usize },
    End { id: u128, time: i64 },
    ResetStatus,
}

/// Whether `last` is a start of the pair `(language, project)`.
pub open spec fn starts_pair(last: Option<LogMessage>, language: usize, project: usize) -> bool {
    match last {
        Some(LogMessage::Start { language: l, project: p, .. }) => l == language && p == project,
        _ => false,
    }
}

/// Whether `last` is a start reported by connection `id`.
pub open spec fn starts_session(last: Option<LogMessage>, id: u128) -> bool {
    match last {
        Some(LogMessage::Start { id: i, .. }) => i == id,
        _ => false,
    }
}

/// The consolidation rule: from the last accepted report and a new report,
/// the next last accepted report and the status to emit, if any.
pub open spec fn consolidate(last: Option<LogMessage>, msg: LogMessage) -> (Option<LogMessage>, Option<Status>) {
    match msg {
        LogMessage::Start { id, time, language, project } => (
            Some(msg),
            if starts_pair(last, language, project) {
                None
            } else {
                Some(Status::Active { time, language, project })
            },
        ),
        LogMessage::End { id, time } => if starts_session(last, id) {
            (Some(msg), Some(Status::Dormant { time }))
        } else {
            (last, None)
        },
        LogMessage::ResetStatus => (None, None),
    }
}

/// Feeds `msgs` in order from `last`: the final last accepted report and the
/// statuses emitted.
pub open spec fn consolidate_all(last: Option<LogMessage>, msgs: Seq<LogMessage>) -> (Option<LogMessage>, Seq<Status>)
    decreases msgs.len(),
{
    if msgs.len() == 0 {
        (last, Seq::empty())
    } else {
        let (mid, out) = consolidate_all(last, msgs.drop_last());
        let (next, emitted) = consolidate(mid, msgs.last());
        (next, match emitted {
            Some(s) => out.push(s),
            None => out,
        })
    }
}

/// The consolidation stage's state: one last accepted report, shared by all
/// connections.
pub struct Consolidator {
    last: Option<LogMessage>,
}

impl Consolidator {
    pub closed spec fn last(&self) -> Option<LogMessage> {
        self.last
    }

    /// A consolidator that has accepted nothing yet.
    pub fn new() -> (r: Self)
        ensures
            r.last() is None,
    {
        Consolidator { last: None }
    }

    /// Takes one report. A start emits `Active` unless the last accepted
    /// report is a start of the same pair; an end emits `Dormant` only when it
    /// closes the last accepted start of the same connection, and is otherwise
    /// dropped; a reset forgets the last accepted report.
    pub fn handle(&mut self, msg: LogMessage) -> (r: Option<Status>)
        ensures
            (final(self).last(), r) == consolidate(old(self).last(), msg),
    {
        match msg {
            LogMessage::Start { id, time, language, project } => {
                let same = match self.last {
                    Some(LogMessage::Start { language: l, project: p, .. }) => l == language && p == project,
                    _ => false,
                };
                self.last = Some(msg);
                if same {
                    None
                } else {
                    Some(Status::Active { time, language, project })
                }
            },
            LogMessage::End { id, time } => {
                let matches_open = match self.last {
                    Some(LogMessage::Start { id: i, .. }) => i == id,
                    _ => false,
                };
                if matches_open {
                    self.last = Some(msg);
                    Some(Status::Dormant { time })
                } else {
                    None
                }
            },
            LogMessage::ResetStatus => {
                self.last = None;
                None
            },
        }
    }
}

/// An end that does not close the last accepted start of its own connection
/// changes nothing and emits nothing.
pub proof fn lemma_stale_end_ignored(last: Option<LogMessage>, id: u128, time: i64)
    requires
        !starts_session(last, id),
    ensures
        consolidate(last, LogMessage::End { id, time }) == (last, Option::<Status>::None),
{
}

/// From a fresh start, in the statuses emitted for any sequence of reports,
/// every `Dormant` comes right after an `Active`: each started interval is
/// closed at most once.
pub proof fn lemma_dormant_follows_active(msgs: Seq<LogMessage>)
    ensures
        forall|k: int| 0 <= k < consolidate_all(None, msgs).1.len()
            && (#[trigger] consolidate_all(None, msgs).1[k]) is Dormant
            ==> k > 0 && consolidate_all(None, msgs).1[k - 1] is Active,
    decreases msgs.len(),
{
    lemma_started_after_active(msgs);
    if msgs.len() > 0 {
        lemma_dormant_follows_active(msgs.drop_last());
    }
}

/// While the last accepted report is a start, the last status emitted is an
/// `Active`.
proof fn lemma_started_after_active(msgs: Seq<LogMessage>)
    ensures
        consolidate_all(None, msgs).0 is Some && consolidate_all(None, msgs).0->Some_0 is Start
            ==> consolidate_all(None, msgs).1.len() > 0 && consolidate_all(None, msgs).1.last() is Active,
        forall|k: int| 0 <= k < consolidate_all(None, msgs).1.len()
            && (#[trigger] consolidate_all(None, msgs).1[k]) is Dormant
            ==> k > 0 && consolidate_all(None, msgs).1[k - 1] is Active,
    decreases msgs.len(),
{
    if msgs.len() > 0 {
        lemma_started_after_active(msgs.drop_last());
        let (mid, out) = consolidate_all(None, msgs.drop_last());
        let (next, emitted) = consolidate(mid, msgs.last());
        let all = consolidate_all(None, msgs).1;
        match emitted {
            Some(s) => {
                assert(all == out.push(s));
                assert forall|k: int| 0 <= k < all.len() && (#[trigger] all[k]) is Dormant
                    implies k > 0 && all[k - 1] is Active by {
                    if k < out.len() {
                        assert(all[k] == out[k]);
                        assert(all[k - 1] == out[k - 1]);
                    }
                }
            },
            None => {},
        }
    }
}

/// Input to the quiescence filter: a new status, or the debounce window
/// elapsing with no newer status.
#[derive(PartialEq, Eq, Structural, Clone, Copy, Debug)]
pub enum QuietEvent {
    Arrive(Status),
    Elapse,
}

/// One step of the quiescence filter from the held status: the next held
/// status and what is forwarded.
pub open spec fn quiet_step(held: Option<Status>, ev: QuietEvent) -> (Option<Status>, Option<Status>) {
    match ev {
        QuietEvent::Arrive(s) => (Some(s), None),
        QuietEvent::Elapse => (None, held),
    }
}

/// Feeds `evs` in order from `held`: the final held status and what was
/// forwarded.
pub open spec fn quiet_all(held: Option<Status>, evs: Seq<QuietEvent>) -> (Option<Status>, Seq<Status>)
    decreases evs.len(),
{
    if evs.len() == 0 {
        (held, Seq::empty())
    } else {
        let (mid, out) = quiet_all(held, evs.drop_last());
        let (next, fwd) = quiet_step(mid, evs.last());
        (next, match fwd {
            Some(s) => out.push(s),
            None => out,
        })
    }
}

/// The quiescence filter's state: the latest status not yet forwarded.
pub struct Quiescence {
    held: Option<Status>,
}

impl Quiescence {
    pub closed spec fn held(&self) -> Option<Status> {
        self.held
    }

    /// A filter holding nothing.
    pub fn new() -> (r: Self)
        ensures
            r.held() is None,
    {
        Quiescence { held: None }
    }

    /// Whether a status is held, so that the debounce timer runs.
    pub fn waiting(&self) -> (r: bool)
        ensures
            r == self.held() is Some,
    {
        self.held.is_some()
    }

    /// An arriving status replaces the held one (and restarts the window);
    /// when the window elapses the held status is forwarded.
    pub fn step(&mut self, ev: QuietEvent) -> (r: Option<Status>)
        ensures
            (final(self).held(), r) == quiet_step(old(self).held(), ev),
    {
        match ev {
            QuietEvent::Arrive(s) => {
                self.held = Some(s);
                None
            },
            QuietEvent::Elapse => self.held.take(),
        }
    }
}

/// The statuses that arrive in `evs`, in order.
pub open spec fn arrivals(evs: Seq<QuietEvent>) -> Seq<Status>
    decreases evs.len(),
{
    if evs.len() == 0 {
        Seq::empty()
    } else {
        match evs.last() {
            QuietEvent::Arrive(s) => arrivals(evs.drop_last()).push(s),
            QuietEvent::Elapse => arrivals(evs.drop_last()),
        }
    }
}

/// Whether `a` is `b` with some elements left out, the rest in order.
pub open spec fn is_subsequence(a: Seq<Status>, b: Seq<Status>) -> bool
    decreases b.len(),
{
    if a.len() == 0 {
        true
    } else if b.len() == 0 {
        false
    } else {
        (a.last() == b.last() && is_subsequence(a.drop_last(), b.drop_last())) || is_subsequence(a, b.drop_last())
    }
}

/// From a filter holding nothing, what is forwarded is the arriving statuses
/// with some left out and the rest in arrival order; what is held is the
/// latest arrival.
proof fn lemma_forwarded_in_order(evs: Seq<QuietEvent>)
    ensures
        quiet_all(None, evs).0 matches Some(h) ==> arrivals(evs).len() > 0 && h == arrivals(evs).last()
            && is_subsequence(quiet_all(None, evs).1, arrivals(evs).drop_last()),
        quiet_all(None, evs).0 is None ==> is_subsequence(quiet_all(None, evs).1, arrivals(evs)),
    decreases evs.len(),
{
    if evs.len() > 0 {
        lemma_forwarded_in_order(evs.drop_last());
        let prev = arrivals(evs.drop_last());
        let (held, out) = quiet_all(None, evs.drop_last());
        match evs.last() {
            QuietEvent::Arrive(s) => {
                assert(arrivals(evs) == prev.push(s));
                assert(prev.push(s).drop_last() == prev);
                if held is Some && out.len() > 0 {
                    assert(is_subsequence(out, prev));
                }
            },
            QuietEvent::Elapse => {
                assert(arrivals(evs) == prev);
                if held is Some {
                    let h = held->Some_0;
                    assert(out.push(h).drop_last() == out);
                    assert(is_subsequence(out.push(h), prev));
                }
            },
        }
    }
}

/// What the quiescence filter forwards, from holding nothing, is always the
/// arriving statuses with some left out and the rest in arrival order.
pub proof fn lemma_forwarded_subsequence(evs: Seq<QuietEvent>)
    ensures
        is_subsequence(quiet_all(None, evs).1, arrivals(evs)),
{
    lemma_forwarded_in_order(evs);
    if quiet_all(None, evs).0 is Some {
        let a = arrivals(evs);
        let out = quiet_all(None, evs).1;
        if out.len() > 0 {
            assert(is_subsequence(out, a));
        }
    }
}

/// Statuses arriving back to back, with no window elapsing between them,
/// collapse into the last one: when the window finally elapses only that one
/// is forwarded.
pub proof fn lemma_burst_collapses(held: Option<Status>, burst: Seq<Status>)
    requires
        burst.len() > 0,
    ensures
        quiet_all(held, burst.map_values(|s: Status| QuietEvent::Arrive(s)).push(QuietEvent::Elapse)).1
            == seq![burst.last()],
{
    lemma_arrivals_hold_last(held, burst);
    let evs = burst.map_values(|s: Status| QuietEvent::Arrive(s));
    assert(evs.push(QuietEvent::Elapse).drop_last() == evs);
}

/// Arrivals alone forward nothing and leave the last one held.
proof fn lemma_arrivals_hold_last(held: Option<Status>, burst: Seq<Status>)
    requires
        burst.len() > 0,
    ensures
        quiet_all(held, burst.map_values(|s: Status| QuietEvent::Arrive(s))).1 == Seq::<Status>::empty(),
        quiet_all(held, burst.map_values(|s: Status| QuietEvent::Arrive(s))).0 == Some(burst.last()),
    decreases burst.len(),
{
    let evs = burst.map_values(|s: Status| QuietEvent::Arrive(s));
    assert(evs.drop_last() =~= burst.drop_last().map_values(|s: Status| QuietEvent::Arrive(s)));
    assert(evs.last() == QuietEvent::Arrive(burst.last()));
    if burst.len() > 1 {
        lemma_arrivals_hold_last(held, burst.drop_last());
    } else {
        assert(evs.drop_last().len() == 0);
    }
    let (mid, out) = quiet_all(held, evs.drop_last());
    assert(out == Seq::<Status>::empty());
    assert(quiet_step(mid, evs.last()) == (Some(burst.last()), Option::<Status>::None));
}

/// Two statuses with the window elapsing after each are both forwarded, in
/// order.
pub proof fn lemma_separated_both_forwarded(a: Status, b: Status)
    ensures
        quiet_all(None, seq![QuietEvent::Arrive(a), QuietEvent::Elapse, QuietEvent::Arrive(b), QuietEvent::Elapse]).1
            == seq![a, b],
{
    let evs = seq![QuietEvent::Arrive(a), QuietEvent::Elapse, QuietEvent::Arrive(b), QuietEvent::Elapse];
    assert(evs.drop_last() == seq![QuietEvent::Arrive(a), QuietEvent::Elapse, QuietEvent::Arrive(b)]);
    assert(evs.drop_last().drop_last() == seq![QuietEvent::Arrive(a), QuietEvent::Elapse]);
    assert(evs.drop_last().drop_last().drop_last() == seq![QuietEvent::Arrive(a)]);
    assert(evs.drop_last().drop_last().drop_last().drop_last() == Seq::<QuietEvent>::empty());
    let e1 = evs.drop_last().drop_last().drop_last();
    let e2 = evs.drop_last().drop_last();
    let e3 = evs.drop_last();
    assert(e1.drop_last() == Seq::<QuietEvent>::empty());
    assert(quiet_all(None, e1.drop_last()) == (Option::<Status>::None, Seq::<Status>::empty()));
    assert(quiet_all(None, e1) == (Some(a), Seq::<Status>::empty()));
    assert(quiet_all(None, e2) == (Option::<Status>::None, seq![a]));
    assert(quiet_all(None, e3) == (Some(b), seq![a]));
    assert(seq![a].push(b) == seq![a, b]);
}

} // verus!
