//! Sessions, derived from the events of a log in one pass.
//!
//! A `START` line with a category and an activity is a boundary: it opens a
//! session and closes the one before it. No other line opens or closes
//! anything, so the session that the last boundary opened is always open.

use crate::event_log::{appended, events_of, lemma_read_after_appends, recorded, EventLog};
use crate::models::{QueryData, QueryResult, Session, SessionView, Timeline};
use crate::text::{
    is_blank, lemma_blank_has_no_tokens, lemma_tokens_trim_end, split_whitespace, to_chars, tokens,
    trim_end,
};
use vstd::prelude::*;
use vstd::string::*;

verus! {

/// The verb that opens a session.
pub open spec fn start_verb() -> Seq<char> {
    seq!['S', 'T', 'A', 'R', 'T']
}

/// Whether `line` is a boundary: it has at least three tokens and the first
/// of them is the verb `START`.
pub open spec fn is_boundary(line: Seq<char>) -> bool {
    tokens(line).len() >= 3 && tokens(line)[0] == start_verb()
}

/// The places of the boundaries among `lines`, ascending.
pub open spec fn boundaries(lines: Seq<Seq<char>>) -> Seq<int>
    decreases lines.len(),
{
    if lines.len() == 0 {
        Seq::empty()
    } else if is_boundary(lines.last()) {
        boundaries(lines.drop_last()).push(lines.len() - 1)
    } else {
        boundaries(lines.drop_last())
    }
}

/// The session that the boundary at `at[k]` opens, where `at` holds the places
/// of all boundaries: it takes its category and activity from that line, and
/// it ends just before the next boundary, if there is one.
pub open spec fn session_at(lines: Seq<Seq<char>>, at: Seq<int>, k: int) -> SessionView {
    SessionView {
        category: tokens(lines[at[k]])[1],
        activity: tokens(lines[at[k]])[2],
        start_event_idx: at[k],
        end_event_idx: if k + 1 < at.len() {
            Some(at[k + 1] - 1)
        } else {
            None
        },
        is_active: k + 1 >= at.len(),
    }
}

/// The sessions of a log whose events are `lines`: one for each boundary, in
/// order.
pub open spec fn sessions_of(lines: Seq<Seq<char>>) -> Seq<SessionView> {
    Seq::new(boundaries(lines).len(), |k: int| session_at(lines, boundaries(lines), k))
}

/// The session that is active in a log whose events are `lines`: the last one,
/// if there is any.
pub open spec fn current_of(lines: Seq<Seq<char>>) -> Option<SessionView> {
    if sessions_of(lines).len() > 0 {
        Some(sessions_of(lines).last())
    } else {
        None
    }
}

/// The sessions that are active.
pub open spec fn is_active() -> spec_fn(SessionView) -> bool {
    |session: SessionView| session.is_active
}

/// The number of active sessions among `sessions`.
pub open spec fn active_count(sessions: Seq<SessionView>) -> nat {
    sessions.filter(is_active()).len()
}

/// `boundaries(lines)` holds exactly the places of the boundaries among
/// `lines`, each once, in ascending order.
pub proof fn lemma_boundaries(lines: Seq<Seq<char>>)
    ensures
        boundaries(lines).len() <= lines.len(),
        forall|k: int|
            0 <= k < boundaries(lines).len() ==> 0 <= #[trigger] boundaries(lines)[k] < lines.len()
                && is_boundary(lines[boundaries(lines)[k]]),
        forall|j: int, k: int|
            0 <= j < k < boundaries(lines).len() ==> boundaries(lines)[j] < boundaries(lines)[k],
        forall|i: int|
            0 <= i < lines.len() && is_boundary(#[trigger] lines[i]) ==> boundaries(lines).contains(
                i,
            ),
    decreases lines.len(),
{
    if lines.len() > 0 {
        let head = lines.drop_last();
        let at = boundaries(lines);
        lemma_boundaries(head);
        assert forall|k: int| 0 <= k < at.len() implies 0 <= #[trigger] at[k] < lines.len()
            && is_boundary(lines[at[k]]) by {
            if k < boundaries(head).len() {
                assert(at[k] == boundaries(head)[k]);
                assert(lines[at[k]] == head[at[k]]);
            }
        }
        assert forall|i: int| 0 <= i < lines.len() && is_boundary(
            #[trigger] lines[i],
        ) implies at.contains(i) by {
            if i < head.len() {
                assert(head[i] == lines[i]);
                let k = choose|k: int| 0 <= k < boundaries(head).len() && boundaries(head)[k] == i;
                assert(at[k] == i);
            } else {
                assert(at[at.len() - 1] == i);
            }
        }
    }
}

/// The boundaries among the first `n + 1` lines are those among the first `n`
/// lines, and `n` itself if the line there is a boundary.
pub proof fn lemma_boundaries_step(lines: Seq<Seq<char>>, n: int)
    requires
        0 <= n < lines.len(),
    ensures
        boundaries(lines.take(n + 1)) == if is_boundary(lines[n]) {
            boundaries(lines.take(n)).push(n)
        } else {
            boundaries(lines.take(n))
        },
{
    assert(lines.take(n + 1).drop_last() =~= lines.take(n));
}

/// Where every line is a boundary, there are as many sessions as lines, and
/// the session at `k` starts at line `k`.
pub proof fn lemma_one_session_per_start(lines: Seq<Seq<char>>)
    requires
        forall|i: int| 0 <= i < lines.len() ==> is_boundary(#[trigger] lines[i]),
    ensures
        sessions_of(lines).len() == lines.len(),
        forall|k: int|
            0 <= k < lines.len() ==> (#[trigger] sessions_of(lines)[k]).start_event_idx == k,
    decreases lines.len(),
{
    if lines.len() > 0 {
        let head = lines.drop_last();
        assert forall|i: int| 0 <= i < head.len() implies is_boundary(#[trigger] head[i]) by {
            assert(head[i] == lines[i]);
        }
        lemma_one_session_per_start(head);
        assert forall|k: int| 0 <= k < lines.len() implies (#[trigger] sessions_of(
            lines,
        )[k]).start_event_idx == k by {
            if k < head.len() {
                assert(sessions_of(head)[k].start_event_idx == k);
            }
        }
    }
}

/// There are as many sessions as boundaries. The last session is open: it is
/// active and has no end. Every other session is closed: it is not active and
/// ends just before the next session starts. A session never starts after it
/// ends.
pub proof fn lemma_sessions_shape(lines: Seq<Seq<char>>)
    ensures
        sessions_of(lines).len() == boundaries(lines).len(),
        sessions_of(lines).len() > 0 ==> sessions_of(lines).last().is_active && sessions_of(
            lines,
        ).last().end_event_idx is None,
        forall|k: int|
            0 <= k < sessions_of(lines).len() - 1 ==> {
                let session = #[trigger] sessions_of(lines)[k];
                &&& !session.is_active
                &&& session.end_event_idx == Some(
                    sessions_of(lines)[k + 1].start_event_idx - 1,
                )
                &&& session.start_event_idx <= sessions_of(lines)[k + 1].start_event_idx - 1
            },
        forall|k: int|
            0 <= k < sessions_of(lines).len() ==> 0 <= (#[trigger] sessions_of(
                lines,
            )[k]).start_event_idx < lines.len(),
{
    lemma_boundaries(lines);
}

/// A line that is no boundary changes no session: behind any events it leaves
/// the sessions as they are.
pub proof fn lemma_other_line_is_inert(lines: Seq<Seq<char>>, line: Seq<char>)
    requires
        !is_boundary(line),
    ensures
        sessions_of(lines.push(line)) == sessions_of(lines),
{
    let more = lines.push(line);
    assert(more.drop_last() =~= lines);
    lemma_boundaries(lines);
    assert forall|k: int| 0 <= k < boundaries(lines).len() implies session_at(
        more,
        boundaries(more),
        k,
    ) == session_at(lines, boundaries(lines), k) by {
        assert(more[boundaries(lines)[k]] == lines[boundaries(lines)[k]]);
    }
    assert(sessions_of(more) =~= sessions_of(lines));
}

/// A boundary behind the events `lines` opens one more session, which starts
/// at that line and takes its category and activity from it. The session
/// that was open before ends just before that line; every other session stays
/// as it is.
pub proof fn lemma_boundary_opens_session(lines: Seq<Seq<char>>, line: Seq<char>)
    requires
        is_boundary(line),
    ensures
        sessions_of(lines.push(line)).len() == sessions_of(lines).len() + 1,
        sessions_of(lines.push(line)).last() == (SessionView {
            category: tokens(line)[1],
            activity: tokens(line)[2],
            start_event_idx: lines.len() as int,
            end_event_idx: None,
            is_active: true,
        }),
        forall|k: int|
            0 <= k < sessions_of(lines).len() - 1 ==> #[trigger] sessions_of(lines.push(line))[k]
                == sessions_of(lines)[k],
        sessions_of(lines).len() > 0 ==> sessions_of(lines.push(line))[sessions_of(lines).len()
            - 1] == (SessionView {
            end_event_idx: Some(lines.len() - 1),
            is_active: false,
            ..sessions_of(lines).last()
        }),
{
    let more = lines.push(line);
    assert(more.drop_last() =~= lines);
    lemma_boundaries(lines);
    assert forall|k: int| 0 <= k < boundaries(lines).len() implies more[boundaries(lines)[k]]
        == lines[boundaries(lines)[k]] by {}
}

/// After lines were appended to the empty log, each of them a boundary (and
/// none with a line feed before the white space at its end), the log has one
/// session for each line: the session at `k` starts at event `k` and has the
/// category and the activity of line `k`.
pub proof fn lemma_sessions_after_appends(lines: Seq<Seq<char>>)
    requires
        forall|i: int|
            0 <= i < lines.len() ==> is_boundary(#[trigger] lines[i]) && !trim_end(
                lines[i],
            ).contains('\n'),
    ensures
        sessions_of(events_of(appended(lines))).len() == lines.len(),
        forall|k: int|
            0 <= k < lines.len() ==> {
                let session = #[trigger] sessions_of(events_of(appended(lines)))[k];
                &&& session.start_event_idx == k
                &&& session.category == tokens(lines[k])[1]
                &&& session.activity == tokens(lines[k])[2]
            },
{
    lemma_read_after_appends(lines);
    lemma_recorded_boundaries(lines);
    let events = recorded(lines);
    assert forall|i: int| 0 <= i < events.len() implies is_boundary(#[trigger] events[i]) by {
        lemma_tokens_trim_end(lines[i]);
    }
    lemma_one_session_per_start(events);
    assert forall|k: int| 0 <= k < lines.len() implies {
        let session = #[trigger] sessions_of(events)[k];
        &&& session.start_event_idx == k
        &&& session.category == tokens(lines[k])[1]
        &&& session.activity == tokens(lines[k])[2]
    } by {
        lemma_tokens_trim_end(lines[k]);
        lemma_boundaries(events);
        assert(sessions_of(events)[k].start_event_idx == k);
    }
}

/// Of boundaries none is blank, so each of them comes back as an event.
proof fn lemma_recorded_boundaries(lines: Seq<Seq<char>>)
    requires
        forall|i: int| 0 <= i < lines.len() ==> is_boundary(#[trigger] lines[i]),
    ensures
        recorded(lines).len() == lines.len(),
        forall|i: int| 0 <= i < lines.len() ==> #[trigger] recorded(lines)[i] == trim_end(lines[i]),
    decreases lines.len(),
{
    if lines.len() > 0 {
        let head = lines.drop_last();
        assert forall|i: int| 0 <= i < head.len() implies is_boundary(#[trigger] head[i]) by {
            assert(head[i] == lines[i]);
        }
        lemma_recorded_boundaries(head);
        if is_blank(lines.last()) {
            lemma_blank_has_no_tokens(lines.last());
            assert(is_boundary(lines[lines.len() - 1]));
        }
        assert forall|i: int| 0 <= i < lines.len() implies #[trigger] recorded(lines)[i]
            == trim_end(lines[i]) by {
            if i < head.len() {
                assert(recorded(head)[i] == trim_end(head[i]));
            }
        }
    }
}

/// The sessions are a function of the log: two derivations from the same log
/// give the same sessions.
pub proof fn lemma_sessions_idempotent(first: Vec<Session>, second: Vec<Session>, log: Seq<char>)
    requires
        first.deep_view() == sessions_of(events_of(log)),
        second.deep_view() == sessions_of(events_of(log)),
    ensures
        first.deep_view() == second.deep_view(),
{
}

/// At most one session is active: none in a log without boundaries, else one.
pub proof fn lemma_active_count(lines: Seq<Seq<char>>)
    ensures
        active_count(sessions_of(lines)) == if sessions_of(lines).len() > 0 {
            1nat
        } else {
            0nat
        },
{
    let all = sessions_of(lines);
    if all.len() > 0 {
        lemma_none_active(all.drop_last());
        assert(all.drop_last().push(all.last()) =~= all);
        Seq::lemma_filter_push(all.drop_last(), all.last(), is_active());
    }
}

/// Among sessions none of which is active, the active ones count zero.
proof fn lemma_none_active(sessions: Seq<SessionView>)
    requires
        forall|k: int| 0 <= k < sessions.len() ==> !(#[trigger] sessions[k]).is_active,
    ensures
        sessions.filter(is_active()) == Seq::<SessionView>::empty(),
    decreases sessions.len(),
{
    reveal_with_fuel(Seq::filter, 1);
    if sessions.len() > 0 {
        lemma_none_active(sessions.drop_last());
    }
}

/// Reads sessions off the log it was made for.
pub struct SessionProjector {
    log: EventLog,
}

impl View for SessionProjector {
    type V = Seq<char>;

    /// The text of the log that the projector reads.
    closed spec fn view(&self) -> Seq<char> {
        self.log@
    }
}

impl SessionProjector {
    /// A projector for the log as it is now.
    pub fn new(log: &EventLog) -> (projector: Self)
        ensures
            projector@ == log@,
    {
        SessionProjector { log: log.snapshot() }
    }

    /// All sessions of the log, in the order of their boundaries.
    pub fn get_all_sessions(&self) -> (sessions: Vec<Session>)
        ensures
            sessions.deep_view() == sessions_of(events_of(self@)),
    {
        let events = self.log.read_all();
        project_sessions(&events)
    }

    /// The session that is active, if there is one: the last session.
    pub fn get_current_session(&self) -> (current: Option<Session>)
        ensures
            current.deep_view() == current_of(events_of(self@)),
    {
        let mut sessions = self.get_all_sessions();
        let ghost all = sessions.deep_view();
        let current = sessions.pop();
        proof {
            if all.len() > 0 {
                assert(current.unwrap()@ == all.last());
            }
        }
        current
    }

    /// The timeline of the log, as the result of the query `timeline`: all
    /// sessions, their number, and the number of active ones.
    pub fn get_timeline(&self) -> (result: QueryResult)
        ensures
            result.query@ == "timeline"@,
            result.result_type@ == "sessions"@,
            result.data matches QueryData::Sessions(timeline) && is_timeline_of(
                timeline,
                events_of(self@),
            ),
    {
        let sessions = self.get_all_sessions();
        let timeline = timeline_of(sessions);
        QueryResult {
            query: "timeline".to_string(),
            result_type: "sessions".to_string(),
            data: QueryData::Sessions(timeline),
        }
    }
}

/// Whether `timeline` is the timeline of a log whose events are `lines`: it
/// holds the sessions of the log, counts them, and counts the active ones.
pub open spec fn is_timeline_of(timeline: Timeline, lines: Seq<Seq<char>>) -> bool {
    &&& timeline.sessions.deep_view() == sessions_of(lines)
    &&& timeline.total == sessions_of(lines).len()
    &&& timeline.active == active_count(sessions_of(lines))
}

/// The sessions with their number and the number of active ones.
pub fn timeline_of(sessions: Vec<Session>) -> (timeline: Timeline)
    ensures
        timeline.sessions == sessions,
        timeline.total == sessions.len(),
        timeline.active == active_count(sessions.deep_view()),
{
    let ghost all = sessions.deep_view();
    let total: usize = sessions.len();
    let mut active: usize = 0;
    let mut i: usize = 0;
    proof {
        assert(all.take(0) =~= Seq::<SessionView>::empty());
    }
    while i < total
        invariant
            all == sessions.deep_view(),
            total == sessions.len(),
            i <= total,
            active <= i,
            active == active_count(all.take(i as int)),
        decreases total - i,
    {
        proof {
            assert(all.take(i + 1) =~= all.take(i as int).push(all[i as int]));
            Seq::lemma_filter_push(all.take(i as int), all[i as int], is_active());
        }
        if sessions[i].is_active {
            active += 1;
        }
        i += 1;
    }
    proof {
        assert(all.take(total as int) =~= all);
    }
    Timeline { sessions, total, active }
}

/// The sessions of a log whose events are `events`, found in one pass.
pub fn project_sessions(events: &Vec<String>) -> (sessions: Vec<Session>)
    ensures
        sessions.deep_view() == sessions_of(events.deep_view()),
{
    let ghost lines = events.deep_view();
    let verb = "START".to_string();
    proof {
        reveal_strlit("START");
        assert(verb@ =~= start_verb());
        assert(lines.take(0) =~= Seq::<Seq<char>>::empty());
    }
    let mut sessions: Vec<Session> = Vec::new();
    let mut current: Option<Session> = None;
    let mut idx: usize = 0;
    while idx < events.len()
        invariant
            lines == events.deep_view(),
            verb@ == start_verb(),
            idx <= events.len(),
            ({
                let at = boundaries(lines.take(idx as int));
                &&& match current {
                    Some(session) => at.len() == sessions.len() + 1 && session@ == session_at(
                        lines,
                        at,
                        at.len() - 1,
                    ),
                    None => at.len() == 0 && sessions.len() == 0,
                }
                &&& forall|k: int|
                    0 <= k < sessions.len() ==> (#[trigger] sessions[k])@ == session_at(
                        lines,
                        at,
                        k,
                    )
            }),
        decreases events.len() - idx,
    {
        let ghost at = boundaries(lines.take(idx as int));
        proof {
            lemma_boundaries(lines.take(idx as int));
            lemma_boundaries_step(lines, idx as int);
        }
        let chars = to_chars(events[idx].as_str());
        let parts = split_whitespace(&chars);
        proof {
            assert(lines[idx as int] == events[idx as int]@);
            assert(parts.len() >= 3 ==> parts[0]@ == tokens(lines[idx as int])[0]
                && parts[1]@ == tokens(lines[idx as int])[1]
                && parts[2]@ == tokens(lines[idx as int])[2]) by {
                if parts.len() >= 3 {
                    assert(parts.deep_view()[0] == parts[0]@);
                    assert(parts.deep_view()[1] == parts[1]@);
                    assert(parts.deep_view()[2] == parts[2]@);
                }
            }
        }
        if parts.len() >= 3 && parts[0] == verb {
            let ghost next = at.push(idx as int);
            match current {
                Some(open) => {
                    proof {
                        assert(0 <= at[at.len() - 1] < idx);
                    }
                    let closed = Session {
                        category: open.category,
                        activity: open.activity,
                        start_event_idx: open.start_event_idx,
                        end_event_idx: Some(idx - 1),
                        is_active: false,
                    };
                    proof {
                        assert(closed@ == session_at(lines, next, at.len() - 1));
                    }
                    sessions.push(closed);
                },
                None => {},
            }
            current = Some(
                Session {
                    category: parts[1].clone(),
                    activity: parts[2].clone(),
                    start_event_idx: idx,
                    end_event_idx: None,
                    is_active: true,
                },
            );
            proof {
                assert forall|k: int| 0 <= k < sessions.len() implies (#[trigger] sessions[k])@
                    == session_at(lines, next, k) by {
                    if k < at.len() - 1 {
                        assert(session_at(lines, next, k) == session_at(lines, at, k));
                    }
                }
            }
        }
        idx += 1;
    }
    proof {
        assert(lines.take(idx as int) =~= lines);
    }
    match current {
        Some(open) => {
            sessions.push(open);
        },
        None => {},
    }
    proof {
        assert(sessions.deep_view() =~= sessions_of(lines));
    }
    sessions
}

} // verus!
