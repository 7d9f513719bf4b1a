//! The append-only event log.
//!
//! The log is one text: the records that were appended, each closed by a line
//! feed. Appending is the only operation that changes it, and it only adds at
//! the end. Reading splits the text into lines again and leaves out the blank
//! ones.

use crate::text::{
    is_blank, is_blank_range, is_whitespace, lemma_trim_end, text_of, to_chars, trim_end,
    trimmed_len,
};
use vstd::prelude::*;
use vstd::string::*;

verus! {

/// The number of characters of `s` before its first line feed; all of them if
/// `s` holds none.
pub open spec fn line_len(s: Seq<char>) -> nat
    decreases s.len(),
{
    if s.len() == 0 || s.first() == '\n' {
        0
    } else {
        1 + line_len(s.drop_first())
    }
}

/// `line` without the carriage return at its end, if it has one there.
pub open spec fn strip_cr(line: Seq<char>) -> Seq<char> {
    if line.len() > 0 && line.last() == '\r' {
        line.drop_last()
    } else {
        line
    }
}

/// The lines of the text `s`. A line ends at a line feed, which is not part of
/// it, and neither is a carriage return just before that line feed. What
/// follows the last line feed is a line of its own unless it is empty.
pub open spec fn lines_of(s: Seq<char>) -> Seq<Seq<char>>
    decreases s.len(),
{
    if s.len() == 0 {
        Seq::empty()
    } else if line_len(s) >= s.len() {
        seq![s]
    } else {
        seq![strip_cr(s.take(line_len(s) as int))] + lines_of(s.skip(line_len(s) as int + 1))
    }
}

/// The lines that count as events: those that are not blank.
pub open spec fn is_event() -> spec_fn(Seq<char>) -> bool {
    |line: Seq<char>| !is_blank(line)
}

/// The events that the text `s` holds: its lines, without the blank ones.
pub open spec fn events_of(s: Seq<char>) -> Seq<Seq<char>> {
    lines_of(s).filter(is_event())
}

/// The record that is written for `line`: the line without the white space at
/// its end, and one line feed.
pub open spec fn record_of(line: Seq<char>) -> Seq<char> {
    trim_end(line).push('\n')
}

/// Whether the text `s` ends where a line ends: it is empty or ends in a line
/// feed.
pub open spec fn is_terminated(s: Seq<char>) -> bool {
    s.len() == 0 || s.last() == '\n'
}

/// The text of a log to which the records of `lines` were appended in order,
/// starting from the empty log.
pub open spec fn appended(lines: Seq<Seq<char>>) -> Seq<char>
    decreases lines.len(),
{
    if lines.len() == 0 {
        Seq::empty()
    } else {
        appended(lines.drop_last()) + record_of(lines.last())
    }
}

/// The events that come back after `lines` were appended in order: each line
/// without the white space at its end, the blank ones left out.
pub open spec fn recorded(lines: Seq<Seq<char>>) -> Seq<Seq<char>>
    decreases lines.len(),
{
    if lines.len() == 0 {
        Seq::empty()
    } else if is_blank(lines.last()) {
        recorded(lines.drop_last())
    } else {
        recorded(lines.drop_last()).push(trim_end(lines.last()))
    }
}

/// `line_len(s)` is the place of the first line feed in `s`.
pub proof fn lemma_line_len(s: Seq<char>)
    ensures
        line_len(s) <= s.len(),
        forall|i: int| 0 <= i < line_len(s) ==> #[trigger] s[i] != '\n',
        line_len(s) < s.len() ==> s[line_len(s) as int] == '\n',
    decreases s.len(),
{
    if s.len() == 0 || s.first() == '\n' {
    } else {
        let rest = s.drop_first();
        lemma_line_len(rest);
        assert forall|i: int| 0 <= i < line_len(s) implies #[trigger] s[i] != '\n' by {
            if i > 0 {
                assert(s[i] == rest[i - 1]);
            }
        }
        if line_len(s) < s.len() {
            assert(s[line_len(s) as int] == rest[line_len(rest) as int]);
        }
    }
}

/// The place of the first line feed determines `line_len`.
pub proof fn lemma_line_len_is(s: Seq<char>, n: int)
    requires
        0 <= n <= s.len(),
        forall|i: int| 0 <= i < n ==> #[trigger] s[i] != '\n',
        n < s.len() ==> s[n] == '\n',
    ensures
        line_len(s) == n,
    decreases s.len(),
{
    if n > 0 {
        let rest = s.drop_first();
        assert forall|i: int| 0 <= i < n - 1 implies #[trigger] rest[i] != '\n' by {
            assert(rest[i] == s[i + 1]);
        }
        lemma_line_len_is(rest, n - 1);
    }
}

/// The events of a text are those of its first line, then those of the rest.
pub proof fn lemma_events_unfold(s: Seq<char>)
    requires
        s.len() > 0,
    ensures
        line_len(s) >= s.len() ==> events_of(s) == if is_blank(s) {
            Seq::<Seq<char>>::empty()
        } else {
            seq![s]
        },
        line_len(s) < s.len() ==> events_of(s) == {
            let line = strip_cr(s.take(line_len(s) as int));
            let rest = events_of(s.skip(line_len(s) as int + 1));
            if is_blank(line) {
                rest
            } else {
                seq![line] + rest
            }
        },
{
    reveal_with_fuel(Seq::filter, 2);
    if line_len(s) >= s.len() {
        assert(seq![s].drop_last() =~= Seq::<Seq<char>>::empty());
        assert(events_of(s) =~= if is_blank(s) {
            Seq::<Seq<char>>::empty()
        } else {
            seq![s]
        });
    } else {
        let line = strip_cr(s.take(line_len(s) as int));
        let rest = lines_of(s.skip(line_len(s) as int + 1));
        Seq::filter_distributes_over_add(seq![line], rest, is_event());
        assert(seq![line].drop_last() =~= Seq::<Seq<char>>::empty());
        assert(seq![line].filter(is_event()) =~= if is_blank(line) {
            Seq::<Seq<char>>::empty()
        } else {
            seq![line]
        });
        assert(Seq::<Seq<char>>::empty() + rest.filter(is_event()) =~= rest.filter(is_event()));
    }
}

/// Behind a text that ends where a line ends, the lines of what follows come
/// after the lines already there, which stay as they are.
pub proof fn lemma_lines_concat(a: Seq<char>, b: Seq<char>)
    requires
        is_terminated(a),
    ensures
        lines_of(a + b) == lines_of(a) + lines_of(b),
    decreases a.len(),
{
    if a.len() == 0 {
        assert(a + b =~= b);
        assert(lines_of(a) + lines_of(b) =~= lines_of(b));
    } else {
        let n = line_len(a) as int;
        lemma_line_len(a);
        if n >= a.len() {
            assert(a[a.len() - 1] != '\n');
        }
        let ab = a + b;
        assert forall|i: int| 0 <= i < n implies #[trigger] ab[i] != '\n' by {
            assert(ab[i] == a[i]);
        }
        assert(ab[n] == a[n]);
        lemma_line_len_is(ab, n);
        assert(ab.take(n) =~= a.take(n));
        let rest = a.skip(n + 1);
        assert(ab.skip(n + 1) =~= rest + b);
        if rest.len() > 0 {
            assert(rest.last() == a.last());
        }
        lemma_lines_concat(rest, b);
        assert(lines_of(ab) =~= lines_of(a) + lines_of(b));
    }
}

/// Behind a text that ends where a line ends, the events of what follows come
/// after the events already there, which stay as they are.
pub proof fn lemma_events_concat(a: Seq<char>, b: Seq<char>)
    requires
        is_terminated(a),
    ensures
        events_of(a + b) == events_of(a) + events_of(b),
{
    lemma_lines_concat(a, b);
    Seq::filter_distributes_over_add(lines_of(a), lines_of(b), is_event());
}

/// A line is blank exactly if nothing is left of it once the white space at
/// its end is cut off.
pub proof fn lemma_blank_trims_to_nothing(line: Seq<char>)
    ensures
        is_blank(line) <==> trim_end(line).len() == 0,
        is_blank(trim_end(line)) <==> trim_end(line).len() == 0,
{
    lemma_trim_end(line);
    let t = trim_end(line);
    if t.len() > 0 {
        assert(t.last() == line[t.len() - 1]);
        assert(!is_whitespace(t[t.len() - 1]));
    }
}

/// The record of a line that holds no line feed before the white space at its
/// end is one line: the events of the record are that line, trimmed at its
/// end, or nothing if the line is blank.
pub proof fn lemma_events_of_record(line: Seq<char>)
    requires
        !trim_end(line).contains('\n'),
    ensures
        events_of(record_of(line)) == if is_blank(line) {
            Seq::<Seq<char>>::empty()
        } else {
            seq![trim_end(line)]
        },
{
    let t = trim_end(line);
    let r = record_of(line);
    lemma_trim_end(line);
    lemma_blank_trims_to_nothing(line);
    assert forall|i: int| 0 <= i < t.len() implies #[trigger] r[i] != '\n' by {
        assert(t.contains(t[i]));
    }
    lemma_line_len_is(r, t.len() as int);
    assert(r.take(t.len() as int) =~= t);
    assert(r.skip(t.len() as int + 1) =~= Seq::<char>::empty());
    lemma_events_unfold(r);
    assert(events_of(Seq::<char>::empty()) =~= Seq::<Seq<char>>::empty());
    if t.len() > 0 {
        assert(is_whitespace('\r'));
        assert(strip_cr(t) == t);
        assert(seq![t] + Seq::<Seq<char>>::empty() =~= seq![t]);
    } else {
        assert(is_blank(strip_cr(t)));
    }
}

/// Appending keeps every event that the log held, in its place, and adds the
/// events of the new record behind them.
pub proof fn lemma_append_keeps_events(content: Seq<char>, line: Seq<char>)
    requires
        is_terminated(content),
    ensures
        is_terminated(content + record_of(line)),
        events_of(content + record_of(line)) == events_of(content) + events_of(record_of(line)),
        events_of(content).is_prefix_of(events_of(content + record_of(line))),
{
    lemma_events_concat(content, record_of(line));
}

/// Appending one line that holds no line feed (before the white space at its
/// end) adds exactly that line, trimmed at its end, as the last event; a blank
/// line adds nothing.
pub proof fn lemma_append_adds_event(content: Seq<char>, line: Seq<char>)
    requires
        is_terminated(content),
        !trim_end(line).contains('\n'),
    ensures
        events_of(content + record_of(line)) == if is_blank(line) {
            events_of(content)
        } else {
            events_of(content).push(trim_end(line))
        },
{
    lemma_events_concat(content, record_of(line));
    lemma_events_of_record(line);
    if is_blank(line) {
        assert(events_of(content) + Seq::<Seq<char>>::empty() =~= events_of(content));
    } else {
        assert(events_of(content) + seq![trim_end(line)] =~= events_of(content).push(
            trim_end(line),
        ));
    }
}

/// After any sequence of lines was appended to the empty log, none of them
/// with a line feed before the white space at its end, reading gives back
/// exactly those lines, trimmed at their ends, without the blank ones, in the
/// order in which they were appended.
pub proof fn lemma_read_after_appends(lines: Seq<Seq<char>>)
    requires
        forall|i: int| 0 <= i < lines.len() ==> !trim_end(#[trigger] lines[i]).contains('\n'),
    ensures
        is_terminated(appended(lines)),
        events_of(appended(lines)) == recorded(lines),
    decreases lines.len(),
{
    if lines.len() == 0 {
        assert(events_of(appended(lines)) =~= Seq::<Seq<char>>::empty());
    } else {
        let before = lines.drop_last();
        assert forall|i: int| 0 <= i < before.len() implies !trim_end(
            #[trigger] before[i],
        ).contains('\n') by {
            assert(before[i] == lines[i]);
        }
        lemma_read_after_appends(before);
        lemma_append_adds_event(appended(before), lines.last());
    }
}

/// An append-only log of events, held as the text that was written so far.
pub struct EventLog {
    content: String,
}

impl View for EventLog {
    type V = Seq<char>;

    /// The whole text of the log.
    closed spec fn view(&self) -> Seq<char> {
        self.content@
    }
}

impl EventLog {
    /// The events of the log, in the order in which they were written.
    pub open spec fn events(&self) -> Seq<Seq<char>> {
        events_of(self@)
    }

    /// A log into which nothing was written yet.
    pub fn new() -> (log: Self)
        ensures
            log@ == Seq::<char>::empty(),
            log.events() == Seq::<Seq<char>>::empty(),
    {
        let log = EventLog { content: String::new() };
        assert(events_of(log@) =~= Seq::<Seq<char>>::empty());
        log
    }

    /// The log whose text so far is `content`.
    pub fn from_content(content: String) -> (log: Self)
        ensures
            log@ == content@,
    {
        EventLog { content }
    }

    /// The whole text of the log.
    pub fn content(&self) -> (text: &str)
        ensures
            text@ == self@,
    {
        self.content.as_str()
    }

    /// A second log with the same text.
    pub fn snapshot(&self) -> (log: Self)
        ensures
            log@ == self@,
    {
        EventLog { content: self.content.clone() }
    }

    /// Appends the record of `line` to the log: the line without the white
    /// space at its end, closed by one line feed. What the log held stays as it
    /// was. Returns the record, which is what a durable store has to add too.
    pub fn append(&mut self, line: &str) -> (record: String)
        ensures
            record@ == record_of(line@),
            final(self)@ == old(self)@ + record_of(line@),
    {
        let record = normalize_line(line);
        self.content.append(record.as_str());
        record
    }

    /// All events of the log, in order: its lines, without the blank ones.
    pub fn read_all(&self) -> (lines: Vec<String>)
        ensures
            lines.deep_view() == self.events(),
    {
        let chars = to_chars(self.content.as_str());
        let ghost s = chars@;
        let n: usize = chars.len();
        let mut lines: Vec<String> = Vec::new();
        let mut i: usize = 0;
        proof {
            assert(s.skip(0) =~= s);
            assert(lines.deep_view() + events_of(s.skip(0)) =~= events_of(s));
        }
        while i < n
            invariant
                s == chars@,
                n == chars.len(),
                i <= n,
                lines.deep_view() + events_of(s.skip(i as int)) == events_of(s),
            decreases n - i,
        {
            let ghost tail = s.skip(i as int);
            let mut j: usize = i;
            while j < n && chars[j] != '\n'
                invariant
                    s == chars@,
                    n == chars.len(),
                    i <= j <= n,
                    forall|k: int| i <= k < j ==> #[trigger] s[k] != '\n',
                decreases n - j,
            {
                j += 1;
            }
            proof {
                lemma_line_len_is(tail, j - i);
                lemma_events_unfold(tail);
                assert(tail.take(j - i) =~= s.subrange(i as int, j as int));
            }
            let end: usize = if j < n && j > i && chars[j - 1] == '\r' {
                j - 1
            } else {
                j
            };
            let next: usize = if j < n {
                j + 1
            } else {
                n
            };
            proof {
                let line = s.subrange(i as int, end as int);
                if j < n {
                    assert(strip_cr(s.subrange(i as int, j as int)) =~= line);
                    assert(tail.skip(j - i + 1) =~= s.skip(next as int));
                } else {
                    assert(line =~= tail);
                    assert(events_of(s.skip(next as int)) =~= Seq::<Seq<char>>::empty());
                }
                assert(events_of(tail) =~= if is_blank(line) {
                    events_of(s.skip(next as int))
                } else {
                    seq![line] + events_of(s.skip(next as int))
                });
            }
            if !is_blank_range(&chars, i, end) {
                let text = text_of(&chars, i, end);
                let ghost before = lines.deep_view();
                lines.push(text);
                proof {
                    assert(lines.deep_view() =~= before.push(text@));
                    assert(before.push(text@) + events_of(s.skip(next as int)) =~= before + (
                    seq![text@] + events_of(s.skip(next as int))));
                }
            }
            i = next;
        }
        proof {
            assert(events_of(s.skip(i as int)) =~= Seq::<Seq<char>>::empty());
            assert(lines.deep_view() + Seq::<Seq<char>>::empty() =~= lines.deep_view());
        }
        lines
    }
}

/// The record that is written for `line`: the line without the white space at
/// its end, and one line feed.
pub fn normalize_line(line: &str) -> (record: String)
    ensures
        record@ == record_of(line@),
{
    let chars = to_chars(line);
    let n = trimmed_len(&chars);
    let mut record = text_of(&chars, 0, n);
    proof {
        assert(chars@.subrange(0, n as int) =~= chars@.take(n as int));
    }
    record.push('\n');
    record
}

} // verus!
