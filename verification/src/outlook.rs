//! Meeting invitees from Outlook for Mac: parsing the calendar dump that the
//! AppleScript query prints, and choosing the event that best matches the
//! detected meeting's title.
//!
//! The dump has one event per line; a line is the subject, a unit separator
//! (U+001F) and the attendee block; attendees are separated by group
//! separators (U+001D) and an attendee's name, e-mail address and role by
//! record separators (U+001E).

use vstd::prelude::*;
use crate::text::{
    chars_eq, chars_of, contains_chars, contains_vec, copy_range, lemma_split_nonempty,
    lowercase, split_by, split_ranges, string_of, substring, to_lowercase, trim, trim_range,
    vec_views, words, words_of, Delim, is_white_space, trim_end, trim_start, delim_matches,
};

verus! {

/// Separates an event's subject from its attendee block.
pub const UNIT_SEP: char = '\u{1f}';

/// Separates the fields of one attendee.
pub const REC_SEP: char = '\u{1e}';

/// Separates attendees.
pub const GRP_SEP: char = '\u{1d}';

/// An invitee extracted from an Outlook calendar event.
#[derive(Debug, Clone)]
pub struct OutlookInvitee {
    /// Display name.
    pub name: String,
    /// E-mail address.
    pub email: String,
    /// Raw role string from AppleScript, e.g. "required attendee", "optional attendee".
    pub role: String,
}

/// An invitee as (name, e-mail address, role).
pub type InviteeView = (Seq<char>, Seq<char>, Seq<char>);

/// An event as (subject, invitees).
pub type EventView = (Seq<char>, Seq<InviteeView>);

/// The characters of an invitee's fields.
pub open spec fn invitee_view(i: OutlookInvitee) -> InviteeView {
    (i.name@, i.email@, i.role@)
}

/// The characters of a list of invitees.
pub open spec fn invitee_views(v: Seq<OutlookInvitee>) -> Seq<InviteeView> {
    v.map_values(|i: OutlookInvitee| invitee_view(i))
}

/// The characters of a list of events.
pub open spec fn event_views(v: Seq<(String, Vec<OutlookInvitee>)>) -> Seq<EventView> {
    v.map_values(|e: (String, Vec<OutlookInvitee>)| (e.0@, invitee_views(e.1@)))
}

/// `s` cut at its first `c` (`str::split_once`): the part before, and the
/// part after when there is a `c`.
pub open spec fn split_once(s: Seq<char>, c: char) -> (Seq<char>, Option<Seq<char>>)
    decreases s.len(),
{
    if s.len() == 0 {
        (Seq::empty(), None)
    } else if s[0] == c {
        (Seq::empty(), Some(s.drop_first()))
    } else {
        let (head, rest) = split_once(s.drop_first(), c);
        (seq![s[0]] + head, rest)
    }
}

/// The invitee that one attendee entry describes: its fields trimmed, the
/// role "required attendee" when absent; none when both name and address
/// are empty.
pub open spec fn invitee_of(entry: Seq<char>) -> Option<InviteeView> {
    let fields = split_by(entry, Delim::Char(REC_SEP));
    let name = trim(fields[0]);
    let email = if fields.len() > 1 {
        trim(fields[1])
    } else {
        Seq::empty()
    };
    let role = if fields.len() > 2 {
        trim(fields[2])
    } else {
        "required attendee"@
    };
    if name.len() == 0 && email.len() == 0 {
        None
    } else {
        Some((name, email, role))
    }
}

/// The invitees of a list of attendee entries, in order.
pub open spec fn invitees_of(entries: Seq<Seq<char>>) -> Seq<InviteeView>
    decreases entries.len(),
{
    if entries.len() == 0 {
        seq![]
    } else {
        let r = invitees_of(entries.drop_last());
        match invitee_of(entries.last()) {
            Some(i) => r.push(i),
            None => r,
        }
    }
}

/// The invitees of an attendee block.
pub open spec fn block_invitees(block: Seq<char>) -> Seq<InviteeView> {
    if block.len() == 0 {
        seq![]
    } else {
        invitees_of(split_by(block, Delim::Char(GRP_SEP)))
    }
}

/// The event that a trimmed, non-blank line describes.
pub open spec fn event_of(line: Seq<char>) -> EventView {
    let (head, rest) = split_once(line, UNIT_SEP);
    let block = match rest {
        Some(b) => b,
        None => Seq::empty(),
    };
    (trim(head), block_invitees(block))
}

/// The events of the dump's lines; blank lines are skipped.
pub open spec fn events_of(lines: Seq<Seq<char>>) -> Seq<EventView>
    decreases lines.len(),
{
    if lines.len() == 0 {
        seq![]
    } else {
        let r = events_of(lines.drop_last());
        let t = trim(lines.last());
        if t.len() == 0 {
            r
        } else {
            r.push(event_of(t))
        }
    }
}

/// The events of a calendar dump.
pub open spec fn parse_events(output: Seq<char>) -> Seq<EventView> {
    events_of(split_by(output, Delim::Char('\n')))
}

/// Where `v[lo..hi]` is cut at its first `c`: the end of the part before
/// it, and whether there is a `c` there.
fn split_once_at(v: &Vec<char>, lo: usize, hi: usize, c: char) -> (r: (usize, bool))
    requires
        lo <= hi <= v.len(),
    ensures
        lo <= r.0 <= hi,
        r.1 ==> r.0 < hi,
        split_once(v@.subrange(lo as int, hi as int), c) == (
            v@.subrange(lo as int, r.0 as int),
            if r.1 {
                Some(v@.subrange(r.0 + 1, hi as int))
            } else {
                None
            },
        ),
{
    let ghost s = v@.subrange(lo as int, hi as int);
    let mut i = lo;
    assert(s =~= v@.subrange(lo as int, lo as int) + v@.subrange(lo as int, hi as int));
    while i < hi && v[i] != c
        invariant
            lo <= i <= hi <= v.len(),
            s == v@.subrange(lo as int, hi as int),
            split_once(s, c) == (
                v@.subrange(lo as int, i as int) + split_once(v@.subrange(i as int, hi as int), c).0,
                split_once(v@.subrange(i as int, hi as int), c).1,
            ),
        decreases hi - i,
    {
        let ghost t = v@.subrange(i as int, hi as int);
        assert(t.drop_first() =~= v@.subrange(i + 1, hi as int));
        assert(v@.subrange(lo as int, i + 1) =~= v@.subrange(lo as int, i as int) + seq![t[0]]);
        assert(v@.subrange(lo as int, i as int) + (seq![t[0]] + split_once(t.drop_first(), c).0)
            =~= v@.subrange(lo as int, i + 1) + split_once(t.drop_first(), c).0);
        i = i + 1;
    }
    if i < hi {
        let ghost t = v@.subrange(i as int, hi as int);
        assert(t.drop_first() =~= v@.subrange(i + 1, hi as int));
        assert(v@.subrange(lo as int, i as int) + Seq::<char>::empty() =~= v@.subrange(
            lo as int,
            i as int,
        ));
        (i, true)
    } else {
        assert(v@.subrange(lo as int, i as int) + Seq::<char>::empty() =~= v@.subrange(
            lo as int,
            i as int,
        ));
        (i, false)
    }
}

/// The invitee that the attendee entry `v[lo..hi]` describes.
fn parse_invitee(out: &str, v: &Vec<char>, lo: usize, hi: usize) -> (r: Option<OutlookInvitee>)
    requires
        v@ == out@,
        lo <= hi <= v.len(),
    ensures
        match r {
            Some(i) => invitee_of(v@.subrange(lo as int, hi as int)) == Some(invitee_view(i)),
            None => invitee_of(v@.subrange(lo as int, hi as int)) is None,
        },
{
    let ghost fields = split_by(v@.subrange(lo as int, hi as int), Delim::Char(REC_SEP));
    let ranges = split_ranges(v, lo, hi, Delim::Char(REC_SEP));
    proof {
        lemma_split_nonempty(v@.subrange(lo as int, hi as int), Delim::Char(REC_SEP));
    }
    let (n0, n1) = trim_range(v, ranges[0].0, ranges[0].1);
    let name = substring(out, n0, n1);
    let mut email_len: usize = 0;
    let email = if ranges.len() > 1 {
        let (e0, e1) = trim_range(v, ranges[1].0, ranges[1].1);
        email_len = e1 - e0;
        substring(out, e0, e1)
    } else {
        String::new()
    };
    let role = if ranges.len() > 2 {
        let (r0, r1) = trim_range(v, ranges[2].0, ranges[2].1);
        substring(out, r0, r1)
    } else {
        string_of("required attendee")
    };
    assert(email@.len() == email_len);
    if n1 == n0 && email_len == 0 {
        None
    } else {
        Some(OutlookInvitee { name, email, role })
    }
}

/// The invitees of the attendee block `v[lo..hi]`.
fn parse_block(out: &str, v: &Vec<char>, lo: usize, hi: usize) -> (r: Vec<OutlookInvitee>)
    requires
        v@ == out@,
        lo <= hi <= v.len(),
    ensures
        invitee_views(r@) == block_invitees(v@.subrange(lo as int, hi as int)),
{
    let mut r: Vec<OutlookInvitee> = Vec::new();
    if lo == hi {
        assert(invitee_views(r@) =~= Seq::<InviteeView>::empty());
        return r;
    }
    let ghost all = split_by(v@.subrange(lo as int, hi as int), Delim::Char(GRP_SEP));
    let entries = split_ranges(v, lo, hi, Delim::Char(GRP_SEP));
    let mut k: usize = 0;
    assert(invitee_views(r@) =~= invitees_of(all.take(0)));
    while k < entries.len()
        invariant
            v@ == out@,
            lo <= hi <= v.len(),
            all == split_by(v@.subrange(lo as int, hi as int), Delim::Char(GRP_SEP)),
            entries.len() == all.len(),
            forall|m: int|
                0 <= m < entries.len() ==> {
                    &&& lo <= (#[trigger] entries[m]).0 <= entries[m].1 <= hi
                    &&& v@.subrange(entries[m].0 as int, entries[m].1 as int) == all[m]
                },
            k <= entries.len(),
            invitee_views(r@) == invitees_of(all.take(k as int)),
        decreases entries.len() - k,
    {
        assert(all.take(k + 1).drop_last() =~= all.take(k as int));
        assert(all.take(k + 1).last() == all[k as int]);
        match parse_invitee(out, v, entries[k].0, entries[k].1) {
            Some(inv) => {
                let ghost before = r@;
                r.push(inv);
                assert(invitee_views(r@) =~= invitee_views(before).push(invitee_view(inv)));
            },
            None => {},
        }
        k = k + 1;
    }
    assert(all.take(entries.len() as int) =~= all);
    r
}

/// Parses the AppleScript output into a list of (subject, invitees) pairs.
pub fn parse_outlook_output(output: &str) -> (r: Vec<(String, Vec<OutlookInvitee>)>)
    ensures
        event_views(r@) == parse_events(output@),
{
    let v = chars_of(output);
    let lines = split_ranges(&v, 0, v.len(), Delim::Char('\n'));
    let ghost all = split_by(output@, Delim::Char('\n'));
    assert(v@.subrange(0, v.len() as int) =~= output@);
    let mut events: Vec<(String, Vec<OutlookInvitee>)> = Vec::new();
    let mut k: usize = 0;
    assert(event_views(events@) =~= events_of(all.take(0)));
    while k < lines.len()
        invariant
            v@ == output@,
            all == split_by(output@, Delim::Char('\n')),
            lines.len() == all.len(),
            forall|m: int|
                0 <= m < lines.len() ==> {
                    &&& 0 <= (#[trigger] lines[m]).0 <= lines[m].1 <= v.len()
                    &&& v@.subrange(lines[m].0 as int, lines[m].1 as int) == all[m]
                },
            k <= lines.len(),
            event_views(events@) == events_of(all.take(k as int)),
        decreases lines.len() - k,
    {
        assert(all.take(k + 1).drop_last() =~= all.take(k as int));
        assert(all.take(k + 1).last() == all[k as int]);
        let (a, b) = trim_range(&v, lines[k].0, lines[k].1);
        if a < b {
            let ghost line = v@.subrange(a as int, b as int);
            let (cut, found) = split_once_at(&v, a, b, UNIT_SEP);
            let (s0, s1) = trim_range(&v, a, cut);
            let subject = substring(output, s0, s1);
            let invitees = if found {
                parse_block(output, &v, cut + 1, b)
            } else {
                let none: Vec<OutlookInvitee> = Vec::new();
                assert(invitee_views(none@) =~= block_invitees(Seq::<char>::empty()));
                none
            };
            assert(event_of(line) == (subject@, invitee_views(invitees@)));
            let ghost before = events@;
            events.push((subject, invitees));
            assert(event_views(events@) =~= event_views(before).push(event_of(line)));
        }
        k = k + 1;
    }
    assert(all.take(lines.len() as int) =~= all);
    events
}

/// The subjects of a list of events.
pub open spec fn subjects_of(events: Seq<(String, Vec<OutlookInvitee>)>) -> Seq<Seq<char>> {
    events.map_values(|e: (String, Vec<OutlookInvitee>)| e.0@)
}

/// Holds of subjects equal to the title key once lowercased and trimmed.
pub open spec fn same_title(key: Seq<char>) -> spec_fn(Seq<char>) -> bool {
    |s: Seq<char>| trim(lowercase(s)) == key
}

/// Holds of subjects that, lowercased, contain the title key, or whose
/// lowercased and trimmed form the key contains (window titles may be cut
/// short).
pub open spec fn overlapping_title(key: Seq<char>) -> spec_fn(Seq<char>) -> bool {
    |s: Seq<char>| contains_chars(lowercase(s), key) || contains_chars(key, trim(lowercase(s)))
}

/// The first subject that `p` holds of.
pub open spec fn first_where(subjects: Seq<Seq<char>>, p: spec_fn(Seq<char>) -> bool) -> Option<int>
    decreases subjects.len(),
{
    if subjects.len() == 0 {
        None
    } else {
        match first_where(subjects.drop_last(), p) {
            Some(i) => Some(i),
            None => if p(subjects.last()) {
                Some(subjects.len() - 1)
            } else {
                None
            },
        }
    }
}

/// How many distinct words the title key and the lowercased subject share.
pub open spec fn word_overlap(key: Seq<char>, subject: Seq<char>) -> nat {
    words(key).to_set().intersect(words(lowercase(subject)).to_set()).len()
}

/// The last subject with the greatest word overlap (`Iterator::max_by_key`
/// keeps the last of equal maxima).
pub open spec fn last_best(subjects: Seq<Seq<char>>, key: Seq<char>) -> int
    decreases subjects.len(),
{
    if subjects.len() <= 1 {
        0
    } else {
        let b = last_best(subjects.drop_last(), key);
        if word_overlap(key, subjects.last()) >= word_overlap(key, subjects[b]) {
            subjects.len() - 1
        } else {
            b
        }
    }
}

/// The event that best matches the detected meeting title: none when there
/// are no events; the only one when there is one; otherwise, with the
/// title lowercased and trimmed as key, the first exact match, else the
/// first event whose subject and the key contain one another, else the
/// last event sharing the most title words if it shares any, else the first.
pub open spec fn best_event_index(subjects: Seq<Seq<char>>, title: Option<Seq<char>>) -> Option<int> {
    if subjects.len() == 0 {
        None
    } else if subjects.len() == 1 {
        Some(0)
    } else {
        match title {
            None => Some(0),
            Some(t) => if t.len() == 0 {
                Some(0)
            } else {
                let key = trim(lowercase(t));
                match first_where(subjects, same_title(key)) {
                    Some(i) => Some(i),
                    None => match first_where(subjects, overlapping_title(key)) {
                        Some(i) => Some(i),
                        None => if words(key).len() > 0 && word_overlap(
                            key,
                            subjects[last_best(subjects, key)],
                        ) > 0 {
                            Some(last_best(subjects, key))
                        } else {
                            Some(0)
                        },
                    },
                }
            },
        }
    }
}

/// A first match is an index of the list.
proof fn lemma_first_where_in_range(subjects: Seq<Seq<char>>, p: spec_fn(Seq<char>) -> bool)
    ensures
        first_where(subjects, p) matches Some(i) ==> 0 <= i < subjects.len(),
    decreases subjects.len(),
{
    if subjects.len() > 0 {
        lemma_first_where_in_range(subjects.drop_last(), p);
    }
}

/// The best word match is an index of a non-empty list.
proof fn lemma_last_best_in_range(subjects: Seq<Seq<char>>, key: Seq<char>)
    requires
        subjects.len() > 0,
    ensures
        0 <= last_best(subjects, key) < subjects.len(),
    decreases subjects.len(),
{
    if subjects.len() > 1 {
        lemma_last_best_in_range(subjects.drop_last(), key);
    }
}

/// There is a best event exactly when there are events, and it is one of them.
pub proof fn law_best_event_is_an_event(subjects: Seq<Seq<char>>, title: Option<Seq<char>>)
    ensures
        best_event_index(subjects, title) is Some <==> subjects.len() > 0,
        best_event_index(subjects, title) matches Some(i) ==> 0 <= i < subjects.len(),
{
    if subjects.len() > 1 {
        if let Some(t) = title {
            let key = trim(lowercase(t));
            lemma_first_where_in_range(subjects, same_title(key));
            lemma_first_where_in_range(subjects, overlapping_title(key));
            lemma_last_best_in_range(subjects, key);
        }
    }
}

/// `first_where` finds the first index that `p` holds of.
proof fn lemma_first_where_is_first(subjects: Seq<Seq<char>>, p: spec_fn(Seq<char>) -> bool, i: int)
    requires
        0 <= i < subjects.len(),
        p(subjects[i]),
        forall|k: int| 0 <= k < i ==> !p(#[trigger] subjects[k]),
    ensures
        first_where(subjects, p) == Some(i),
    decreases subjects.len(),
{
    if i < subjects.len() - 1 {
        let init = subjects.drop_last();
        assert forall|k: int| 0 <= k < i implies !p(#[trigger] init[k]) by {
            assert(init[k] == subjects[k]);
        }
        lemma_first_where_is_first(init, p, i);
    } else {
        let init = subjects.drop_last();
        if first_where(init, p) is Some {
            lemma_first_where_in_range(init, p);
            let j = first_where(init, p).unwrap();
            lemma_first_where_holds(init, p);
            assert(init[j] == subjects[j]);
        }
    }
}

/// What `first_where` finds, `p` holds of.
proof fn lemma_first_where_holds(subjects: Seq<Seq<char>>, p: spec_fn(Seq<char>) -> bool)
    ensures
        first_where(subjects, p) matches Some(i) ==> p(subjects[i]),
    decreases subjects.len(),
{
    if subjects.len() > 0 {
        let init = subjects.drop_last();
        lemma_first_where_holds(init, p);
        lemma_first_where_in_range(init, p);
        if let Some(i) = first_where(init, p) {
            assert(init[i] == subjects[i]);
        }
    }
}

/// With two or more events and a title, the first event whose subject
/// equals the title, ignoring case and surrounding white space, is chosen.
pub proof fn law_exact_title_wins(subjects: Seq<Seq<char>>, title: Seq<char>, i: int)
    requires
        subjects.len() >= 2,
        title.len() > 0,
        0 <= i < subjects.len(),
        trim(lowercase(subjects[i])) == trim(lowercase(title)),
        forall|k: int|
            0 <= k < i ==> trim(lowercase(#[trigger] subjects[k])) != trim(lowercase(title)),
    ensures
        best_event_index(subjects, Some(title)) == Some(i),
{
    let key = trim(lowercase(title));
    assert forall|k: int| 0 <= k < i implies !same_title(key)(#[trigger] subjects[k]) by {}
    lemma_first_where_is_first(subjects, same_title(key), i);
}

/// A single event is chosen whatever the title; without a title the first
/// event is chosen.
pub proof fn law_single_or_untitled(subjects: Seq<Seq<char>>, title: Option<Seq<char>>)
    requires
        subjects.len() > 0,
    ensures
        subjects.len() == 1 ==> best_event_index(subjects, title) == Some(0int),
        title is None ==> best_event_index(subjects, title) == Some(0int),
{
}

/// Every parsed invitee has a name or an e-mail address.
pub proof fn law_invitees_named(output: Seq<char>)
    ensures
        forall|e: int, k: int|
            0 <= e < parse_events(output).len() && 0 <= k < parse_events(output)[e].1.len() ==> {
                let inv = #[trigger] parse_events(output)[e].1[k];
                inv.0.len() > 0 || inv.1.len() > 0
            },
{
    lemma_events_named(split_by(output, Delim::Char('\n')));
}

/// Whether every invitee has a name or an e-mail address.
pub open spec fn all_named(invitees: Seq<InviteeView>) -> bool {
    forall|k: int| 0 <= k < invitees.len() ==> (#[trigger] invitees[k]).0.len() > 0 || invitees[k].1.len() > 0
}

proof fn lemma_invitees_named(entries: Seq<Seq<char>>)
    ensures
        all_named(invitees_of(entries)),
    decreases entries.len(),
{
    if entries.len() > 0 {
        lemma_invitees_named(entries.drop_last());
        let r = invitees_of(entries.drop_last());
        if let Some(i) = invitee_of(entries.last()) {
            assert forall|k: int| 0 <= k < r.push(i).len() implies (#[trigger] r.push(i)[k]).0.len() > 0 || r.push(i)[k].1.len() > 0 by {
                if k < r.len() {
                    assert(r.push(i)[k] == r[k]);
                }
            }
        }
    }
}

proof fn lemma_events_named(lines: Seq<Seq<char>>)
    ensures
        forall|e: int| 0 <= e < events_of(lines).len() ==> all_named(#[trigger] events_of(lines)[e].1),
    decreases lines.len(),
{
    if lines.len() > 0 {
        lemma_events_named(lines.drop_last());
        let r = events_of(lines.drop_last());
        let t = trim(lines.last());
        if t.len() > 0 {
            let (head, rest) = split_once(t, UNIT_SEP);
            let block = match rest {
                Some(b) => b,
                None => Seq::empty(),
            };
            if block.len() > 0 {
                lemma_invitees_named(split_by(block, Delim::Char(GRP_SEP)));
            }
            assert forall|e: int| 0 <= e < r.push(event_of(t)).len() implies all_named(#[trigger] r.push(event_of(t))[e].1) by {
                if e < r.len() {
                    assert(r.push(event_of(t))[e] == r[e]);
                }
            }
        }
    }
}

/// Once a prefix has a first match, the whole list has the same.
proof fn lemma_first_where_extends(subjects: Seq<Seq<char>>, p: spec_fn(Seq<char>) -> bool, k: int)
    requires
        0 <= k <= subjects.len(),
        first_where(subjects.take(k), p) is Some,
    ensures
        first_where(subjects, p) == first_where(subjects.take(k), p),
    decreases subjects.len() - k,
{
    if k < subjects.len() {
        assert(subjects.take(k + 1).drop_last() =~= subjects.take(k));
        lemma_first_where_extends(subjects, p, k + 1);
    } else {
        assert(subjects.take(k) =~= subjects);
    }
}

/// One more word adds one to the shared count exactly when it is new and
/// shared.
proof fn lemma_overlap_step(ws: Seq<Seq<char>>, i: int, b: Set<Seq<char>>)
    requires
        0 <= i < ws.len(),
        b.finite(),
    ensures
        ws.take(i + 1).to_set().intersect(b).len() == ws.take(i).to_set().intersect(b).len() + (
        if !ws.take(i).contains(ws[i]) && b.contains(ws[i]) {
            1int
        } else {
            0int
        }),
{
    broadcast use vstd::set::group_set_axioms;
    broadcast use vstd::seq_lib::seq_to_set_is_finite;

    let w = ws[i];
    let s = ws.take(i).to_set();
    assert(ws.take(i + 1) =~= ws.take(i) + seq![w]);
    Seq::lemma_to_set_insert_commutes(ws.take(i), w);
    assert(ws.take(i + 1).to_set() == s.insert(w));
    if s.contains(w) {
        assert(s.insert(w) =~= s);
    } else if b.contains(w) {
        assert(s.insert(w).intersect(b) =~= s.intersect(b).insert(w));
    } else {
        assert(s.insert(w).intersect(b) =~= s.intersect(b));
    }
}

/// Whether `w` equals one of `list[lo..hi]`.
fn has_word(list: &Vec<Vec<char>>, hi: usize, w: &Vec<char>) -> (r: bool)
    requires
        hi <= list.len(),
    ensures
        r == vec_views(list@).take(hi as int).contains(w@),
{
    let ghost ws = vec_views(list@);
    let mut j: usize = 0;
    while j < hi
        invariant
            hi <= list.len(),
            ws == vec_views(list@),
            j <= hi,
            forall|m: int| 0 <= m < j ==> ws[m] != w@,
        decreases hi - j,
    {
        if chars_eq(&list[j], w) {
            assert(ws.take(hi as int)[j as int] == w@);
            return true;
        }
        j = j + 1;
    }
    assert forall|m: int| 0 <= m < hi implies ws.take(hi as int)[m] != w@ by {
        assert(ws.take(hi as int)[m] == ws[m]);
    }
    false
}

/// How many distinct words of `tw` are among `sw`.
fn shared_word_count(tw: &Vec<Vec<char>>, sw: &Vec<Vec<char>>) -> (r: usize)
    ensures
        r == vec_views(tw@).to_set().intersect(vec_views(sw@).to_set()).len(),
{
    broadcast use vstd::seq_lib::seq_to_set_is_finite;

    let ghost ws = vec_views(tw@);
    let ghost b = vec_views(sw@).to_set();
    let mut count: usize = 0;
    let mut i: usize = 0;
    assert(ws.take(0).to_set() =~= Set::<Seq<char>>::empty());
    assert(Set::<Seq<char>>::empty().intersect(b) =~= Set::<Seq<char>>::empty());
    while i < tw.len()
        invariant
            ws == vec_views(tw@),
            b == vec_views(sw@).to_set(),
            i <= tw.len(),
            count <= i,
            count == ws.take(i as int).to_set().intersect(b).len(),
        decreases tw.len() - i,
    {
        proof {
            lemma_overlap_step(ws, i as int, b);
        }
        let dup = has_word(tw, i, &tw[i]);
        let shared = has_word(sw, sw.len(), &tw[i]);
        assert(vec_views(sw@).take(sw.len() as int) =~= vec_views(sw@));
        if !dup && shared {
            count = count + 1;
        }
        i = i + 1;
    }
    assert(ws.take(tw.len() as int) =~= ws);
    count
}

/// Picks the calendar event that best matches the detected meeting title.
///
/// Strategy:
/// 1. Single event → use it
/// 2. Exact title match (case-insensitive)
/// 3. Substring containment (handles truncated Teams window titles)
/// 4. Word overlap scoring
/// 5. Fallback: first event
pub fn best_matching_event<'a>(
    events: &'a [(String, Vec<OutlookInvitee>)],
    meeting_title: Option<&str>,
) -> (r: Option<&'a (String, Vec<OutlookInvitee>)>)
    ensures
        r is Some <==> best_event_index(
            subjects_of(events@),
            match meeting_title {
                Some(t) => Some(t@),
                None => None,
            },
        ) is Some,
        r is Some ==> *r.unwrap() == events@[best_event_index(
            subjects_of(events@),
            match meeting_title {
                Some(t) => Some(t@),
                None => None,
            },
        ).unwrap()],
{
    let ghost subjects = subjects_of(events@);
    if events.len() == 0 {
        return None;
    }
    if events.len() == 1 {
        return Some(&events[0]);
    }
    let title = match meeting_title {
        Some(t) => {
            if t.is_empty() {
                return Some(&events[0]);
            }
            t
        },
        None => {
            return Some(&events[0]);
        },
    };
    let title_lower = to_lowercase(title);
    let tl = chars_of(title_lower.as_str());
    let (k0, k1) = trim_range(&tl, 0, tl.len());
    assert(tl@.subrange(0, tl.len() as int) =~= tl@);
    let key = copy_range(&tl, k0, k1);
    let ghost g_key = key@;
    assert(g_key == trim(lowercase(title@)));

    let mut lowered: Vec<Vec<char>> = Vec::new();
    let mut i: usize = 0;
    while i < events.len()
        invariant
            subjects == subjects_of(events@),
            i <= events.len(),
            lowered.len() == i,
            forall|m: int| 0 <= m < i ==> (#[trigger] lowered[m])@ == lowercase(subjects[m]),
        decreases events.len() - i,
    {
        let l = to_lowercase(events[i].0.as_str());
        lowered.push(chars_of(l.as_str()));
        i = i + 1;
    }

    // Exact match (case-insensitive)
    let mut i: usize = 0;
    while i < events.len()
        invariant
            subjects == subjects_of(events@),
            lowered.len() == events.len(),
            forall|m: int| 0 <= m < events.len() ==> (#[trigger] lowered[m])@ == lowercase(subjects[m]),
            key@ == g_key,
            i <= events.len(),
            first_where(subjects.take(i as int), same_title(g_key)) is None,
            events.len() >= 2,
            meeting_title == Some(title),
            title@.len() > 0,
            g_key == trim(lowercase(title@)),
        decreases events.len() - i,
    {
        assert(subjects.take(i + 1).drop_last() =~= subjects.take(i as int));
        let (a, b) = trim_range(&lowered[i], 0, lowered[i].len());
        assert(lowered[i as int]@.subrange(0, lowered[i as int].len() as int) =~= lowered[i as int]@);
        let t = copy_range(&lowered[i], a, b);
        if chars_eq(&t, &key) {
            assert(first_where(subjects.take(i + 1), same_title(g_key)) == Some(i as int));
            proof {
                lemma_first_where_extends(subjects, same_title(g_key), i + 1);
            }
            return Some(&events[i]);
        }
        i = i + 1;
    }
    assert(subjects.take(events.len() as int) =~= subjects);

    // Substring containment (either direction)
    let mut i: usize = 0;
    while i < events.len()
        invariant
            subjects == subjects_of(events@),
            lowered.len() == events.len(),
            forall|m: int| 0 <= m < events.len() ==> (#[trigger] lowered[m])@ == lowercase(subjects[m]),
            key@ == g_key,
            i <= events.len(),
            first_where(subjects.take(i as int), overlapping_title(g_key)) is None,
            first_where(subjects, same_title(g_key)) is None,
            events.len() >= 2,
            meeting_title == Some(title),
            title@.len() > 0,
            g_key == trim(lowercase(title@)),
        decreases events.len() - i,
    {
        assert(subjects.take(i + 1).drop_last() =~= subjects.take(i as int));
        let (a, b) = trim_range(&lowered[i], 0, lowered[i].len());
        assert(lowered[i as int]@.subrange(0, lowered[i as int].len() as int) =~= lowered[i as int]@);
        let t = copy_range(&lowered[i], a, b);
        if contains_vec(&lowered[i], &key) || contains_vec(&key, &t) {
            assert(first_where(subjects.take(i + 1), overlapping_title(g_key)) == Some(i as int));
            proof {
                lemma_first_where_extends(subjects, overlapping_title(g_key), i + 1);
            }
            return Some(&events[i]);
        }
        i = i + 1;
    }
    assert(subjects.take(events.len() as int) =~= subjects);

    // Word overlap scoring
    let title_words = words_of(&key);
    if title_words.len() > 0 {
        let mut best: usize = 0;
        let mut best_score: usize = 0;
        let mut i: usize = 0;
        while i < events.len()
            invariant
                subjects == subjects_of(events@),
                lowered.len() == events.len(),
                forall|m: int| 0 <= m < events.len() ==> (#[trigger] lowered[m])@ == lowercase(subjects[m]),
                vec_views(title_words@) == words(g_key),
                i <= events.len(),
                i == 0 ==> best == 0 && best_score == 0,
                i > 0 ==> best == last_best(subjects.take(i as int), g_key) && best < i
                    && best_score == word_overlap(g_key, subjects[best as int]),
            decreases events.len() - i,
        {
            let sw = words_of(&lowered[i]);
            let score = shared_word_count(&title_words, &sw);
            assert(score == word_overlap(g_key, subjects[i as int]));
            assert(subjects.take(i + 1).drop_last() =~= subjects.take(i as int));
            assert(subjects.take(i + 1).last() == subjects[i as int]);
            if i > 0 {
                assert(subjects.take(i as int)[best as int] == subjects[best as int]);
            }
            if i == 0 || score >= best_score {
                best = i;
                best_score = score;
            }
            i = i + 1;
        }
        assert(subjects.take(events.len() as int) =~= subjects);
        if best_score > 0 {
            return Some(&events[best]);
        }
    }

    // Fallback: first event
    Some(&events[0])
}

/// The subjects of parsed events.
pub open spec fn event_subjects(events: Seq<EventView>) -> Seq<Seq<char>> {
    events.map_values(|e: EventView| e.0)
}

/// The invitees that a calendar dump yields for a meeting title: those of
/// the best-matching event of the trimmed dump; none for a blank dump.
pub open spec fn selected_invitees(output: Seq<char>, title: Option<Seq<char>>) -> Seq<InviteeView> {
    let dump = trim(output);
    if dump.len() == 0 {
        seq![]
    } else {
        let events = parse_events(dump);
        match best_event_index(event_subjects(events), title) {
            Some(i) => events[i].1,
            None => seq![],
        }
    }
}

/// A copy of each invitee.
fn copy_invitees(v: &Vec<OutlookInvitee>) -> (r: Vec<OutlookInvitee>)
    ensures
        invitee_views(r@) == invitee_views(v@),
{
    let mut r: Vec<OutlookInvitee> = Vec::new();
    let mut i: usize = 0;
    while i < v.len()
        invariant
            i <= v.len(),
            invitee_views(r@) == invitee_views(v@).take(i as int),
        decreases v.len() - i,
    {
        let inv = &v[i];
        let ghost before = r@;
        r.push(OutlookInvitee { name: inv.name.clone(), email: inv.email.clone(), role: inv.role.clone() });
        assert(invitee_views(r@) =~= invitee_views(before).push(invitee_view(*inv)));
        assert(invitee_views(v@).take(i + 1) =~= invitee_views(v@).take(i as int).push(invitee_view(*inv)));
        i = i + 1;
    }
    assert(invitee_views(v@).take(v.len() as int) =~= invitee_views(v@));
    r
}

/// The invitees of the calendar event that best matches `meeting_title`,
/// from the output of the Outlook query; empty when it lists no event.
pub fn invitees_from_output(output: &str, meeting_title: Option<&str>) -> (r: Vec<OutlookInvitee>)
    ensures
        invitee_views(r@) == selected_invitees(
            output@,
            match meeting_title {
                Some(t) => Some(t@),
                None => None,
            },
        ),
        trim(output@).len() == 0 ==> r.len() == 0,
        trim(output@).len() > 0 ==> match best_event_index(
            subjects_of_dump(output@),
            match meeting_title {
                Some(t) => Some(t@),
                None => None,
            },
        ) {
            Some(i) => invitee_views(r@) == parse_events(trim(output@))[i].1,
            None => r.len() == 0,
        },
{
    let v = chars_of(output);
    let (a, b) = trim_range(&v, 0, v.len());
    assert(v@.subrange(0, v.len() as int) =~= output@);
    if a == b {
        let none: Vec<OutlookInvitee> = Vec::new();
        assert(invitee_views(none@) =~= Seq::<InviteeView>::empty());
        return none;
    }
    let dump = substring(output, a, b);
    let events = parse_outlook_output(dump.as_str());
    let ghost evs = parse_events(dump@);
    assert(subjects_of(events@) =~= event_subjects(evs));
    match best_matching_event(events.as_slice(), meeting_title) {
        Some(event) => {
            let ghost i = best_event_index(subjects_of(events@), match meeting_title {
                Some(t) => Some(t@),
                None => None,
            }).unwrap();
            proof {
                law_best_event_is_an_event(subjects_of(events@), match meeting_title {
                    Some(t) => Some(t@),
                    None => None,
                });
            }
            assert(event_views(events@)[i] == (event.0@, invitee_views(event.1@)));
            copy_invitees(&event.1)
        },
        None => {
            let none: Vec<OutlookInvitee> = Vec::new();
            assert(invitee_views(none@) =~= Seq::<InviteeView>::empty());
            none
        },
    }
}

/// `parts` joined with `sep` between them (`join`).
pub open spec fn join_with(parts: Seq<Seq<char>>, sep: char) -> Seq<char>
    decreases parts.len(),
{
    if parts.len() == 0 {
        Seq::empty()
    } else if parts.len() == 1 {
        parts[0]
    } else {
        join_with(parts.drop_last(), sep) + seq![sep] + parts.last()
    }
}

/// How the query prints one attendee.
pub open spec fn attendee_entry(i: InviteeView) -> Seq<char> {
    i.0 + seq![REC_SEP] + i.1 + seq![REC_SEP] + i.2
}

/// How the query prints a list of attendees.
pub open spec fn attendee_entries(invitees: Seq<InviteeView>) -> Seq<Seq<char>> {
    invitees.map_values(|i: InviteeView| attendee_entry(i))
}

/// How the query prints one event.
pub open spec fn event_line(e: EventView) -> Seq<char> {
    e.0 + seq![UNIT_SEP] + join_with(attendee_entries(e.1), GRP_SEP)
}

/// How the query prints a list of events.
pub open spec fn event_lines(events: Seq<EventView>) -> Seq<Seq<char>> {
    events.map_values(|e: EventView| event_line(e))
}

/// The calendar dump the query prints for `events`.
pub open spec fn dump_of(events: Seq<EventView>) -> Seq<char> {
    join_with(event_lines(events), '\n')
}

/// Whether `s` has no character `c`.
pub open spec fn lacks(s: Seq<char>, c: char) -> bool {
    forall|i: int| 0 <= i < s.len() ==> s[i] != c
}

/// A field the dump can carry unchanged: trimmed, with no line break and
/// no separator.
pub open spec fn clean_field(s: Seq<char>) -> bool {
    &&& trim(s) == s
    &&& lacks(s, '\n')
    &&& lacks(s, UNIT_SEP)
    &&& lacks(s, REC_SEP)
    &&& lacks(s, GRP_SEP)
}

/// Events the dump can carry unchanged: clean fields, and every invitee
/// with a name or an e-mail address.
pub open spec fn dumpable(events: Seq<EventView>) -> bool {
    forall|e: int|
        0 <= e < events.len() ==> {
            &&& clean_field((#[trigger] events[e]).0)
            &&& forall|k: int|
                0 <= k < events[e].1.len() ==> {
                    let i = #[trigger] events[e].1[k];
                    &&& clean_field(i.0)
                    &&& clean_field(i.1)
                    &&& clean_field(i.2)
                    &&& (i.0.len() > 0 || i.1.len() > 0)
                }
        }
}

/// A piece without the delimiter is a single piece.
proof fn lemma_split_plain(y: Seq<char>, c: char)
    requires
        lacks(y, c),
    ensures
        split_by(y, Delim::Char(c)) == seq![y],
    decreases y.len(),
{
    if y.len() == 0 {
        assert(y =~= Seq::<char>::empty());
    } else {
        let init = y.drop_last();
        assert forall|i: int| 0 <= i < init.len() implies init[i] != c by {
            assert(init[i] == y[i]);
        }
        lemma_split_plain(init, c);
        assert(y[y.len() - 1] != c);
        assert(init.push(y.last()) =~= y);
        assert(seq![init].update(0, init.push(y.last())) =~= seq![y]);
        assert(!delim_matches(Delim::Char(c), y.last()));
        assert(split_by(y, Delim::Char(c)) == seq![init].update(0, init.push(y.last())));
    }
}

/// Appending a delimiter and a piece without it adds that piece.
proof fn lemma_split_append(x: Seq<char>, c: char, y: Seq<char>)
    requires
        lacks(y, c),
    ensures
        split_by(x + seq![c] + y, Delim::Char(c)) == split_by(x, Delim::Char(c)).push(y),
    decreases y.len(),
{
    lemma_split_nonempty(x, Delim::Char(c));
    if y.len() == 0 {
        assert(y =~= Seq::<char>::empty());
        assert((x + seq![c] + y).drop_last() =~= x);
        assert((x + seq![c] + y).last() == c);
        assert(delim_matches(Delim::Char(c), c));
    } else {
        let init = y.drop_last();
        assert forall|i: int| 0 <= i < init.len() implies init[i] != c by {
            assert(init[i] == y[i]);
        }
        lemma_split_append(x, c, init);
        assert(y[y.len() - 1] != c);
        assert(init.push(y.last()) =~= y);
        assert((x + seq![c] + y).drop_last() =~= x + seq![c] + init);
        assert((x + seq![c] + y).last() == y.last());
        let r = split_by(x, Delim::Char(c)).push(init);
        assert(r.update(r.len() - 1, r.last().push(y.last())) =~= split_by(x, Delim::Char(c)).push(
            y,
        ));
        assert(!delim_matches(Delim::Char(c), y.last()));
    }
}

/// Splitting a join of pieces without the delimiter gives the pieces back.
proof fn lemma_split_join(parts: Seq<Seq<char>>, c: char)
    requires
        parts.len() >= 1,
        forall|k: int| 0 <= k < parts.len() ==> lacks(#[trigger] parts[k], c),
    ensures
        split_by(join_with(parts, c), Delim::Char(c)) == parts,
    decreases parts.len(),
{
    if parts.len() == 1 {
        lemma_split_plain(parts[0], c);
        assert(seq![parts[0]] =~= parts);
    } else {
        let init = parts.drop_last();
        assert forall|k: int| 0 <= k < init.len() implies lacks(#[trigger] init[k], c) by {
            assert(init[k] == parts[k]);
        }
        lemma_split_join(init, c);
        lemma_split_append(join_with(init, c), c, parts.last());
        assert(init.push(parts.last()) =~= parts);
    }
}

/// `trim` changes nothing when neither end is white space.
proof fn lemma_trim_fixed(s: Seq<char>)
    requires
        s.len() > 0,
        !is_white_space(s[0]),
        !is_white_space(s.last()),
    ensures
        trim(s) == s,
{
}

/// Trimming never lengthens.
proof fn lemma_trim_len(s: Seq<char>)
    ensures
        trim_start(s).len() <= s.len(),
        trim_end(s).len() <= s.len(),
    decreases s.len(),
{
    if s.len() > 0 {
        lemma_trim_len(s.drop_first());
        lemma_trim_len(s.drop_last());
    }
}

/// A trimmed, non-empty string starts and ends with other than white space.
proof fn lemma_trimmed_ends(s: Seq<char>)
    requires
        trim(s) == s,
        s.len() > 0,
    ensures
        !is_white_space(s[0]),
        !is_white_space(s.last()),
{
    lemma_trim_len(s);
    lemma_trim_len(trim_start(s));
    if is_white_space(s[0]) {
        lemma_trim_len(s.drop_first());
        assert(trim_start(s) == trim_start(s.drop_first()));
        assert(false);
    }
    assert(trim_start(s) == s);
    if is_white_space(s.last()) {
        lemma_trim_len(s.drop_last());
        assert(trim_end(s) == trim_end(s.drop_last()));
        assert(false);
    }
}

/// The first cut of a subject without the separator, the separator and a
/// block, is the subject.
proof fn lemma_split_once_prefix(subject: Seq<char>, block: Seq<char>)
    requires
        lacks(subject, UNIT_SEP),
    ensures
        split_once(subject + seq![UNIT_SEP] + block, UNIT_SEP) == (subject, Some(block)),
    decreases subject.len(),
{
    let s = subject + seq![UNIT_SEP] + block;
    if subject.len() == 0 {
        assert(s.drop_first() =~= block);
        assert(s[0] == UNIT_SEP);
    } else {
        let tail = subject.drop_first();
        lemma_split_once_prefix(tail, block);
        assert(s.drop_first() =~= tail + seq![UNIT_SEP] + block);
        assert(s[0] == subject[0]);
        assert(seq![subject[0]] + tail =~= subject);
    }
}

/// A printed attendee reads back as itself.
proof fn lemma_attendee_round_trip(i: InviteeView)
    requires
        clean_field(i.0),
        clean_field(i.1),
        clean_field(i.2),
        i.0.len() > 0 || i.1.len() > 0,
    ensures
        invitee_of(attendee_entry(i)) == Some(i),
{
    lemma_split_plain(i.0, REC_SEP);
    lemma_split_append(i.0, REC_SEP, i.1);
    lemma_split_append(i.0 + seq![REC_SEP] + i.1, REC_SEP, i.2);
    let fields = split_by(attendee_entry(i), Delim::Char(REC_SEP));
    assert(fields =~= seq![i.0, i.1, i.2]);
}

/// A printed attendee has no group separator and is not empty.
proof fn lemma_attendee_shape(i: InviteeView)
    requires
        clean_field(i.0),
        clean_field(i.1),
        clean_field(i.2),
    ensures
        lacks(attendee_entry(i), GRP_SEP),
        lacks(attendee_entry(i), '\n'),
        attendee_entry(i).len() > 0,
        !is_white_space(attendee_entry(i).last()),
{
    let e = attendee_entry(i);
    assert forall|k: int| 0 <= k < e.len() implies e[k] != GRP_SEP && e[k] != '\n' by {
        if k < i.0.len() {
            assert(e[k] == i.0[k]);
        } else if k == i.0.len() {
        } else if k < i.0.len() + 1 + i.1.len() {
            assert(e[k] == i.1[k - i.0.len() - 1]);
        } else if k == i.0.len() + 1 + i.1.len() {
        } else {
            assert(e[k] == i.2[k - i.0.len() - 2 - i.1.len()]);
        }
    }
    if i.2.len() > 0 {
        lemma_trimmed_ends(i.2);
        assert(e.last() == i.2.last());
    } else {
        assert(e.last() == REC_SEP);
    }
}

/// The last character of a join is that of its last part, when that part
/// is not empty.
proof fn lemma_join_last(parts: Seq<Seq<char>>, c: char)
    requires
        parts.len() > 0,
        parts.last().len() > 0,
    ensures
        join_with(parts, c).len() > 0,
        join_with(parts, c).last() == parts.last().last(),
{
}

/// A join of pieces without `d` has no `d`, provided `d` is not the
/// separator.
proof fn lemma_join_lacks(parts: Seq<Seq<char>>, c: char, d: char)
    requires
        c != d,
        forall|k: int| 0 <= k < parts.len() ==> lacks(#[trigger] parts[k], d),
    ensures
        lacks(join_with(parts, c), d),
    decreases parts.len(),
{
    if parts.len() > 1 {
        let init = parts.drop_last();
        assert forall|k: int| 0 <= k < init.len() implies lacks(#[trigger] init[k], d) by {
            assert(init[k] == parts[k]);
        }
        lemma_join_lacks(init, c, d);
        let j = join_with(init, c);
        let l = parts.last();
        assert(lacks(l, d));
        assert forall|k: int| 0 <= k < (j + seq![c] + l).len() implies (j + seq![c] + l)[k] != d by {
            if k < j.len() {
            } else if k == j.len() {
            } else {
                assert((j + seq![c] + l)[k] == l[k - j.len() - 1]);
            }
        }
    } else if parts.len() == 1 {
        assert(lacks(parts[0], d));
    }
}

/// Printed attendees read back as themselves.
proof fn lemma_invitees_round_trip(invitees: Seq<InviteeView>)
    requires
        forall|k: int|
            0 <= k < invitees.len() ==> {
                let i = #[trigger] invitees[k];
                &&& clean_field(i.0)
                &&& clean_field(i.1)
                &&& clean_field(i.2)
                &&& (i.0.len() > 0 || i.1.len() > 0)
            },
    ensures
        invitees_of(attendee_entries(invitees)) == invitees,
    decreases invitees.len(),
{
    if invitees.len() > 0 {
        let init = invitees.drop_last();
        assert(attendee_entries(invitees).drop_last() =~= attendee_entries(init));
        assert forall|k: int| 0 <= k < init.len() implies {
            let i = #[trigger] init[k];
            &&& clean_field(i.0)
            &&& clean_field(i.1)
            &&& clean_field(i.2)
            &&& (i.0.len() > 0 || i.1.len() > 0)
        } by {
            assert(init[k] == invitees[k]);
        }
        lemma_invitees_round_trip(init);
        let last = invitees[invitees.len() - 1];
        lemma_attendee_round_trip(last);
        assert(attendee_entries(invitees).last() == attendee_entry(last));
        assert(init.push(last) =~= invitees);
    }
}

/// A printed event reads back as itself, and its line is trimmed, not
/// blank, and has no line break.
proof fn lemma_event_round_trip(e: EventView)
    requires
        clean_field(e.0),
        forall|k: int|
            0 <= k < e.1.len() ==> {
                let i = #[trigger] e.1[k];
                &&& clean_field(i.0)
                &&& clean_field(i.1)
                &&& clean_field(i.2)
                &&& (i.0.len() > 0 || i.1.len() > 0)
            },
    ensures
        trim(event_line(e)) == event_line(e),
        event_line(e).len() > 0,
        lacks(event_line(e), '\n'),
        event_of(event_line(e)) == e,
{
    let entries = attendee_entries(e.1);
    let block = join_with(entries, GRP_SEP);
    let line = event_line(e);
    assert forall|k: int| 0 <= k < entries.len() implies lacks(#[trigger] entries[k], GRP_SEP) && lacks(
        entries[k],
        '\n',
    ) by {
        lemma_attendee_shape(e.1[k]);
    }
    lemma_join_lacks(entries, GRP_SEP, '\n');
    lemma_split_once_prefix(e.0, block);
    // the block's invitees
    if e.1.len() == 0 {
        assert(entries.len() == 0);
        assert(block.len() == 0);
    } else {
        lemma_split_join(entries, GRP_SEP);
        lemma_invitees_round_trip(e.1);
        lemma_attendee_shape(e.1[e.1.len() - 1]);
        assert(entries.last() == attendee_entry(e.1[e.1.len() - 1]));
        lemma_join_last(entries, GRP_SEP);
    }
    assert(block_invitees(block) == e.1);
    // the line's ends
    if e.0.len() > 0 {
        lemma_trimmed_ends(e.0);
        assert(line[0] == e.0[0]);
    } else {
        assert(line[0] == UNIT_SEP);
    }
    if block.len() > 0 {
        assert(line.last() == block.last());
    } else {
        assert(line.last() == UNIT_SEP);
    }
    lemma_trim_fixed(line);
    assert forall|k: int| 0 <= k < line.len() implies line[k] != '\n' by {
        if k < e.0.len() {
            assert(line[k] == e.0[k]);
        } else if k > e.0.len() {
            assert(line[k] == block[k - e.0.len() - 1]);
        }
    }
}

/// The dump the Outlook query prints reads back as the events it printed:
/// same events in order, same subjects, same invitees in order, for events
/// whose fields are trimmed and free of line breaks and separators and
/// whose invitees each have a name or an e-mail address.
pub proof fn law_dump_round_trip(events: Seq<EventView>)
    requires
        dumpable(events),
    ensures
        parse_events(dump_of(events)) == events,
{
    let lines = event_lines(events);
    if events.len() == 0 {
        assert(lines.len() == 0);
        assert(dump_of(events) =~= Seq::<char>::empty());
        let sp = split_by(Seq::<char>::empty(), Delim::Char('\n'));
        assert(sp == seq![Seq::<char>::empty()]);
        assert(sp.drop_last() =~= Seq::<Seq<char>>::empty());
        assert(sp.last() == Seq::<char>::empty());
        assert(trim(Seq::<char>::empty()).len() == 0);
        assert(events_of(sp.drop_last()) == Seq::<EventView>::empty());
        assert(events_of(sp) == Seq::<EventView>::empty());
        assert(events =~= Seq::<EventView>::empty());
    } else {
        assert forall|k: int| 0 <= k < lines.len() implies lacks(#[trigger] lines[k], '\n') by {
            lemma_event_round_trip(events[k]);
        }
        lemma_split_join(lines, '\n');
        lemma_lines_read_back(events);
        assert(split_by(dump_of(events), Delim::Char('\n')) == lines);
        assert(events_of(lines) == events);
    }
}

/// Printed event lines read back as the events.
proof fn lemma_lines_read_back(events: Seq<EventView>)
    requires
        dumpable(events),
    ensures
        events_of(event_lines(events)) == events,
    decreases events.len(),
{
    if events.len() > 0 {
        let init = events.drop_last();
        assert(dumpable(init)) by {
            assert forall|e: int| 0 <= e < init.len() implies init[e] == events[e] by {}
        }
        lemma_lines_read_back(init);
        assert(event_lines(events).drop_last() =~= event_lines(init));
        let last = events[events.len() - 1];
        assert(dumpable(events));
        lemma_event_round_trip(last);
        assert(event_lines(events).last() == event_line(last));
        assert(init.push(last) =~= events);
    }
}

/// The subjects of the events in a calendar dump.
pub open spec fn subjects_of_dump(output: Seq<char>) -> Seq<Seq<char>> {
    parse_events(trim(output)).map_values(|e: (Seq<char>, Seq<InviteeView>)| e.0)
}

/// The invitees picked from a dump are exactly the parsed invitee list of
/// the best-matching event, every attendee in order whatever its role; a
/// blank dump, or one without events, yields none.
pub proof fn law_selected_invitees_are_the_event_list(output: Seq<char>, title: Option<Seq<char>>)
    ensures
        trim(output).len() == 0 ==> selected_invitees(output, title).len() == 0,
        trim(output).len() > 0 ==> match best_event_index(subjects_of_dump(output), title) {
            Some(i) => 0 <= i < parse_events(trim(output)).len() && selected_invitees(output, title)
                == parse_events(trim(output))[i].1,
            None => selected_invitees(output, title).len() == 0,
        },
{
    assert(subjects_of_dump(output) =~= event_subjects(parse_events(trim(output))));
    law_best_event_is_an_event(subjects_of_dump(output), title);
}

/// `first_where` finds nothing when `p` holds of no subject.
proof fn lemma_first_where_none(subjects: Seq<Seq<char>>, p: spec_fn(Seq<char>) -> bool)
    requires
        forall|i: int| 0 <= i < subjects.len() ==> !p(#[trigger] subjects[i]),
    ensures
        first_where(subjects, p) is None,
    decreases subjects.len(),
{
    if subjects.len() > 0 {
        let init = subjects.drop_last();
        assert forall|i: int| 0 <= i < init.len() implies !p(#[trigger] init[i]) by {
            assert(init[i] == subjects[i]);
        }
        lemma_first_where_none(init, p);
        assert(!p(subjects[subjects.len() - 1]));
    }
}

/// `last_best` has the greatest overlap, and no later subject ties it.
proof fn lemma_last_best_is_max(subjects: Seq<Seq<char>>, key: Seq<char>)
    requires
        subjects.len() > 0,
    ensures
        0 <= last_best(subjects, key) < subjects.len(),
        forall|i: int|
            0 <= i < subjects.len() ==> word_overlap(key, #[trigger] subjects[i]) <= word_overlap(
                key,
                subjects[last_best(subjects, key)],
            ),
        forall|i: int|
            last_best(subjects, key) < i < subjects.len() ==> word_overlap(
                key,
                #[trigger] subjects[i],
            ) < word_overlap(key, subjects[last_best(subjects, key)]),
    decreases subjects.len(),
{
    if subjects.len() > 1 {
        let init = subjects.drop_last();
        lemma_last_best_is_max(init, key);
        let b = last_best(init, key);
        assert(init[b] == subjects[b]);
        assert forall|i: int| 0 <= i < init.len() implies init[i] == subjects[i] by {}
    }
}

/// When no subject matches the title exactly or by containment, the word
/// step decides, case-insensitively: if some subject's lowercased words
/// share any word with the lowercased, trimmed title, the chosen subject
/// shares the most such words (the last of equals); otherwise the first
/// event is chosen.
pub proof fn law_word_overlap_choice(subjects: Seq<Seq<char>>, title: Seq<char>)
    requires
        subjects.len() >= 2,
        title.len() > 0,
        forall|i: int|
            0 <= i < subjects.len() ==> {
                let s = lowercase(#[trigger] subjects[i]);
                let key = trim(lowercase(title));
                &&& trim(s) != key
                &&& !contains_chars(s, key)
                &&& !contains_chars(key, trim(s))
            },
    ensures
        best_event_index(subjects, Some(title)) is Some,
        ({
            let key = trim(lowercase(title));
            let r = best_event_index(subjects, Some(title))->0;
            &&& 0 <= r < subjects.len()
            &&& (exists|i: int|
                0 <= i < subjects.len() && words(key).to_set().intersect(
                    words(lowercase(#[trigger] subjects[i])).to_set(),
                ).len() > 0) ==> {
                &&& words(key).to_set().intersect(words(lowercase(subjects[r])).to_set()).len() > 0
                &&& forall|i: int|
                    0 <= i < subjects.len() ==> words(key).to_set().intersect(
                        words(lowercase(#[trigger] subjects[i])).to_set(),
                    ).len() <= words(key).to_set().intersect(
                        words(lowercase(subjects[r])).to_set(),
                    ).len()
                &&& forall|i: int|
                    r < i < subjects.len() ==> words(key).to_set().intersect(
                        words(lowercase(#[trigger] subjects[i])).to_set(),
                    ).len() < words(key).to_set().intersect(
                        words(lowercase(subjects[r])).to_set(),
                    ).len()
            }
            &&& (forall|i: int|
                0 <= i < subjects.len() ==> words(key).to_set().intersect(
                    words(lowercase(#[trigger] subjects[i])).to_set(),
                ).len() == 0) ==> r == 0
        }),
{
    broadcast use vstd::set::group_set_axioms;

    let key = trim(lowercase(title));
    assert forall|i: int| 0 <= i < subjects.len() implies !same_title(key)(#[trigger] subjects[i]) by {}
    assert forall|i: int| 0 <= i < subjects.len() implies !overlapping_title(key)(
        #[trigger] subjects[i],
    ) by {}
    lemma_first_where_none(subjects, same_title(key));
    lemma_first_where_none(subjects, overlapping_title(key));
    lemma_last_best_is_max(subjects, key);
    let b = last_best(subjects, key);
    if words(key).len() == 0 {
        assert(words(key).to_set() =~= Set::<Seq<char>>::empty());
        assert forall|i: int| 0 <= i < subjects.len() implies words(key).to_set().intersect(
            words(lowercase(#[trigger] subjects[i])).to_set(),
        ).len() == 0 by {
            assert(words(key).to_set().intersect(words(lowercase(subjects[i])).to_set())
                =~= Set::<Seq<char>>::empty());
        }
    }
    assert forall|i: int| 0 <= i < subjects.len() implies word_overlap(key, #[trigger] subjects[i])
        == words(key).to_set().intersect(words(lowercase(subjects[i])).to_set()).len() by {}
}

/// With two or more events, a title, and no subject equal to the title
/// ignoring case and surrounding white space, the first event whose
/// lowercased subject contains the lowercased, trimmed title, or whose
/// lowercased, trimmed subject the title contains, is chosen.
pub proof fn law_containment_choice(subjects: Seq<Seq<char>>, title: Seq<char>, i: int)
    requires
        subjects.len() >= 2,
        title.len() > 0,
        0 <= i < subjects.len(),
        forall|k: int|
            0 <= k < subjects.len() ==> trim(lowercase(#[trigger] subjects[k])) != trim(
                lowercase(title),
            ),
        contains_chars(lowercase(subjects[i]), trim(lowercase(title))) || contains_chars(
            trim(lowercase(title)),
            trim(lowercase(subjects[i])),
        ),
        forall|k: int|
            0 <= k < i ==> !contains_chars(
                lowercase(#[trigger] subjects[k]),
                trim(lowercase(title)),
            ) && !contains_chars(trim(lowercase(title)), trim(lowercase(subjects[k]))),
    ensures
        best_event_index(subjects, Some(title)) == Some(i),
{
    let key = trim(lowercase(title));
    assert forall|k: int| 0 <= k < subjects.len() implies !same_title(key)(#[trigger] subjects[k]) by {}
    lemma_first_where_none(subjects, same_title(key));
    assert forall|k: int| 0 <= k < i implies !overlapping_title(key)(#[trigger] subjects[k]) by {}
    lemma_first_where_is_first(subjects, overlapping_title(key), i);
}

} // verus!
