//! The LiveSplit (`.lss`) side: what the converter reads from a LiveSplit file.

use vstd::prelude::*;
use crate::external::string_from_chars;
use crate::libresplit::Time;
use std::collections::HashMap;
use crate::text::{chars_of, trim, trim_chars};
use crate::time::{abs, format_duration, micros_limit, missing_time, parse_duration, parse_number, spec_convert_time, spec_format_time, spec_number, spec_parse_time};
use crate::xml::{XmlElement, attribute, child, children_named, is_named, text_of, text_or};

verus! {

/// The data of a LiveSplit file that the conversion uses.
pub struct LiveSplitFile {
    pub game_name: String,
    pub category_name: String,
    pub game_icon: String,
    pub _platform: String,
    pub attempt_count: u32,
    pub finished_count: u32,
    pub start_delay: String,
    pub segments: Vec<Segment>,
}

/// One split of a LiveSplit file.
pub struct Segment {
    pub name: String,
    pub icon: String,
    pub split_time: Time,
    pub best_time: Time,
    pub best_segment: Time,
}

/// `str::parse::<u32>`: optional `+`, then decimal digits, within `u32`.
pub open spec fn spec_parse_u32(s: Seq<char>) -> Option<int> {
    let digits = if s.len() > 0 && s[0] == '+' {
        s.drop_first()
    } else {
        s
    };
    match spec_number(digits) {
        Some(v) => if v <= u32::MAX {
            Some(v)
        } else {
            None
        },
        None => None,
    }
}

/// `str::parse::<i32>`: optional sign, then decimal digits, within `i32`.
pub open spec fn spec_parse_i32(s: Seq<char>) -> Option<int> {
    if s.len() > 0 && s[0] == '-' {
        match spec_number(s.drop_first()) {
            Some(v) => if v <= 0x8000_0000 {
                Some(-v)
            } else {
                None
            },
            None => None,
        }
    } else {
        let digits = if s.len() > 0 && s[0] == '+' {
            s.drop_first()
        } else {
            s
        };
        match spec_number(digits) {
            Some(v) => if v <= i32::MAX {
                Some(v)
            } else {
                None
            },
            None => None,
        }
    }
}

/// Reads `str::parse::<u32>`.
pub fn parse_u32_text(s: &[char]) -> (res: Option<u32>)
    ensures
        match res {
            Some(v) => spec_parse_u32(s@) == Some(v as int),
            None => spec_parse_u32(s@) is None,
        },
{
    let signed = s.len() > 0 && s[0] == '+';
    let digits = if signed {
        crate::text::slice_chars(s, 1, s.len())
    } else {
        crate::text::slice_chars(s, 0, s.len())
    };
    assert(signed ==> digits@ == s@.drop_first());
    assert(!signed ==> digits@ == s@);
    match parse_number(digits.as_slice()) {
        Some(v) => if v <= u32::MAX as u64 {
            Some(v as u32)
        } else {
            None
        },
        None => None,
    }
}

/// Reads `str::parse::<i32>`.
pub fn parse_i32_text(s: &[char]) -> (res: Option<i32>)
    ensures
        match res {
            Some(v) => spec_parse_i32(s@) == Some(v as int),
            None => spec_parse_i32(s@) is None,
        },
{
    let negative = s.len() > 0 && s[0] == '-';
    let signed = s.len() > 0 && (s[0] == '-' || s[0] == '+');
    let digits = if signed {
        crate::text::slice_chars(s, 1, s.len())
    } else {
        crate::text::slice_chars(s, 0, s.len())
    };
    assert(signed ==> digits@ == s@.drop_first());
    assert(!signed ==> digits@ == s@);
    match parse_number(digits.as_slice()) {
        Some(v) => if negative {
            if v <= 0x8000_0000 {
                Some((0 - v as i64) as i32)
            } else {
                None
            }
        } else if v <= i32::MAX as u64 {
            Some(v as i32)
        } else {
            None
        },
        None => None,
    }
}

/// A header element's text, or `default` when the element is absent.
pub open spec fn header_text(doc: XmlElement, name: Seq<char>, default: Seq<char>) -> Seq<char> {
    match child(doc, name) {
        Some(e) => text_or(e, default),
        None => default,
    }
}

/// The header element, when present, holds text only.
pub open spec fn header_is_text(doc: XmlElement, name: Seq<char>) -> bool {
    match child(doc, name) {
        Some(e) => e.text is Some,
        None => true,
    }
}

/// The attempt history, when present, has fewer children than `u32::MAX`.
pub open spec fn attempt_history_fits(doc: XmlElement) -> bool {
    spec_finished_count(doc) <= u32::MAX
}

/// What reading a document asks of it: the header elements that the reader takes as text
/// hold text only, and the number of finished attempts fits in a `u32`.
pub open spec fn livesplit_readable(doc: XmlElement) -> bool {
    &&& header_is_text(doc, "GameName"@)
    &&& header_is_text(doc, "CategoryName"@)
    &&& header_is_text(doc, "GameIcon"@)
    &&& header_is_text(doc, "Platform"@)
    &&& header_is_text(doc, "AttemptCount"@)
    &&& attempt_history_fits(doc)
}

/// The attempt count: the trimmed `AttemptCount` text as a `u32`, else 0.
pub open spec fn spec_attempt_count(doc: XmlElement) -> int {
    match spec_parse_u32(trim(header_text(doc, "AttemptCount"@, "0"@))) {
        Some(v) => v,
        None => 0,
    }
}

/// An attempt is finished when a `RealTime` or `GameTime` child holds a readable duration.
pub open spec fn attempt_finished(a: XmlElement) -> bool {
    exists|i: int|
        0 <= i < a.children@.len() && #[trigger] finishing_time(a.children@[i])
}

pub open spec fn finishing_time(c: XmlElement) -> bool {
    &&& (is_named(c, "RealTime"@) || is_named(c, "GameTime"@))
    &&& match text_of(c) {
        Some(t) => spec_parse_time(t) is Some,
        None => false,
    }
}

/// The number of finished `Attempt` elements among `s`.
pub open spec fn count_finished(s: Seq<XmlElement>) -> nat
    decreases s.len(),
{
    if s.len() == 0 {
        0
    } else {
        count_finished(s.drop_last()) + if is_named(s.last(), "Attempt"@) && attempt_finished(
            s.last(),
        ) {
            1nat
        } else {
            0nat
        }
    }
}

/// The number of finished attempts in the attempt history.
pub open spec fn spec_finished_count(doc: XmlElement) -> nat {
    match child(doc, "AttemptHistory"@) {
        Some(h) => count_finished(h.children@),
        None => 0,
    }
}

/// Among some elements, the finished attempts are no more than the attempts.
pub proof fn lemma_count_finished_bound(s: Seq<XmlElement>)
    ensures
        count_finished(s) <= s.filter(crate::xml::named("Attempt"@)).len(),
    decreases s.len(),
{
    reveal_with_fuel(Seq::<_>::filter, 1);
    if s.len() > 0 {
        lemma_count_finished_bound(s.drop_last());
    }
}

/// A prefix of some elements holds no more finished attempts than all of them.
pub proof fn lemma_count_finished_prefix(s: Seq<XmlElement>, i: int)
    requires
        0 <= i <= s.len(),
    ensures
        count_finished(s.take(i)) <= count_finished(s),
    decreases s.len(),
{
    if i < s.len() {
        lemma_count_finished_prefix(s.drop_last(), i);
        assert(s.drop_last().take(i) == s.take(i));
    } else {
        assert(s.take(i) == s);
    }
}

/// An attempt is finished as soon as any of its children, at any position, is a
/// `RealTime` or `GameTime` element holding a readable duration.
pub proof fn law_any_finishing_child_finishes(a: XmlElement, i: int)
    requires
        0 <= i < a.children@.len(),
        is_named(a.children@[i], "RealTime"@) || is_named(a.children@[i], "GameTime"@),
        text_of(a.children@[i]) matches Some(t) && spec_parse_time(t) is Some,
    ensures
        attempt_finished(a),
{
    assert(finishing_time(a.children@[i]));
}

/// An attempt none of whose children is a `RealTime` or `GameTime` element with a
/// readable duration is not finished.
pub proof fn law_no_finishing_child_unfinished(a: XmlElement)
    requires
        forall|i: int|
            0 <= i < a.children@.len() ==> !(is_named(#[trigger] a.children@[i], "RealTime"@)
                || is_named(a.children@[i], "GameTime"@)) || !(text_of(a.children@[i]) matches Some(t)
                && spec_parse_time(t) is Some),
    ensures
        !attempt_finished(a),
{
}

/// Adding a child that is neither `RealTime` nor `GameTime` (such as `PauseTime`) to an
/// attempt, at any position, does not change whether it is finished.
pub proof fn law_other_children_keep_finished(a: XmlElement, b: XmlElement, k: int, c: XmlElement)
    requires
        0 <= k <= a.children@.len(),
        b.children@ == a.children@.insert(k, c),
        !is_named(c, "RealTime"@),
        !is_named(c, "GameTime"@),
    ensures
        attempt_finished(b) == attempt_finished(a),
{
    if attempt_finished(a) {
        let i = choose|i: int| 0 <= i < a.children@.len() && #[trigger] finishing_time(a.children@[i]);
        let j = if i < k {
            i
        } else {
            i + 1
        };
        assert(b.children@[j] == a.children@[i]);
        assert(finishing_time(b.children@[j]));
    }
    if attempt_finished(b) {
        let j = choose|j: int| 0 <= j < b.children@.len() && #[trigger] finishing_time(b.children@[j]);
        assert(j != k);
        let i = if j < k {
            j
        } else {
            j - 1
        };
        assert(b.children@[j] == a.children@[i]);
        assert(finishing_time(a.children@[i]));
    }
}

/// A history record that has no time for a method leaves that attempt's running total for
/// the method as it came in (zero in the first segment, else the total carried from the
/// previous segment, or none), and leaves the segment's best time for the method as it was.
pub proof fn law_skipped_time_keeps_total(first: bool, st: (AttemptTimes, AttemptTimes, Totals), record: XmlElement)
    requires
        is_named(record, "Time"@),
        attempt_id(record) is Some,
    ensures
        ({
            let id = attempt_id(record)->Some_0;
            let (pending, next, best) = st;
            let incoming: Totals = if first {
                (Some(0i128), Some(0i128))
            } else if pending.contains_key(id) {
                pending[id]
            } else {
                (None, None)
            };
            let out = record_step(first, st, record);
            &&& out.1.contains_key(id)
            &&& method_text(record, "RealTime"@) is None ==> out.1[id].0 == incoming.0 && out.2.0 == best.0
            &&& method_text(record, "GameTime"@) is None ==> out.1[id].1 == incoming.1 && out.2.1 == best.1
        }),
{
}

/// A history record with a time for a method adds that time to the attempt's running total,
/// and the segment's best time becomes the smaller of the old best and the new total.
pub proof fn law_recorded_time_adds_to_total(first: bool, st: (AttemptTimes, AttemptTimes, Totals), record: XmlElement)
    requires
        is_named(record, "Time"@),
        attempt_id(record) is Some,
    ensures
        ({
            let id = attempt_id(record)->Some_0;
            let (pending, next, best) = st;
            let incoming: Totals = if first {
                (Some(0i128), Some(0i128))
            } else if pending.contains_key(id) {
                pending[id]
            } else {
                (None, None)
            };
            let out = record_step(first, st, record);
            &&& method_text(record, "RealTime"@) matches Some(t) ==> {
                &&& out.1[id].0 == add_time(incoming.0, t)
                &&& out.2.0 == min_time(best.0, add_time(incoming.0, t))
            }
            &&& method_text(record, "GameTime"@) matches Some(t) ==> {
                &&& out.1[id].1 == add_time(incoming.1, t)
                &&& out.2.1 == min_time(best.1, add_time(incoming.1, t))
            }
        }),
{
}

/// The finished count never exceeds the number of `Attempt` elements in the history.
pub proof fn law_finished_count_at_most_attempts(doc: XmlElement)
    ensures
        spec_finished_count(doc) <= match child(doc, "AttemptHistory"@) {
            Some(h) => children_named(h, "Attempt"@).len(),
            None => 0,
        },
{
    if let Some(h) = child(doc, "AttemptHistory"@) {
        lemma_count_finished_bound(h.children@);
    }
}

/// The `Offset` element's duration, or 0.
pub open spec fn spec_offset(doc: XmlElement) -> int {
    match child(doc, "Offset"@) {
        Some(e) => match text_of(e) {
            Some(t) => match spec_parse_time(t) {
                Some(v) => v,
                None => 0,
            },
            None => 0,
        },
        None => 0,
    }
}

/// Running (real time, game time) totals of one attempt, in nanoseconds.
pub type Totals = (Option<i128>, Option<i128>);

/// Attempt totals by attempt id.
pub type AttemptTimes = Map<i32, Totals>;

/// A segment's name, or "Unknown Split".
pub open spec fn segment_name(seg: XmlElement) -> Seq<char> {
    match child(seg, "Name"@) {
        Some(n) => text_or(n, "Unknown Split"@),
        None => "Unknown Split"@,
    }
}

/// A segment's icon text, or the empty text.
pub open spec fn segment_icon(seg: XmlElement) -> Seq<char> {
    match child(seg, "Icon"@) {
        Some(n) => text_or(n, Seq::<char>::empty()),
        None => Seq::<char>::empty(),
    }
}

/// A `SplitTime` element of the personal best.
pub open spec fn is_personal_best(e: XmlElement) -> bool {
    is_named(e, "SplitTime"@) && attribute(e, "name"@) == Some("Personal Best"@)
}

pub open spec fn first_personal_best(s: Seq<XmlElement>) -> Option<XmlElement>
    decreases s.len(),
{
    if s.len() == 0 {
        None
    } else if is_personal_best(s[0]) {
        Some(s[0])
    } else {
        first_personal_best(s.drop_first())
    }
}

/// The segment's personal-best split time element, if any.
pub open spec fn personal_best_split(seg: XmlElement) -> Option<XmlElement> {
    match child(seg, "SplitTimes"@) {
        Some(st) => first_personal_best(st.children@),
        None => None,
    }
}

/// The converted `RealTime`/`GameTime` of a time element, `-` when missing.
pub open spec fn timed_text(holder: Option<XmlElement>, method: Seq<char>) -> Seq<char> {
    match holder {
        Some(h) => match child(h, method) {
            Some(t) => spec_convert_time(text_or(t, missing_time())),
            None => missing_time(),
        },
        None => missing_time(),
    }
}

/// A `Time` holding the converted times of a time element.
pub open spec fn time_from(t: Time, holder: Option<XmlElement>) -> bool {
    t.real_time@ == timed_text(holder, "RealTime"@) && t.game_time@ == timed_text(holder, "GameTime"@)
}

/// The positive attempt id of a history record.
pub open spec fn attempt_id(record: XmlElement) -> Option<i32> {
    match attribute(record, "id"@) {
        Some(a) => match spec_parse_i32(trim(a)) {
            Some(v) => if v > 0 {
                Some(v as i32)
            } else {
                None
            },
            None => None,
        },
        None => None,
    }
}

/// The trimmed text of a record's time for a method; `None` when the element is absent
/// or its text is empty.
pub open spec fn method_text(record: XmlElement, method: Seq<char>) -> Option<Seq<char>> {
    match child(record, method) {
        Some(t) => {
            let text = trim(text_or(t, missing_time()));
            if text.len() == 0 {
                None
            } else {
                Some(text)
            }
        },
        None => None,
    }
}

/// A running total extended by a segment time; `None` when either is missing or the sum
/// reaches `i64::MAX` microseconds.
pub open spec fn add_time(total: Option<i128>, text: Seq<char>) -> Option<i128> {
    match total {
        Some(e) => match spec_parse_time(text) {
            Some(p) => if abs(e + p) / 1000 < micros_limit() {
                Some((e + p) as i128)
            } else {
                None
            },
            None => None,
        },
        None => None,
    }
}

/// The smaller of two optional times, where a missing time loses.
pub open spec fn min_time(best: Option<i128>, t: Option<i128>) -> Option<i128> {
    match (best, t) {
        (Some(a), Some(b)) => Some(
            if b < a {
                b
            } else {
                a
            },
        ),
        (Some(a), None) => Some(a),
        (None, x) => x,
    }
}

/// One timing method of one record: the new total and the new best.
pub open spec fn apply_method(total: Option<i128>, best: Option<i128>, text: Option<Seq<char>>) -> (
    Option<i128>,
    Option<i128>,
) {
    match text {
        Some(t) => {
            let nt = add_time(total, t);
            (nt, min_time(best, nt))
        },
        None => (total, best),
    }
}

/// One history record: (totals not yet taken from the previous segment, totals of this
/// segment, best totals so far).
pub open spec fn record_step(
    first: bool,
    st: (AttemptTimes, AttemptTimes, Totals),
    record: XmlElement,
) -> (AttemptTimes, AttemptTimes, Totals) {
    if !is_named(record, "Time"@) {
        st
    } else {
        match attempt_id(record) {
            None => st,
            Some(id) => {
                let (pending, next, best) = st;
                let start: Totals = if first {
                    (Some(0i128), Some(0i128))
                } else if pending.contains_key(id) {
                    pending[id]
                } else {
                    (None, None)
                };
                let rest = if first {
                    pending
                } else {
                    pending.remove(id)
                };
                let rt = apply_method(start.0, best.0, method_text(record, "RealTime"@));
                let gt = apply_method(start.1, best.1, method_text(record, "GameTime"@));
                (rest, next.insert(id, (rt.0, gt.0)), (rt.1, gt.1))
            },
        }
    }
}

pub open spec fn history_fold(first: bool, pending: AttemptTimes, records: Seq<XmlElement>) -> (
    AttemptTimes,
    AttemptTimes,
    Totals,
)
    decreases records.len(),
{
    if records.len() == 0 {
        (pending, Map::empty(), (None, None))
    } else {
        record_step(first, history_fold(first, pending, records.drop_last()), records.last())
    }
}

/// A segment's history: the attempt totals up to and including this segment, and the best
/// of them. Attempts count only when they have a record in every segment so far.
pub open spec fn segment_history(first: bool, pending: AttemptTimes, seg: XmlElement) -> (
    AttemptTimes,
    Totals,
) {
    match child(seg, "SegmentHistory"@) {
        Some(h) => {
            let r = history_fold(first, pending, h.children@);
            (r.1, r.2)
        },
        None => (Map::empty(), (None, None)),
    }
}

/// The attempt totals after the given segments, and each segment's best totals.
pub open spec fn segments_fold(segs: Seq<XmlElement>) -> (AttemptTimes, Seq<Totals>)
    decreases segs.len(),
{
    if segs.len() == 0 {
        (Map::empty(), Seq::empty())
    } else {
        let (times, bests) = segments_fold(segs.drop_last());
        let (next, best) = segment_history(segs.len() == 1, times, segs.last());
        (next, bests.push(best))
    }
}

/// Every history record of the segment that counts (a `Time` element with a positive id)
/// has both a real time and a game time.
pub open spec fn records_have_both_times(records: Seq<XmlElement>) -> bool {
    forall|i: int|
        0 <= i < records.len() && is_named(#[trigger] records[i], "Time"@) && attempt_id(records[i]) is Some
            ==> method_text(records[i], "RealTime"@) is Some && method_text(records[i], "GameTime"@) is Some
}

/// The best totals are no worse than any total kept for an attempt.
pub open spec fn best_bounds_totals(next: AttemptTimes, best: Totals) -> bool {
    forall|id: i32|
        #![trigger next[id]]
        next.contains_key(id) ==> {
            &&& (next[id].0 matches Some(t) ==> best.0 matches Some(b) && b <= t)
            &&& (next[id].1 matches Some(t) ==> best.1 matches Some(b) && b <= t)
        }
}

proof fn lemma_history_best_bounds(first: bool, pending: AttemptTimes, records: Seq<XmlElement>)
    requires
        records_have_both_times(records),
    ensures
        best_bounds_totals(history_fold(first, pending, records).1, history_fold(first, pending, records).2),
    decreases records.len(),
{
    if records.len() > 0 {
        let prefix = records.drop_last();
        assert(records_have_both_times(prefix)) by {
            assert forall|i: int|
                0 <= i < prefix.len() && is_named(#[trigger] prefix[i], "Time"@) && attempt_id(prefix[i]) is Some
                implies method_text(prefix[i], "RealTime"@) is Some && method_text(prefix[i], "GameTime"@) is Some by {
                assert(prefix[i] == records[i]);
            }
        }
        lemma_history_best_bounds(first, pending, prefix);
        let r = records.last();
        assert(r == records[records.len() - 1]);
    }
}

/// When every counted history record of a segment has both times, the segment's best
/// times are no worse than the total of any attempt through that segment.
pub proof fn law_best_time_at_most_every_total(first: bool, pending: AttemptTimes, seg: XmlElement)
    requires
        match child(seg, "SegmentHistory"@) {
            Some(h) => records_have_both_times(h.children@),
            None => true,
        },
    ensures
        best_bounds_totals(segment_history(first, pending, seg).0, segment_history(first, pending, seg).1),
{
    if let Some(h) = child(seg, "SegmentHistory"@) {
        lemma_history_best_bounds(first, pending, h.children@);
    }
}

/// A best total as LibreSplit text.
pub open spec fn best_text(t: Option<i128>) -> Seq<char> {
    match t {
        Some(n) => spec_format_time(n as int),
        None => missing_time(),
    }
}

/// The segment read from a `Segment` element with the given best totals.
pub open spec fn segment_from(s: Segment, seg: XmlElement, best: Totals) -> bool {
    &&& s.name@ == segment_name(seg)
    &&& s.icon@ == segment_icon(seg)
    &&& time_from(s.split_time, personal_best_split(seg))
    &&& time_from(s.best_segment, child(seg, "BestSegmentTime"@))
    &&& s.best_time.real_time@ == best_text(best.0)
    &&& s.best_time.game_time@ == best_text(best.1)
}

/// The segment that stands in when a file has no `Segments` element.
pub open spec fn is_placeholder(s: Segment) -> bool {
    &&& s.name@ == "No Splits Provided"@
    &&& s.icon@ == Seq::<char>::empty()
    &&& s.split_time.real_time@ == missing_time()
    &&& s.split_time.game_time@ == missing_time()
    &&& s.best_time.real_time@ == missing_time()
    &&& s.best_time.game_time@ == missing_time()
    &&& s.best_segment.real_time@ == missing_time()
    &&& s.best_segment.game_time@ == missing_time()
}

/// The segments read from a document.
pub open spec fn segments_from(segments: Seq<Segment>, doc: XmlElement) -> bool {
    match child(doc, "Segments"@) {
        Some(list) => {
            let segs = children_named(list, "Segment"@);
            let bests = segments_fold(segs).1;
            &&& segments.len() == segs.len()
            &&& forall|i: int| 0 <= i < segs.len() ==> segment_from(#[trigger] segments[i], segs[i], bests[i])
        },
        None => segments.len() == 1 && is_placeholder(segments[0]),
    }
}

impl LiveSplitFile {
    /// Reads a LiveSplit duration (`[-][d.]hh:mm:ss[.fffffffff]`) as nanoseconds.
    pub fn parse_time(text: &str) -> (res: Option<i128>)
        ensures
            match res {
                Some(v) => spec_parse_time(text@) == Some(v as int),
                None => spec_parse_time(text@) is None,
            },
    {
        let chars = chars_of(text);
        parse_duration(chars.as_slice())
    }

    /// Writes nanoseconds as a LibreSplit duration (`[-]hh:mm:ss.ffffff`).
    pub fn format_time(nanos: i128) -> (res: String)
        ensures
            res@ == spec_format_time(nanos as int),
    {
        string_from_chars(format_duration(nanos))
    }

    /// A header element's text, or `default` when the element is absent.
    fn read_header_text(doc: &XmlElement, name: &str, default: &str) -> (res: String)
        requires
            header_is_text(*doc, name@),
        ensures
            res@ == header_text(*doc, name@, default@),
    {
        match doc.child(name) {
            Some(e) => match e.text() {
                Some(t) => t.clone(),
                None => default.to_owned(),
            },
            None => default.to_owned(),
        }
    }

    /// Whether an attempt has a `RealTime` or `GameTime` child holding a readable duration.
    fn attempt_is_finished(attempt: &XmlElement) -> (res: bool)
        ensures
            res == attempt_finished(*attempt),
    {
        let mut i: usize = 0;
        while i < attempt.children.len()
            invariant
                i <= attempt.children@.len(),
                forall|j: int| 0 <= j < i ==> !finishing_time(#[trigger] attempt.children@[j]),
            decreases attempt.children@.len() - i,
        {
            let c = &attempt.children[i];
            if c.has_name("RealTime") || c.has_name("GameTime") {
                if let Some(t) = c.text() {
                    if Self::parse_time(t.as_str()).is_some() {
                        assert(finishing_time(attempt.children@[i as int]));
                        return true;
                    }
                }
            }
            i = i + 1;
        }
        false
    }

    /// The number of finished attempts in the attempt history, or `None` when it does not
    /// fit in a `u32`.
    fn count_finished_attempts(doc: &XmlElement) -> (res: Option<u32>)
        ensures
            match res {
                Some(n) => n == spec_finished_count(*doc),
                None => spec_finished_count(*doc) > u32::MAX,
            },
    {
        let attempts = match doc.child("AttemptHistory") {
            Some(a) => a,
            None => return Some(0),
        };
        let mut finished: u32 = 0;
        let mut i: usize = 0;
        while i < attempts.children.len()
            invariant
                i <= attempts.children@.len(),
                finished == count_finished(attempts.children@.take(i as int)),
                child(*doc, "AttemptHistory"@) == Some(*attempts),
            decreases attempts.children@.len() - i,
        {
            let a = &attempts.children[i];
            proof {
                assert(attempts.children@.take(i + 1).drop_last() == attempts.children@.take(i as int));
            }
            if a.has_name("Attempt") && Self::attempt_is_finished(a) {
                if finished == u32::MAX {
                    proof {
                        let prefix = attempts.children@.take(i + 1);
                        assert(prefix.last() == attempts.children@[i as int]);
                        assert(count_finished(prefix) == u32::MAX + 1);
                        lemma_count_finished_prefix(attempts.children@, i + 1);
                    }
                    return None;
                }
                finished = finished + 1;
            }
            i = i + 1;
        }
        assert(attempts.children@.take(attempts.children@.len() as int) == attempts.children@);
        Some(finished)
    }

    /// The number of finished attempts in the attempt history.
    fn get_finished_count(doc: &XmlElement) -> (res: u32)
        requires
            attempt_history_fits(*doc),
        ensures
            res == spec_finished_count(*doc),
    {
        match Self::count_finished_attempts(doc) {
            Some(n) => n,
            None => 0,
        }
    }

    /// The start delay: the negated `Offset` duration, as a LibreSplit duration.
    fn read_start_delay(doc: &XmlElement) -> (res: String)
        ensures
            res@ == spec_format_time(-spec_offset(*doc)),
    {
        let offset: i128 = match doc.child("Offset") {
            Some(e) => match e.text() {
                Some(t) => match Self::parse_time(t.as_str()) {
                    Some(v) => v,
                    None => 0,
                },
                None => 0,
            },
            None => 0,
        };
        proof {
            if let Some(e) = child(*doc, "Offset"@) {
                if let Some(t) = text_of(e) {
                    crate::time::lemma_parse_time_bounded(t);
                }
            }
        }
        Self::format_time(-offset)
    }

    /// Whether a document meets what reading it asks.
    pub fn is_readable(doc: &XmlElement) -> (res: bool)
        ensures
            res == livesplit_readable(*doc),
    {
        let texts = Self::header_has_text(doc, "GameName") && Self::header_has_text(doc, "CategoryName")
            && Self::header_has_text(doc, "GameIcon") && Self::header_has_text(doc, "Platform")
            && Self::header_has_text(doc, "AttemptCount");
        let fits = Self::count_finished_attempts(doc).is_some();
        texts && fits
    }

    /// Whether a header element, when present, holds text only.
    fn header_has_text(doc: &XmlElement, name: &str) -> (res: bool)
        ensures
            res == header_is_text(*doc, name@),
    {
        match doc.child(name) {
            Some(e) => e.text.is_some(),
            None => true,
        }
    }

    /// The text of a missing time.
    fn missing() -> (res: String)
        ensures
            res@ == missing_time(),
    {
        string_from_chars(vec!['-'])
    }

    fn read_segment_name(seg: &XmlElement) -> (res: String)
        ensures
            res@ == segment_name(*seg),
    {
        match seg.child("Name") {
            Some(n) => match n.text() {
                Some(t) => t.clone(),
                None => "Unknown Split".to_owned(),
            },
            None => "Unknown Split".to_owned(),
        }
    }

    fn read_segment_icon(seg: &XmlElement) -> (res: String)
        ensures
            res@ == segment_icon(*seg),
    {
        match seg.child("Icon") {
            Some(n) => match n.text() {
                Some(t) => t.clone(),
                None => String::new(),
            },
            None => String::new(),
        }
    }

    /// The segment's personal-best split time element, if any.
    fn personal_best(seg: &XmlElement) -> (res: Option<&XmlElement>)
        ensures
            match res {
                Some(e) => personal_best_split(*seg) == Some(*e),
                None => personal_best_split(*seg) is None,
            },
    {
        let times = match seg.child("SplitTimes") {
            Some(t) => t,
            None => return None,
        };
        let mut i: usize = 0;
        assert(child(*seg, "SplitTimes"@) == Some(*times));
        assert(personal_best_split(*seg) == first_personal_best(times.children@));
        assert(times.children@.skip(0) == times.children@);
        while i < times.children.len()
            invariant
                i <= times.children@.len(),
                personal_best_split(*seg) == first_personal_best(times.children@),
                first_personal_best(times.children@) == first_personal_best(times.children@.skip(i as int)),
            decreases times.children@.len() - i,
        {
            let e = &times.children[i];
            proof {
                assert(times.children@.skip(i as int).drop_first() == times.children@.skip(i + 1));
                assert(times.children@.skip(i as int)[0] == times.children@[i as int]);
            }
            if e.has_name("SplitTime") {
                if let Some(v) = e.attribute("name") {
                    if crate::xml::str_equal(v, "Personal Best") {
                        assert(is_personal_best(*e));
                        let ghost rest = times.children@.skip(i as int);
                        assert(rest.len() > 0 && rest[0] == *e);
                        assert(first_personal_best(rest) == Some(*e));
                        return Some(e);
                    }
                }
            }
            i = i + 1;
        }
        None
    }

    /// The converted time of one method of a time element.
    fn read_timed_text(holder: Option<&XmlElement>, method: &str) -> (res: String)
        ensures
            res@ == timed_text(
                match holder {
                    Some(h) => Some(*h),
                    None => None,
                },
                method@,
            ),
    {
        match holder {
            Some(h) => match h.child(method) {
                Some(t) => match t.text() {
                    Some(x) => Self::convert_time(x.as_str()),
                    None => {
                        let dash = Self::missing();
                        Self::convert_time(dash.as_str())
                    },
                },
                None => Self::missing(),
            },
            None => Self::missing(),
        }
    }

    /// The converted real and game times of a time element.
    fn read_time(holder: Option<&XmlElement>) -> (res: Time)
        ensures
            time_from(
                res,
                match holder {
                    Some(h) => Some(*h),
                    None => None,
                },
            ),
    {
        Time {
            real_time: Self::read_timed_text(holder, "RealTime"),
            game_time: Self::read_timed_text(holder, "GameTime"),
        }
    }

    /// The positive attempt id of a history record.
    fn read_attempt_id(record: &XmlElement) -> (res: Option<i32>)
        ensures
            res == attempt_id(*record),
    {
        match record.attribute("id") {
            Some(a) => {
                let chars = chars_of(a.as_str());
                let trimmed = trim_chars(chars.as_slice());
                match parse_i32_text(trimmed.as_slice()) {
                    Some(v) => if v > 0 {
                        Some(v)
                    } else {
                        None
                    },
                    None => None,
                }
            },
            None => None,
        }
    }

    /// The trimmed, non-empty text of a record's time for a method.
    fn read_method_text(record: &XmlElement, method: &str) -> (res: Option<Vec<char>>)
        ensures
            match res {
                Some(t) => method_text(*record, method@) == Some(t@),
                None => method_text(*record, method@) is None,
            },
    {
        match record.child(method) {
            Some(t) => {
                let raw = match t.text() {
                    Some(x) => chars_of(x.as_str()),
                    None => vec!['-'],
                };
                let text = trim_chars(raw.as_slice());
                if text.len() == 0 {
                    None
                } else {
                    Some(text)
                }
            },
            None => None,
        }
    }

    /// A running total extended by a segment time.
    fn add_segment_time(total: Option<i128>, text: &[char]) -> (res: Option<i128>)
        ensures
            res == add_time(total, text@),
    {
        match total {
            Some(e) => match parse_duration(text) {
                Some(p) => match e.checked_add(p) {
                    Some(sum) => {
                        let magnitude: u128 = if sum < 0 {
                            (-(sum + 1)) as u128 + 1
                        } else {
                            sum as u128
                        };
                        if magnitude / 1000 < i64::MAX as u128 {
                            Some(sum)
                        } else {
                            None
                        }
                    },
                    None => None,
                },
                None => None,
            },
            None => None,
        }
    }

    /// The smaller of two optional times, where a missing time loses.
    fn min_time(best: Option<i128>, t: Option<i128>) -> (res: Option<i128>)
        ensures
            res == min_time(best, t),
    {
        match (best, t) {
            (Some(a), Some(b)) => Some(
                if b < a {
                    b
                } else {
                    a
                },
            ),
            (Some(a), None) => Some(a),
            (None, x) => x,
        }
    }

    /// One timing method of one record.
    fn apply_method(total: Option<i128>, best: Option<i128>, text: Option<Vec<char>>) -> (res: (
        Option<i128>,
        Option<i128>,
    ))
        ensures
            res == apply_method(
                total,
                best,
                match text {
                    Some(t) => Some(t@),
                    None => None,
                },
            ),
    {
        match text {
            Some(t) => {
                let nt = Self::add_segment_time(total, t.as_slice());
                (nt, Self::min_time(best, nt))
            },
            None => (total, best),
        }
    }

    /// Reads a segment's history: the totals of the attempts that reach this segment, and
    /// the segment's best totals.
    fn read_history(first: bool, pending: HashMap<i32, Totals>, seg: &XmlElement) -> (res: (
        HashMap<i32, Totals>,
        Totals,
    ))
        ensures
            (res.0@, res.1) == segment_history(first, pending@, *seg),
    {
        broadcast use vstd::std_specs::hash::group_hash_axioms;

        let mut next: HashMap<i32, Totals> = HashMap::new();
        let mut best: Totals = (None, None);
        let history = match seg.child("SegmentHistory") {
            Some(h) => h,
            None => return (next, best),
        };
        let mut pending = pending;
        let ghost pending0 = pending@;
        assert(history.children@.take(0) == Seq::<XmlElement>::empty());
        let mut i: usize = 0;
        while i < history.children.len()
            invariant
                i <= history.children@.len(),
                (pending@, next@, best) == history_fold(first, pending0, history.children@.take(i as int)),
            decreases history.children@.len() - i,
        {
            let record = &history.children[i];
            proof {
                assert(history.children@.take(i + 1).drop_last() == history.children@.take(i as int));
                assert(history.children@.take(i + 1).last() == history.children@[i as int]);
            }
            if record.has_name("Time") {
                match Self::read_attempt_id(record) {
                    Some(id) => {
                        let start: Totals = if first {
                            (Some(0i128), Some(0i128))
                        } else {
                            match pending.remove(&id) {
                                Some(t) => t,
                                None => (None, None),
                            }
                        };
                        let real_step = Self::apply_method(
                            start.0,
                            best.0,
                            Self::read_method_text(record, "RealTime"),
                        );
                        let game_step = Self::apply_method(
                            start.1,
                            best.1,
                            Self::read_method_text(record, "GameTime"),
                        );
                        next.insert(id, (real_step.0, game_step.0));
                        best = (real_step.1, game_step.1);
                    },
                    None => {},
                }
            }
            i = i + 1;
        }
        assert(history.children@.take(history.children@.len() as int) == history.children@);
        (next, best)
    }

    /// A best total as LibreSplit text.
    fn best_text(t: Option<i128>) -> (res: String)
        ensures
            res@ == best_text(t),
    {
        match t {
            Some(n) => Self::format_time(n),
            None => Self::missing(),
        }
    }

    /// Reads the data the conversion uses from a LiveSplit document's root element.
    pub fn new(doc: &XmlElement) -> (res: LiveSplitFile)
        requires
            livesplit_readable(*doc),
        ensures
            res.game_name@ == header_text(*doc, "GameName"@, "Unknown Game"@),
            res.category_name@ == header_text(*doc, "CategoryName"@, "Unknown Category"@),
            res.game_icon@ == header_text(*doc, "GameIcon"@, Seq::<char>::empty()),
            res._platform@ == header_text(*doc, "Platform"@, "Unknown Platform"@),
            res.attempt_count == spec_attempt_count(*doc),
            res.finished_count == spec_finished_count(*doc),
            res.start_delay@ == spec_format_time(-spec_offset(*doc)),
            segments_from(res.segments@, *doc),
    {
        let game_name = Self::read_header_text(doc, "GameName", "Unknown Game");
        let category_name = Self::read_header_text(doc, "CategoryName", "Unknown Category");
        let game_icon = Self::read_header_text(doc, "GameIcon", "");
        proof {
            reveal_strlit("");
        }
        let platform = Self::read_header_text(doc, "Platform", "Unknown Platform");
        let count_text = Self::read_header_text(doc, "AttemptCount", "0");
        let count_chars = chars_of(count_text.as_str());
        let count_trimmed = trim_chars(count_chars.as_slice());
        let attempt_count = match parse_u32_text(count_trimmed.as_slice()) {
            Some(v) => v,
            None => 0,
        };
        let finished_count = Self::get_finished_count(doc);
        let start_delay = Self::read_start_delay(doc);

        let mut segments: Vec<Segment> = Vec::new();
        match doc.child("Segments") {
            Some(list) => {
                let segs = list.children_named("Segment");
                let ghost spec_segs = children_named(*list, "Segment"@);
                let mut times: HashMap<i32, Totals> = HashMap::new();
                let mut k: usize = 0;
                assert(spec_segs.take(0) == Seq::<XmlElement>::empty());
                while k < segs.len()
                    invariant
                        segs@.len() == spec_segs.len(),
                        forall|j: int| 0 <= j < segs@.len() ==> *segs@[j] == #[trigger] spec_segs[j],
                        k <= segs@.len(),
                        times@ == segments_fold(spec_segs.take(k as int)).0,
                        segments_fold(spec_segs.take(k as int)).1.len() == k,
                        segments@.len() == k,
                        forall|j: int|
                            0 <= j < k ==> segment_from(
                                #[trigger] segments@[j],
                                spec_segs[j],
                                segments_fold(spec_segs.take(k as int)).1[j],
                            ),
                    decreases segs@.len() - k,
                {
                    let seg = segs[k];
                    let ghost before = segments_fold(spec_segs.take(k as int));
                    proof {
                        assert(spec_segs.take(k + 1).drop_last() == spec_segs.take(k as int));
                        assert(spec_segs.take(k + 1).last() == spec_segs[k as int]);
                    }
                    let name = Self::read_segment_name(seg);
                    let icon = Self::read_segment_icon(seg);
                    let split_time = Self::read_time(Self::personal_best(seg));
                    let best_segment = Self::read_time(seg.child("BestSegmentTime"));
                    let (next, best) = Self::read_history(k == 0, times, seg);
                    times = next;
                    let best_time = Time {
                        real_time: Self::best_text(best.0),
                        game_time: Self::best_text(best.1),
                    };
                    segments.push(Segment { name, icon, split_time, best_time, best_segment });
                    k = k + 1;
                    proof {
                        let after = segments_fold(spec_segs.take(k as int));
                        assert(after.1 == before.1.push(best));
                        assert forall|j: int| 0 <= j < k implies segment_from(
                            #[trigger] segments@[j],
                            spec_segs[j],
                            after.1[j],
                        ) by {
                            if j < k - 1 {
                                assert(after.1[j] == before.1[j]);
                            }
                        }
                    }
                }
                assert(spec_segs.take(spec_segs.len() as int) == spec_segs);
            },
            None => {
                segments.push(
                    Segment {
                        name: "No Splits Provided".to_owned(),
                        icon: String::new(),
                        split_time: Time { real_time: Self::missing(), game_time: Self::missing() },
                        best_time: Time { real_time: Self::missing(), game_time: Self::missing() },
                        best_segment: Time {
                            real_time: Self::missing(),
                            game_time: Self::missing(),
                        },
                    },
                );
            },
        }
        LiveSplitFile {
            game_name,
            category_name,
            game_icon,
            _platform: platform,
            attempt_count,
            finished_count,
            start_delay,
            segments,
        }
    }

    /// A LiveSplit duration rewritten as a LibreSplit duration, or `-` when it does not parse.
    pub fn convert_time(text: &str) -> (res: String)
        ensures
            res@ == spec_convert_time(text@),
    {
        match Self::parse_time(text) {
            Some(nanos) => Self::format_time(nanos),
            None => string_from_chars(vec!['-']),
        }
    }
}

} // verus!
