//! Locating the markers of a sanitized buffer.
//!
//! `[[` opens a key where it starts a line; `]]` closes one wherever it
//! stands. Three scans find them: a substring search, a byte-by-byte walk,
//! and a walk in chunks of several lanes. All three give the same lists.

use vstd::prelude::*;
use vstd::slice::slice_subrange;
use crate::search::{
    disjoint_occurrences, first_occurrence, lists_disjoint_occurrences, occurs_at,
    strictly_ascending,
};
use crate::simd::{fits_at, get_bitmask, lane_is_set, lane_set};
use crate::text::{CLOSE_BRACKET, LINE_FEED, OPEN_BRACKET};

verus! {

/// `[[` stands at `at`, and `at` starts a line.
pub open spec fn is_opening(buf: Seq<u8>, at: int) -> bool {
    &&& 0 <= at && at + 1 < buf.len()
    &&& buf[at] == OPEN_BRACKET && buf[at + 1] == OPEN_BRACKET
    &&& (at == 0 || buf[at - 1] == LINE_FEED)
}

/// `]]` stands at `at`.
pub open spec fn is_closing(buf: Seq<u8>, at: int) -> bool {
    &&& 0 <= at && at + 1 < buf.len()
    &&& buf[at] == CLOSE_BRACKET && buf[at + 1] == CLOSE_BRACKET
}

/// A marker of the given kind stands at `at`.
pub open spec fn is_marker(buf: Seq<u8>, at: int, opening: bool) -> bool {
    if opening {
        is_opening(buf, at)
    } else {
        is_closing(buf, at)
    }
}

/// The positions below `end` at which a marker of the given kind stands,
/// in ascending order.
pub open spec fn markers_below(buf: Seq<u8>, end: int, opening: bool) -> Seq<usize>
    decreases end,
{
    if end <= 0 {
        Seq::empty()
    } else if is_marker(buf, end - 1, opening) {
        markers_below(buf, end - 1, opening).push((end - 1) as usize)
    } else {
        markers_below(buf, end - 1, opening)
    }
}

/// Every position at which a key opens, in ascending order.
pub open spec fn opening_positions(buf: Seq<u8>) -> Seq<usize> {
    markers_below(buf, buf.len() as int, true)
}

/// Every position at which `]]` stands, in ascending order.
pub open spec fn closing_positions(buf: Seq<u8>) -> Seq<usize> {
    markers_below(buf, buf.len() as int, false)
}

/// The list of markers below `end` rises strictly, holds only markers, and
/// holds each marker below `end`.
pub proof fn marker_lists_are_exact(buf: Seq<u8>, end: int, opening: bool)
    requires
        end <= buf.len() <= usize::MAX,
    ensures
        strictly_ascending(markers_below(buf, end, opening)),
        forall|k: int|
            0 <= k < markers_below(buf, end, opening).len() ==> {
                &&& #[trigger] markers_below(buf, end, opening)[k] < end
                &&& is_marker(buf, markers_below(buf, end, opening)[k] as int, opening)
            },
        forall|at: int|
            0 <= at < end && is_marker(buf, at, opening) ==> markers_below(
                buf,
                end,
                opening,
            ).contains(at as usize),
    decreases end,
{
    if end > 0 {
        marker_lists_are_exact(buf, end - 1, opening);
        let rest = markers_below(buf, end - 1, opening);
        let all = markers_below(buf, end, opening);
        if is_marker(buf, end - 1, opening) {
            assert(all == rest.push((end - 1) as usize));
            assert forall|at: int| 0 <= at < end && is_marker(buf, at, opening) implies all.contains(
                at as usize,
            ) by {
                if at < end - 1 {
                    let k = choose|k: int| 0 <= k < rest.len() && rest[k] == at as usize;
                    assert(all[k] == at as usize);
                } else {
                    assert(all[rest.len() as int] == at as usize);
                }
            }
        }
    }
}

/// Two lists that rise strictly and hold the same positions are equal.
proof fn lemma_ascending_lists_agree(a: Seq<usize>, b: Seq<usize>)
    requires
        strictly_ascending(a),
        strictly_ascending(b),
        forall|x: usize| a.contains(x) <==> b.contains(x),
    ensures
        a == b,
    decreases a.len(),
{
    if a.len() == 0 {
        if b.len() > 0 {
            assert(b.contains(b[0]));
        }
        assert(a =~= b);
    } else {
        assert(a.contains(a.last()));
        let k = choose|k: int| 0 <= k < b.len() && b[k] == a.last();
        assert(b.contains(b.last()));
        let m = choose|m: int| 0 <= m < a.len() && a[m] == b.last();
        assert(a.last() == b.last());
        let shorter_a = a.drop_last();
        let shorter_b = b.drop_last();
        assert forall|x: usize| shorter_a.contains(x) <==> shorter_b.contains(x) by {
            if shorter_a.contains(x) {
                let i = choose|i: int| 0 <= i < shorter_a.len() && shorter_a[i] == x;
                assert(a[i] == x);
                assert(a.contains(x));
                let j = choose|j: int| 0 <= j < b.len() && b[j] == x;
                assert(j < b.len() - 1);
                assert(shorter_b[j] == x);
            }
            if shorter_b.contains(x) {
                let i = choose|i: int| 0 <= i < shorter_b.len() && shorter_b[i] == x;
                assert(b[i] == x);
                assert(b.contains(x));
                let j = choose|j: int| 0 <= j < a.len() && a[j] == x;
                assert(j < a.len() - 1);
                assert(shorter_a[j] == x);
            }
        }
        lemma_ascending_lists_agree(shorter_a, shorter_b);
        assert(a =~= shorter_a.push(a.last()));
        assert(b =~= shorter_b.push(b.last()));
    }
}

/// Whatever way a scan walks the buffer, its result is fixed: a list that
/// rises strictly, holds only markers of one kind, and holds each of them,
/// is the list of that kind's positions.
pub proof fn marker_list_is_unique(buf: Seq<u8>, opening: bool, list: Seq<usize>)
    requires
        buf.len() <= usize::MAX,
        strictly_ascending(list),
        forall|k: int| 0 <= k < list.len() ==> is_marker(buf, #[trigger] list[k] as int, opening),
        forall|at: int|
            0 <= at < buf.len() && is_marker(buf, at, opening) ==> list.contains(at as usize),
    ensures
        list == markers_below(buf, buf.len() as int, opening),
{
    let exact = markers_below(buf, buf.len() as int, opening);
    marker_lists_are_exact(buf, buf.len() as int, opening);
    assert forall|x: usize| list.contains(x) <==> exact.contains(x) by {
        if list.contains(x) {
            let k = choose|k: int| 0 <= k < list.len() && list[k] == x;
            assert(is_marker(buf, list[k] as int, opening));
        }
        if exact.contains(x) {
            let k = choose|k: int| 0 <= k < exact.len() && exact[k] == x;
            assert(is_marker(buf, exact[k] as int, opening));
        }
    }
    lemma_ascending_lists_agree(list, exact);
}

proof fn lemma_no_marker_between(buf: Seq<u8>, from: int, to: int, opening: bool)
    requires
        0 <= from <= to,
        forall|at: int| from <= at < to ==> !is_marker(buf, at, opening),
    ensures
        markers_below(buf, to, opening) == markers_below(buf, from, opening),
    decreases to - from,
{
    if from < to {
        lemma_no_marker_between(buf, from, to - 1, opening);
    }
}

proof fn lemma_pair_occurs(buf: Seq<u8>, byte: u8, at: int)
    ensures
        occurs_at(buf, seq![byte, byte], at) <==> (0 <= at && at + 1 < buf.len() && buf[at] == byte
            && buf[at + 1] == byte),
{
    let needle = seq![byte, byte];
    if 0 <= at && at + 1 < buf.len() {
        let window = buf.subrange(at, at + 2);
        if buf[at] == byte && buf[at + 1] == byte {
            assert(window =~= needle);
        } else {
            assert(window[0] == buf[at]);
            assert(window[1] == buf[at + 1]);
            assert(needle[0] == byte && needle[1] == byte);
        }
    }
}

fn pair_of(byte: u8) -> (needle: Vec<u8>)
    ensures
        needle@ == seq![byte, byte],
{
    let mut needle: Vec<u8> = Vec::with_capacity(2);
    needle.push(byte);
    needle.push(byte);
    assert(needle@ =~= seq![byte, byte]);
    needle
}

/// The positions at which a key opens, by substring search: every `[[`
/// that a search from the left reports, kept where it starts a line.
pub fn find_openings(buf: &[u8]) -> (openings: Vec<usize>)
    ensures
        openings@ == opening_positions(buf@),
{
    let needle = pair_of(OPEN_BRACKET);
    let found = disjoint_occurrences(buf, needle.as_slice());
    let mut openings: Vec<usize> = Vec::with_capacity(found.len());
    let mut k: usize = 0;
    let ghost pair = seq![OPEN_BRACKET, OPEN_BRACKET];
    proof {
        let first: int = if found.len() > 0 {
            found[0] as int
        } else {
            buf@.len() as int
        };
        assert forall|p: int| 0 <= p < first implies !is_marker(buf@, p, true) by {
            if is_opening(buf@, p) {
                lemma_covered_opening_is_listed(buf@, found@, p);
                let j = choose|j: int| 0 <= j < found.len() && found[j] == p;
                assert(found[j] == p);
                assert(j > 0 ==> found[0] + 2 <= found[j]);
            }
        }
        lemma_no_marker_between(buf@, 0, first, true);
    }
    while k < found.len()
        invariant
            k <= found.len(),
            pair == seq![OPEN_BRACKET, OPEN_BRACKET],
            lists_disjoint_occurrences(buf@, pair, found@),
            openings@ == markers_below(
                buf@,
                if k < found.len() {
                    found[k as int] as int
                } else {
                    buf@.len() as int
                },
                true,
            ),
        decreases found.len() - k,
    {
        let at = found[k];
        let ghost next: int = if k + 1 < found.len() {
            found[k + 1] as int
        } else {
            buf@.len() as int
        };
        proof {
            lemma_pair_occurs(buf@, OPEN_BRACKET, at as int);
            assert(occurs_at(buf@, pair, at as int));
            assert(at + 2 <= next);
            assert forall|p: int| at < p < next implies !is_marker(buf@, p, true) by {
                lemma_pair_occurs(buf@, OPEN_BRACKET, p);
                if is_opening(buf@, p) {
                    lemma_covered_opening_is_listed(buf@, found@, p);
                    let j = choose|j: int| 0 <= j < found.len() && found[j] == p;
                    assert(found[j] == p);
                    if j <= k {
                        assert(j < k ==> found[j] + 2 <= found[k as int]);
                    } else {
                        assert(j > k + 1 ==> found[k + 1] + 2 <= found[j]);
                    }
                }
            }
            lemma_no_marker_between(buf@, at + 1, next, true);
        }
        if at == 0 || buf[at - 1] == LINE_FEED {
            openings.push(at);
        }
        k += 1;
    }
    openings
}

/// An opening is never skipped by a search that reports occurrences of
/// `[[` without overlap: the byte before it is not `[`.
proof fn lemma_covered_opening_is_listed(buf: Seq<u8>, found: Seq<usize>, at: int)
    requires
        lists_disjoint_occurrences(buf, seq![OPEN_BRACKET, OPEN_BRACKET], found),
        is_opening(buf, at),
    ensures
        exists|j: int| 0 <= j < found.len() && found[j] == at,
{
    let pair = seq![OPEN_BRACKET, OPEN_BRACKET];
    lemma_pair_occurs(buf, OPEN_BRACKET, at);
    assert(occurs_at(buf, pair, at));
    let j = choose|j: int|
        0 <= j < found.len() && (#[trigger] found[j]) <= at && at < found[j] + pair.len();
    if found[j] != at {
        assert(found[j] == at - 1);
        lemma_pair_occurs(buf, OPEN_BRACKET, at - 1);
        assert(occurs_at(buf, pair, found[j] as int));
    }
}

/// The positions at which `]]` stands, by substring search: the first
/// occurrence, then the first one after it, and so on.
pub fn find_closings(buf: &[u8]) -> (closings: Vec<usize>)
    ensures
        closings@ == closing_positions(buf@),
{
    let needle = pair_of(CLOSE_BRACKET);
    let mut closings: Vec<usize> = Vec::new();
    let mut start: usize = 0;
    let ghost pair = seq![CLOSE_BRACKET, CLOSE_BRACKET];
    loop
        invariant_except_break
            start <= buf.len(),
            needle@ == pair,
            pair == seq![CLOSE_BRACKET, CLOSE_BRACKET],
            closings@ == markers_below(buf@, start as int, false),
        ensures
            closings@ == closing_positions(buf@),
        decreases buf.len() - start,
    {
        let rest = slice_subrange(buf, start, buf.len());
        match first_occurrence(rest, needle.as_slice()) {
            Some(off) => {
                let at = start + off;
                proof {
                    lemma_pair_occurs(rest@, CLOSE_BRACKET, off as int);
                    assert(rest@[off as int] == buf@[at as int]);
                    assert(rest@[off + 1] == buf@[at + 1]);
                    assert(is_closing(buf@, at as int));
                    assert forall|p: int| start <= p < at implies !is_marker(buf@, p, false) by {
                        lemma_pair_occurs(rest@, CLOSE_BRACKET, p - start);
                        if is_closing(buf@, p) {
                            assert(rest@[p - start] == buf@[p]);
                            assert(rest@[p - start + 1] == buf@[p + 1]);
                            assert(occurs_at(rest@, pair, p - start));
                        }
                    }
                    lemma_no_marker_between(buf@, start as int, at as int, false);
                }
                closings.push(at);
                start = at + 1;
            },
            None => {
                proof {
                    assert forall|p: int| start <= p < buf@.len() implies !is_marker(
                        buf@,
                        p,
                        false,
                    ) by {
                        lemma_pair_occurs(rest@, CLOSE_BRACKET, p - start);
                        if is_closing(buf@, p) {
                            assert(rest@[p - start] == buf@[p]);
                            assert(rest@[p - start + 1] == buf@[p + 1]);
                            assert(occurs_at(rest@, pair, p - start));
                        }
                    }
                    lemma_no_marker_between(buf@, start as int, buf@.len() as int, false);
                }
                break ;
            },
        }
    }
    closings
}

/// Finds the markers by substring search. Returns the positions at which a
/// key opens and the positions of `]]`, each list in ascending order and
/// complete.
pub fn scan_markers(buf: &[u8]) -> (markers: (Vec<usize>, Vec<usize>))
    ensures
        markers.0@ == opening_positions(buf@),
        markers.1@ == closing_positions(buf@),
{
    (find_openings(buf), find_closings(buf))
}

/// Whether a key opens at `at`.
fn opens_at(buf: &[u8], at: usize) -> (yes: bool)
    requires
        at < buf.len(),
    ensures
        yes == is_opening(buf@, at as int),
{
    buf[at] == OPEN_BRACKET && at + 1 < buf.len() && buf[at + 1] == OPEN_BRACKET && (at == 0
        || buf[at - 1] == LINE_FEED)
}

/// Whether `]]` stands at `at`.
fn closes_at(buf: &[u8], at: usize) -> (yes: bool)
    requires
        at < buf.len(),
    ensures
        yes == is_closing(buf@, at as int),
{
    buf[at] == CLOSE_BRACKET && at + 1 < buf.len() && buf[at + 1] == CLOSE_BRACKET
}

/// Walks the bytes from `from` to the end and appends the markers found.
fn scan_rest(buf: &[u8], from: usize, openings: &mut Vec<usize>, closings: &mut Vec<usize>)
    requires
        from <= buf.len(),
        old(openings)@ == markers_below(buf@, from as int, true),
        old(closings)@ == markers_below(buf@, from as int, false),
    ensures
        final(openings)@ == opening_positions(buf@),
        final(closings)@ == closing_positions(buf@),
{
    let mut at: usize = from;
    while at < buf.len()
        invariant
            at <= buf.len(),
            openings@ == markers_below(buf@, at as int, true),
            closings@ == markers_below(buf@, at as int, false),
        decreases buf.len() - at,
    {
        if opens_at(buf, at) {
            openings.push(at);
        }
        if closes_at(buf, at) {
            closings.push(at);
        }
        at += 1;
    }
}

/// Finds the markers by walking the buffer byte by byte.
pub fn scan_markers_scalar(buf: &[u8]) -> (markers: (Vec<usize>, Vec<usize>))
    ensures
        markers.0@ == opening_positions(buf@),
        markers.1@ == closing_positions(buf@),
{
    let mut openings: Vec<usize> = Vec::new();
    let mut closings: Vec<usize> = Vec::new();
    scan_rest(buf, 0, &mut openings, &mut closings);
    (openings, closings)
}

/// Finds the markers in chunks of `lanes` positions, each chunk matched as
/// a whole and its hits read off a bitmask; the bytes that are left when no
/// full chunk fits are walked one by one. The lane width changes how the
/// buffer is walked, never what is found.
pub fn scan_markers_simd(buf: &[u8], lanes: usize) -> (markers: (Vec<usize>, Vec<usize>))
    requires
        1 <= lanes <= 64,
    ensures
        markers.0@ == opening_positions(buf@),
        markers.1@ == closing_positions(buf@),
{
    let mut openings: Vec<usize> = Vec::new();
    let mut closings: Vec<usize> = Vec::new();
    let opening_pattern: [Option<u8>; 3] = [Some(OPEN_BRACKET), Some(OPEN_BRACKET), None];
    let closing_pattern: [Option<u8>; 3] = [Some(CLOSE_BRACKET), Some(CLOSE_BRACKET), None];
    let len = buf.len();
    let mut i: usize = 0;
    while lanes + 2 <= len && i <= len - lanes - 2
        invariant
            1 <= lanes <= 64,
            len == buf.len(),
            i <= len,
            opening_pattern@ == seq![Some(OPEN_BRACKET), Some(OPEN_BRACKET), None::<u8>],
            closing_pattern@ == seq![Some(CLOSE_BRACKET), Some(CLOSE_BRACKET), None::<u8>],
            openings@ == markers_below(buf@, i as int, true),
            closings@ == markers_below(buf@, i as int, false),
        decreases len - i,
    {
        let opening_bitmask = get_bitmask(i, buf, opening_pattern, lanes);
        let mut lane: usize = 0;
        while lane < lanes
            invariant
                1 <= lanes <= 64,
                lane <= lanes,
                len == buf.len(),
                i + lanes + 2 <= len,
                opening_pattern@ == seq![Some(OPEN_BRACKET), Some(OPEN_BRACKET), None::<u8>],
                forall|l: int|
                    0 <= l < 64 ==> (#[trigger] lane_is_set(opening_bitmask, l) <==> l < lanes
                        && fits_at(buf@, i + l, opening_pattern@)),
                openings@ == markers_below(buf@, i + lane, true),
            decreases lanes - lane,
        {
            let at = i + lane;
            proof {
                assert(lane_is_set(opening_bitmask, lane as int) <==> fits_at(
                    buf@,
                    i + lane,
                    opening_pattern@,
                ));
            }
            if lane_set(opening_bitmask, lane) && (at == 0 || buf[at - 1] == LINE_FEED) {
                openings.push(at);
            }
            lane += 1;
        }
        let closing_bitmask = get_bitmask(i, buf, closing_pattern, lanes);
        let mut lane: usize = 0;
        while lane < lanes
            invariant
                1 <= lanes <= 64,
                lane <= lanes,
                len == buf.len(),
                i + lanes + 2 <= len,
                closing_pattern@ == seq![Some(CLOSE_BRACKET), Some(CLOSE_BRACKET), None::<u8>],
                forall|l: int|
                    0 <= l < 64 ==> (#[trigger] lane_is_set(closing_bitmask, l) <==> l < lanes
                        && fits_at(buf@, i + l, closing_pattern@)),
                closings@ == markers_below(buf@, i + lane, false),
            decreases lanes - lane,
        {
            let at = i + lane;
            proof {
                assert(lane_is_set(closing_bitmask, lane as int) <==> fits_at(
                    buf@,
                    i + lane,
                    closing_pattern@,
                ));
            }
            if lane_set(closing_bitmask, lane) {
                closings.push(at);
            }
            lane += 1;
        }
        i += lanes;
    }
    scan_rest(buf, i, &mut openings, &mut closings);
    (openings, closings)
}

} // verus!
