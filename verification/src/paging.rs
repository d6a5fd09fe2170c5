//! The checks a bounded, ascending stream of blocks is paged with. Every
//! height must lie in the range that was asked for, and follow the height
//! before it without a hole.
use vstd::prelude::*;

verus! {

/// What is wrong with the next height of a stream.
#[derive(Clone, Copy, Debug, PartialEq, Eq)]
pub enum HeightFault {
    /// Outside the range that the page answers.
    OutOfRange { height: u64 },
    /// Not above the height before it.
    NotAscending { previous: u64, height: u64 },
    /// Above the height that had to come next.
    Gap { expected: u64, got: u64 },
}

/// The fault of serving `height` to someone who asked for `from..=to` and has
/// been served `covered` so far; `None` if it is the height that continues the
/// stream. Where the stream starts inside the range is the server's affair.
pub open spec fn height_fault(
    covered: Option<(u64, u64)>,
    from: u64,
    to: u64,
    height: u64,
) -> Option<HeightFault> {
    if height < from || height > to {
        Some(HeightFault::OutOfRange { height })
    } else {
        match covered {
            Some((_, previous)) => if height <= previous {
                Some(HeightFault::NotAscending { previous, height })
            } else if height != previous + 1 {
                Some(HeightFault::Gap { expected: (previous + 1) as u64, got: height })
            } else {
                None
            },
            None => None,
        }
    }
}

/// Judges the next height of a stream.
pub fn check_height(covered: Option<(u64, u64)>, from: u64, to: u64, height: u64) -> (r: Option<
    HeightFault,
>)
    ensures
        r == height_fault(covered, from, to, height),
        r is None <==> from <= height <= to && (covered matches Some((_, previous)) ==> height
            == previous + 1),
{
    if height < from || height > to {
        return Some(HeightFault::OutOfRange { height });
    }
    match covered {
        Some((_, previous)) => {
            if height <= previous {
                Some(HeightFault::NotAscending { previous, height })
            } else if height != previous + 1 {
                Some(HeightFault::Gap { expected: previous + 1, got: height })
            } else {
                None
            }
        },
        None => None,
    }
}

/// The range covered once `height` has been taken in.
pub open spec fn extended(covered: Option<(u64, u64)>, height: u64) -> Option<(u64, u64)> {
    match covered {
        Some((first, _)) => Some((first, height)),
        None => Some((height, height)),
    }
}

/// The range covered once `height` has been taken in.
pub fn extend(covered: Option<(u64, u64)>, height: u64) -> (r: Option<(u64, u64)>)
    ensures
        r == extended(covered, height),
{
    match covered {
        Some((first, _)) => Some((first, height)),
        None => Some((height, height)),
    }
}

/// What a page of `heights` comes to.
pub struct Walk {
    /// The range covered after the heights that were taken in.
    pub covered: Option<(u64, u64)>,
    /// How many heights were taken in: all, or those before the first fault.
    pub taken: nat,
    /// The first fault.
    pub fault: Option<HeightFault>,
}

/// Takes `heights` in one by one, up to the first that is at fault.
pub open spec fn walk(covered: Option<(u64, u64)>, from: u64, to: u64, heights: Seq<u64>) -> Walk
    decreases heights.len(),
{
    if heights.len() == 0 {
        Walk { covered, taken: 0, fault: None }
    } else {
        match height_fault(covered, from, to, heights[0]) {
            Some(fault) => Walk { covered, taken: 0, fault: Some(fault) },
            None => {
                let rest = walk(extended(covered, heights[0]), from, to, heights.skip(1));
                Walk { covered: rest.covered, taken: rest.taken + 1, fault: rest.fault }
            },
        }
    }
}

/// A page without a fault holds consecutive heights inside the range, which
/// continue what was covered before; afterwards the range covered reaches to
/// the last of them, and no further.
pub proof fn law_faultless_page_is_contiguous(
    covered: Option<(u64, u64)>,
    from: u64,
    to: u64,
    heights: Seq<u64>,
)
    requires
        walk(covered, from, to, heights).fault is None,
        heights.len() > 0,
    ensures
        walk(covered, from, to, heights).taken == heights.len(),
        forall|i: int| 0 <= i < heights.len() ==> #[trigger] heights[i] == heights[0] + i,
        forall|i: int| 0 <= i < heights.len() ==> from <= #[trigger] heights[i] <= to,
        covered matches Some((_, previous)) ==> heights[0] == previous + 1,
        walk(covered, from, to, heights).covered == Some(
            ((match covered {
                Some((first, _)) => first,
                None => heights[0],
            }), heights.last()),
        ),
    decreases heights.len(),
{
    reveal_with_fuel(walk, 2);
    let rest = heights.skip(1);
    if rest.len() > 0 {
        law_faultless_page_is_contiguous(extended(covered, heights[0]), from, to, rest);
        assert forall|i: int| 0 <= i < heights.len() implies #[trigger] heights[i] == heights[0] + i
            && from <= heights[i] <= to by {
            if i > 0 {
                assert(heights[i] == rest[i - 1]);
            }
        }
    }
}

/// A page is refused only for a hole, a height served again or one outside the
/// range: consecutive heights inside the range, which continue what was covered
/// before, are all taken in. The first height that is none of these is the one
/// that is refused, and it is told apart by how it fails.
pub proof fn law_a_contiguous_page_is_taken(
    covered: Option<(u64, u64)>,
    from: u64,
    to: u64,
    heights: Seq<u64>,
)
    requires
        forall|i: int| 0 <= i < heights.len() ==> #[trigger] heights[i] == heights[0] + i,
        forall|i: int| 0 <= i < heights.len() ==> from <= #[trigger] heights[i] <= to,
        heights.len() > 0 ==> (covered matches Some((_, previous)) ==> heights[0] == previous + 1),
    ensures
        walk(covered, from, to, heights).fault is None,
        walk(covered, from, to, heights).taken == heights.len(),
        heights.len() == 0 ==> walk(covered, from, to, heights).covered == covered,
        forall|height: u64| #[trigger]
            height_fault(covered, from, to, height) matches Some(fault) ==> match fault {
                HeightFault::OutOfRange { height: h } => h == height && !(from <= h <= to),
                HeightFault::NotAscending { previous, height: h } => h == height && covered is Some
                    && previous == (covered->0).1 && h <= previous,
                HeightFault::Gap { expected, got } => got == height && covered is Some && expected
                    == (covered->0).1 + 1 && got > expected,
            },
    decreases heights.len(),
{
    if heights.len() > 0 {
        let rest = heights.skip(1);
        assert(heights[0] == heights[0] + 0);
        assert forall|i: int| 0 <= i < rest.len() implies #[trigger] rest[i] == rest[0] + i && from
            <= rest[i] <= to by {
            assert(rest[i] == heights[i + 1] && rest[0] == heights[1]);
        }
        if rest.len() > 0 {
            assert(rest[0] == heights[1]);
        }
        law_a_contiguous_page_is_taken(extended(covered, heights[0]), from, to, rest);
    }
}

/// Whether the range `covered` contains the range `wanted` at both ends.
pub open spec fn contains_range(covered: Option<(u64, u64)>, wanted: (u64, u64)) -> bool {
    covered matches Some((from, to)) && from <= wanted.0 && to >= wanted.1
}

/// Whether the range `covered` contains the range `wanted` at both ends.
pub fn range_contains(covered: Option<(u64, u64)>, wanted: (u64, u64)) -> (r: bool)
    ensures
        r == contains_range(covered, wanted),
        r <==> covered is Some && (covered->0).0 <= wanted.0 && wanted.1 <= (covered->0).1,
{
    match covered {
        Some((from, to)) => from <= wanted.0 && to >= wanted.1,
        None => false,
    }
}

/// The smallest range that contains every range of `ranges` that is there;
/// `None` if none is.
pub open spec fn widest(ranges: Seq<Option<(u64, u64)>>) -> Option<(u64, u64)>
    decreases ranges.len(),
{
    if ranges.len() == 0 {
        None
    } else {
        match (widest(ranges.drop_last()), ranges.last()) {
            (None, r) => r,
            (w, None) => w,
            (Some((a, b)), Some((c, d))) => Some(
                (if c < a {
                    c
                } else {
                    a
                }, if d > b {
                    d
                } else {
                    b
                }),
            ),
        }
    }
}

/// The union of the height ranges that several scans' outputs came from: the
/// range that the nullifier stream must cover before a figure may be quoted.
pub fn widest_range(ranges: &[Option<(u64, u64)>]) -> (r: Option<(u64, u64)>)
    ensures
        r == widest(ranges@),
{
    let mut r: Option<(u64, u64)> = None;
    let mut i: usize = 0;
    assert(ranges@.take(0) =~= Seq::empty());
    while i < ranges.len()
        invariant
            i <= ranges@.len(),
            r == widest(ranges@.take(i as int)),
        decreases ranges@.len() - i,
    {
        let next = ranges[i];
        assert(ranges@.take(i + 1).drop_last() =~= ranges@.take(i as int));
        r = match (r, next) {
            (None, n) => n,
            (w, None) => w,
            (Some((a, b)), Some((c, d))) => {
                let lo: u64 = if c < a { c } else { a };
                let hi: u64 = if d > b { d } else { b };
                Some((lo, hi))
            },
        };
        i += 1;
    }
    assert(ranges@.take(ranges@.len() as int) =~= ranges@);
    r
}

/// The widest range contains each of the ranges, and starts and ends where
/// one of them does.
pub proof fn law_widest_range_is_the_union(ranges: Seq<Option<(u64, u64)>>)
    ensures
        forall|i: int|
            0 <= i < ranges.len() && (#[trigger] ranges[i]) is Some ==> contains_range(
                widest(ranges),
                ranges[i]->0,
            ),
        widest(ranges) is None <==> forall|i: int|
            0 <= i < ranges.len() ==> (#[trigger] ranges[i]) is None,
        widest(ranges) matches Some((a, b)) ==> {
            &&& exists|i: int| 0 <= i < ranges.len() && #[trigger] ranges[i] is Some && (ranges[i]->0).0 == a
            &&& exists|i: int| 0 <= i < ranges.len() && #[trigger] ranges[i] is Some && (ranges[i]->0).1 == b
        },
    decreases ranges.len(),
{
    if ranges.len() > 0 {
        let front = ranges.drop_last();
        law_widest_range_is_the_union(front);
        assert(forall|i: int| 0 <= i < front.len() ==> front[i] == #[trigger] ranges[i]);
        assert(ranges.last() == ranges[ranges.len() - 1]);
        if let Some((a, b)) = widest(front) {
            let i = choose|i: int|
                0 <= i < front.len() && #[trigger] front[i] is Some && (front[i]->0).0 == a;
            let j = choose|i: int|
                0 <= i < front.len() && #[trigger] front[i] is Some && (front[i]->0).1 == b;
            assert(ranges[i] == front[i] && ranges[j] == front[j]);
        }
        if widest(ranges) is None {
            assert forall|i: int| 0 <= i < ranges.len() implies (#[trigger] ranges[i]) is None by {
                if i < front.len() {
                    assert(front[i] is None);
                }
            }
        } else if forall|i: int| 0 <= i < ranges.len() ==> (#[trigger] ranges[i]) is None {
            assert forall|i: int| 0 <= i < front.len() implies (#[trigger] front[i]) is None by {
                assert(ranges[i] is None);
            }
        }
    }
}

/// A range contains the widest of several exactly if it contains each of them.
pub proof fn lemma_widest_covered(
    covered: Option<(u64, u64)>,
    ranges: Seq<Option<(u64, u64)>>,
)
    ensures
        (widest(ranges) is None || contains_range(covered, widest(ranges)->0)) <==> (forall|i: int|
            0 <= i < ranges.len() && (#[trigger] ranges[i]) is Some ==> contains_range(
                covered,
                ranges[i]->0,
            )),
{
    law_widest_range_is_the_union(ranges);
    if let Some((a, b)) = widest(ranges) {
        let i = choose|i: int|
            0 <= i < ranges.len() && #[trigger] ranges[i] is Some && (ranges[i]->0).0 == a;
        let j = choose|i: int|
            0 <= i < ranges.len() && #[trigger] ranges[i] is Some && (ranges[i]->0).1 == b;
        if forall|k: int|
            0 <= k < ranges.len() && (#[trigger] ranges[k]) is Some ==> contains_range(
                covered,
                ranges[k]->0,
            ) {
            assert(contains_range(covered, ranges[i]->0));
            assert(contains_range(covered, ranges[j]->0));
        }
    }
}

} // verus!
