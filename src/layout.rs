//! The partition layout solver.
//!
//! Hints are resolved in two passes. A forward pass places every hint up to the
//! first one without a size; a backward pass, anchored one past the last usable
//! LBA, places the remaining hints from the end and gives the size-less hint all
//! the room left between its start and the next partition.
use vstd::prelude::*;

verus! {

/// Size and offset requirements for one partition, in LBAs.
#[derive(Clone, Copy, Debug)]
pub struct PartitionLayoutHint {
    /// Fixed first LBA of the partition, if any.
    pub offset_lba: Option<usize>,
    /// Fixed size of the partition in LBAs, if any.
    pub size_lba: Option<usize>,
}

/// A resolved partition: the inclusive LBA range `start_lba..=end_lba`.
#[derive(Clone, Copy, Debug, PartialEq, Eq, Structural)]
pub struct PartitionLayout {
    /// First LBA of the partition.
    pub start_lba: usize,
    /// Last LBA of the partition, inclusive.
    pub end_lba: usize,
}

/// Why a set of hints has no layout.
#[derive(Clone, Copy, Debug, PartialEq, Eq, Structural)]
pub enum LayoutError {
    /// The usable range is empty: the first usable LBA lies past the last one.
    DeviceTooSmall,
    /// More than one hint has no size.
    MultipleUnsizedPartitions,
    /// A partition is empty, overlaps the previous one, or leaves the usable range.
    OverlapOrOutOfRange,
}

/// Number of hints without a size.
pub open spec fn unsized_count(hints: Seq<PartitionLayoutHint>) -> nat
    decreases hints.len(),
{
    if hints.len() == 0 {
        0
    } else {
        unsized_count(hints.drop_last()) + if hints.last().size_lba is None {
            1nat
        } else {
            0nat
        }
    }
}

/// Index of the first hint at or after `i` without a size, or `hints.len()` if there is none.
pub open spec fn first_unsized_from(hints: Seq<PartitionLayoutHint>, i: int) -> int
    decreases hints.len() - i,
{
    if i < 0 || i >= hints.len() {
        hints.len() as int
    } else if hints[i].size_lba is None {
        i
    } else {
        first_unsized_from(hints, i + 1)
    }
}

/// Index of the first hint without a size, or `hints.len()` if there is none.
pub open spec fn first_unsized(hints: Seq<PartitionLayoutHint>) -> int {
    first_unsized_from(hints, 0)
}

/// The fixed size of a hint, zero when it has none.
pub open spec fn hint_size(h: PartitionLayoutHint) -> int {
    match h.size_lba {
        Some(s) => s as int,
        None => 0,
    }
}

/// Start of a hint placed by the forward pass when the running cursor is `cursor`.
pub open spec fn forward_place(h: PartitionLayoutHint, cursor: int) -> int {
    match h.offset_lba {
        Some(o) => o as int,
        None => cursor,
    }
}

/// The forward pass cursor before hint `i`: one past the end of hint `i - 1`,
/// or `first` for the first hint.
pub open spec fn forward_cursor(first: int, hints: Seq<PartitionLayoutHint>, i: int) -> int
    decreases i,
{
    if i <= 0 {
        first
    } else {
        forward_place(hints[i - 1], forward_cursor(first, hints, i - 1)) + hint_size(hints[i - 1])
    }
}

/// Start of a hint placed by the backward pass, below the exclusive bound `bound`;
/// `pending` is where the forward pass left the size-less hint.
pub open spec fn backward_place(h: PartitionLayoutHint, bound: int, pending: int) -> int {
    match h.offset_lba {
        Some(o) => o as int,
        None => match h.size_lba {
            Some(s) => bound - s,
            None => pending,
        },
    }
}

/// Size of a hint placed by the backward pass at `start`, below the exclusive bound `bound`.
pub open spec fn backward_size(h: PartitionLayoutHint, bound: int, start: int) -> int {
    match h.size_lba {
        Some(s) => s as int,
        None => bound - start,
    }
}

/// The backward pass bound for hint `i`: the start of hint `i + 1`, or one past
/// `last` for the final hint.
pub open spec fn backward_bound(
    first: int,
    last: int,
    hints: Seq<PartitionLayoutHint>,
    i: int,
) -> int
    decreases hints.len() - i,
{
    if i + 1 >= hints.len() || i < 0 {
        last + 1
    } else {
        backward_place(
            hints[i + 1],
            backward_bound(first, last, hints, i + 1),
            forward_cursor(first, hints, first_unsized(hints)),
        )
    }
}

/// Resolved first LBA of hint `i`.
pub open spec fn resolved_start(
    first: int,
    last: int,
    hints: Seq<PartitionLayoutHint>,
    i: int,
) -> int {
    if i < first_unsized(hints) {
        forward_place(hints[i], forward_cursor(first, hints, i))
    } else {
        backward_place(
            hints[i],
            backward_bound(first, last, hints, i),
            forward_cursor(first, hints, first_unsized(hints)),
        )
    }
}

/// Resolved size in LBAs of hint `i`.
pub open spec fn resolved_size(
    first: int,
    last: int,
    hints: Seq<PartitionLayoutHint>,
    i: int,
) -> int {
    if i < first_unsized(hints) {
        hint_size(hints[i])
    } else {
        backward_size(
            hints[i],
            backward_bound(first, last, hints, i),
            resolved_start(first, last, hints, i),
        )
    }
}

/// Resolved last LBA (inclusive) of hint `i`.
pub open spec fn resolved_end(
    first: int,
    last: int,
    hints: Seq<PartitionLayoutHint>,
    i: int,
) -> int {
    resolved_start(first, last, hints, i) + resolved_size(first, last, hints, i) - 1
}

/// Every resolved range is non-empty and inside `first..=last`, and each starts
/// after the previous one ends.
pub open spec fn layout_valid(first: int, last: int, hints: Seq<PartitionLayoutHint>) -> bool {
    &&& forall|i: int|
        0 <= i < hints.len() ==> first <= #[trigger] resolved_start(first, last, hints, i)
            <= resolved_end(first, last, hints, i) <= last
    &&& forall|i: int|
        0 < i < hints.len() ==> resolved_end(first, last, hints, i - 1) < #[trigger] resolved_start(
            first,
            last,
            hints,
            i,
        )
}

/// What resolving `hints` within `first..=last` yields: each range as `(start, end)`, or the error.
pub open spec fn layout_outcome(first: int, last: int, hints: Seq<PartitionLayoutHint>) -> Result<
    Seq<(int, int)>,
    LayoutError,
> {
    if first > last {
        Err(LayoutError::DeviceTooSmall)
    } else if unsized_count(hints) > 1 {
        Err(LayoutError::MultipleUnsizedPartitions)
    } else if !layout_valid(first, last, hints) {
        Err(LayoutError::OverlapOrOutOfRange)
    } else {
        Ok(
            Seq::new(
                hints.len(),
                |i: int| (resolved_start(first, last, hints, i), resolved_end(first, last, hints, i)),
            ),
        )
    }
}

/// The ranges of a layout as `(start, end)` pairs.
pub open spec fn ranges_of(v: Seq<PartitionLayout>) -> Seq<(int, int)> {
    v.map_values(|l: PartitionLayout| (l.start_lba as int, l.end_lba as int))
}

/// The outcome of a call to [`build_layout`], over plain integers.
pub open spec fn outcome_of(r: Result<Vec<PartitionLayout>, LayoutError>) -> Result<
    Seq<(int, int)>,
    LayoutError,
> {
    match r {
        Ok(v) => Ok(ranges_of(v@)),
        Err(e) => Err(e),
    }
}

proof fn lemma_unsized_count_step(hints: Seq<PartitionLayoutHint>, i: int)
    requires
        0 <= i < hints.len(),
    ensures
        unsized_count(hints.take(i + 1)) == unsized_count(hints.take(i)) + if hints[i].size_lba is None {
            1nat
        } else {
            0nat
        },
{
    assert(hints.take(i + 1).drop_last() =~= hints.take(i));
}

proof fn lemma_first_unsized_skip(hints: Seq<PartitionLayoutHint>, i: int)
    requires
        0 <= i <= hints.len(),
        forall|j: int| 0 <= j < i ==> (#[trigger] hints[j]).size_lba is Some,
    ensures
        first_unsized(hints) == first_unsized_from(hints, i),
    decreases i,
{
    if i > 0 {
        lemma_first_unsized_skip(hints, i - 1);
    }
}

proof fn lemma_first_unsized_from_ge(hints: Seq<PartitionLayoutHint>, i: int)
    requires
        0 <= i <= hints.len(),
    ensures
        i <= first_unsized_from(hints, i) <= hints.len(),
    decreases hints.len() - i,
{
    if i < hints.len() {
        lemma_first_unsized_from_ge(hints, i + 1);
    }
}

/// Resolves partition hints into concrete LBA ranges within `first_usable_lba..=last_usable_lba`.
///
/// Fails with [`LayoutError::DeviceTooSmall`] when the usable range is empty, with
/// [`LayoutError::MultipleUnsizedPartitions`] when two or more hints lack a size, and with
/// [`LayoutError::OverlapOrOutOfRange`] when a resolved range is empty, overlaps its
/// predecessor or leaves the usable range.
pub fn build_layout(
    first_usable_lba: usize,
    last_usable_lba: usize,
    parts: &[PartitionLayoutHint],
) -> (r: Result<Vec<PartitionLayout>, LayoutError>)
    ensures
        outcome_of(r) == layout_outcome(first_usable_lba as int, last_usable_lba as int, parts@),
        r matches Ok(v) ==> {
            &&& v.len() == parts.len()
            &&& forall|i: int|
                0 <= i < v.len() ==> first_usable_lba <= (#[trigger] v[i]).start_lba <= v[i].end_lba
                    <= last_usable_lba
            &&& forall|i: int| 0 < i < v.len() ==> v[i - 1].end_lba < (#[trigger] v[i]).start_lba
        },
{
    let ghost hints = parts@;
    let ghost first = first_usable_lba as int;
    let ghost last = last_usable_lba as int;
    if first_usable_lba > last_usable_lba {
        return Err(LayoutError::DeviceTooSmall);
    }
    let n = parts.len();

    let mut missing: usize = 0;
    let mut i: usize = 0;
    while i < n
        invariant
            i <= n,
            n == hints.len(),
            hints == parts@,
            missing == unsized_count(hints.take(i as int)),
            missing <= i,
        decreases n - i,
    {
        proof {
            lemma_unsized_count_step(hints, i as int);
        }
        if parts[i].size_lba.is_none() {
            missing = missing + 1;
        }
        i = i + 1;
    }
    proof {
        assert(hints.take(n as int) =~= hints);
    }
    if missing > 1 {
        return Err(LayoutError::MultipleUnsizedPartitions);
    }

    // Forward pass: every hint before the first size-less one.
    let mut out: Vec<PartitionLayout> = Vec::new();
    let mut cursor: u128 = first_usable_lba as u128;
    let mut i: usize = 0;
    while i < n && parts[i].size_lba.is_some()
        invariant
            i <= n,
            n == hints.len(),
            hints == parts@,
            first == first_usable_lba,
            last == last_usable_lba,
            first <= last,
            unsized_count(hints) <= 1,
            out.len() == i,
            forall|j: int| 0 <= j < i ==> (#[trigger] hints[j]).size_lba is Some,
            cursor as int == forward_cursor(first, hints, i as int),
            first <= cursor <= last + 1,
            i > 0 ==> cursor == out[i - 1].end_lba + 1,
            i == 0 ==> cursor == first,
            forall|j: int|
                0 <= j < i ==> {
                    &&& (#[trigger] out[j]).start_lba == forward_place(
                        hints[j],
                        forward_cursor(first, hints, j),
                    )
                    &&& out[j].end_lba == out[j].start_lba + hint_size(hints[j]) - 1
                    &&& first <= out[j].start_lba <= out[j].end_lba <= last
                },
            forall|j: int| 0 < j < i ==> out[j - 1].end_lba < (#[trigger] out[j]).start_lba,
        decreases n - i,
    {
        let h = parts[i];
        let size: usize = match h.size_lba {
            Some(s) => s,
            None => 0,
        };
        let start: u128 = match h.offset_lba {
            Some(o) => o as u128,
            None => cursor,
        };
        proof {
            lemma_first_unsized_skip(hints, i as int + 1);
            lemma_first_unsized_from_ge(hints, i as int + 1);
            assert(resolved_start(first, last, hints, i as int) == start);
            assert(resolved_size(first, last, hints, i as int) == size);
            if i > 0 {
                assert(resolved_end(first, last, hints, i - 1) == out[i - 1].end_lba);
            }
        }
        if start < cursor || size == 0 || start + size as u128 - 1 > last_usable_lba as u128 {
            proof {
                assert(!layout_valid(first, last, hints)) by {
                    if i > 0 && start < cursor {
                        assert(resolved_end(first, last, hints, i - 1) >= resolved_start(
                            first,
                            last,
                            hints,
                            i as int,
                        ));
                    } else {
                        assert(!(first <= resolved_start(first, last, hints, i as int) <= resolved_end(
                            first,
                            last,
                            hints,
                            i as int,
                        ) <= last));
                    }
                }
            }
            return Err(LayoutError::OverlapOrOutOfRange);
        }
        let end: u128 = start + size as u128 - 1;
        out.push(PartitionLayout { start_lba: start as usize, end_lba: end as usize });
        cursor = end + 1;
        i = i + 1;
    }
    let u = i;
    let pending = cursor;
    proof {
        lemma_first_unsized_skip(hints, u as int);
        assert(first_unsized(hints) == u);
    }

    while out.len() < n
        invariant
            u <= out.len() <= n,
            n == hints.len(),
            forall|j: int|
                0 <= j < u ==> {
                    &&& (#[trigger] out[j]).start_lba == forward_place(
                        hints[j],
                        forward_cursor(first, hints, j),
                    )
                    &&& out[j].end_lba == out[j].start_lba + hint_size(hints[j]) - 1
                    &&& first <= out[j].start_lba <= out[j].end_lba <= last
                },
            forall|j: int| 0 < j < u ==> out[j - 1].end_lba < (#[trigger] out[j]).start_lba,
            u > 0 ==> pending == out[u - 1].end_lba + 1,
        decreases n - out.len(),
    {
        out.push(PartitionLayout { start_lba: 0, end_lba: 0 });
    }

    // Backward pass: from the last hint down to the size-less one.
    let mut bound: u128 = last_usable_lba as u128 + 1;
    let mut k: usize = n;
    while k > u
        invariant
            u <= k <= n,
            n == hints.len(),
            hints == parts@,
            out.len() == n,
            first == first_usable_lba,
            last == last_usable_lba,
            first <= last,
            first_unsized(hints) == u,
            unsized_count(hints) <= 1,
            pending as int == forward_cursor(first, hints, u as int),
            u > 0 ==> pending == out[u - 1].end_lba + 1,
            u == 0 ==> pending == first,
            pending <= last + 1,
            bound <= last + 1,
            k > 0 ==> bound as int == backward_bound(first, last, hints, k - 1),
            k < n ==> bound == out[k as int].start_lba,
            forall|j: int|
                0 <= j < u ==> {
                    &&& (#[trigger] out[j]).start_lba == forward_place(
                        hints[j],
                        forward_cursor(first, hints, j),
                    )
                    &&& out[j].end_lba == out[j].start_lba + hint_size(hints[j]) - 1
                    &&& first <= out[j].start_lba <= out[j].end_lba <= last
                },
            forall|j: int| 0 < j < u ==> out[j - 1].end_lba < (#[trigger] out[j]).start_lba,
            forall|j: int|
                k <= j < n ==> {
                    &&& (#[trigger] out[j]).start_lba == resolved_start(first, last, hints, j)
                    &&& out[j].end_lba == resolved_end(first, last, hints, j)
                    &&& first <= out[j].start_lba <= out[j].end_lba <= last
                    &&& j + 1 < n ==> out[j].end_lba < out[j + 1].start_lba
                    &&& j == u ==> out[j].start_lba >= pending
                },
        decreases k,
    {
        k = k - 1;
        let h = parts[k];
        let start: u128 = match h.offset_lba {
            Some(o) => o as u128,
            None => match h.size_lba {
                Some(s) => {
                    if s as u128 > bound {
                        proof {
                            assert(resolved_start(first, last, hints, k as int) < first);
                            assert(!layout_valid(first, last, hints));
                        }
                        return Err(LayoutError::OverlapOrOutOfRange);
                    }
                    bound - s as u128
                },
                None => pending,
            },
        };
        let size: u128 = match h.size_lba {
            Some(s) => s as u128,
            None => {
                if bound <= start {
                    proof {
                        assert(resolved_end(first, last, hints, k as int) < resolved_start(
                            first,
                            last,
                            hints,
                            k as int,
                        ));
                        assert(!layout_valid(first, last, hints));
                    }
                    return Err(LayoutError::OverlapOrOutOfRange);
                }
                bound - start
            },
        };
        proof {
            assert(resolved_start(first, last, hints, k as int) == start);
            assert(resolved_size(first, last, hints, k as int) == size);
        }
        if size == 0 || start < first_usable_lba as u128 || start + size > bound || (k == u
            && start < pending) {
            proof {
                assert(!layout_valid(first, last, hints)) by {
                    if size == 0 || start < first {
                    } else if start + size > bound {
                        if k + 1 < n {
                            assert(resolved_end(first, last, hints, k as int) >= resolved_start(
                                first,
                                last,
                                hints,
                                k + 1,
                            ));
                        } else {
                            assert(resolved_end(first, last, hints, k as int) > last);
                        }
                    } else {
                        if u > 0 {
                            assert(resolved_end(first, last, hints, k - 1) >= resolved_start(
                                first,
                                last,
                                hints,
                                k as int,
                            ));
                        }
                    }
                }
            }
            return Err(LayoutError::OverlapOrOutOfRange);
        }
        out.set(k, PartitionLayout { start_lba: start as usize, end_lba: (start + size - 1) as usize });
        bound = start;
    }

    proof {
        assert forall|j: int| 0 <= j < n implies {
            &&& (#[trigger] out[j]).start_lba == resolved_start(first, last, hints, j)
            &&& out[j].end_lba == resolved_end(first, last, hints, j)
        } by {}
        assert(layout_valid(first, last, hints)) by {
            assert forall|j: int| 0 < j < n implies resolved_end(first, last, hints, j - 1)
                < #[trigger] resolved_start(first, last, hints, j) by {
                assert(out[j - 1].end_lba < out[j].start_lba);
            }
            assert forall|j: int| 0 <= j < n implies first <= #[trigger] resolved_start(
                first,
                last,
                hints,
                j,
            ) <= resolved_end(first, last, hints, j) <= last by {
                assert(first <= out[j].start_lba);
            }
        }
        assert(ranges_of(out@) =~= Seq::new(
            hints.len(),
            |i: int| (resolved_start(first, last, hints, i), resolved_end(first, last, hints, i)),
        ));
    }
    Ok(out)
}

/// The solver is deterministic: two results that both meet the contract of
/// [`build_layout`] for the same arguments are the same result.
pub proof fn lemma_layout_deterministic(
    first: int,
    last: int,
    hints: Seq<PartitionLayoutHint>,
    r1: Result<Vec<PartitionLayout>, LayoutError>,
    r2: Result<Vec<PartitionLayout>, LayoutError>,
)
    requires
        outcome_of(r1) == layout_outcome(first, last, hints),
        outcome_of(r2) == layout_outcome(first, last, hints),
    ensures
        r1 is Ok <==> r2 is Ok,
        (r1, r2) matches (Ok(a), Ok(b)) ==> a@ == b@,
        (r1, r2) matches (Err(a), Err(b)) ==> a == b,
{
    if let (Ok(a), Ok(b)) = (r1, r2) {
        assert(ranges_of(a@) == ranges_of(b@));
        assert forall|i: int| 0 <= i < a@.len() implies a@[i] == b@[i] by {
            assert(ranges_of(a@)[i] == ranges_of(b@)[i]);
        }
        assert(a@ =~= b@);
    }
}

/// In every resolved layout each partition ends before the next one starts.
pub proof fn lemma_layout_no_overlap(first: int, last: int, hints: Seq<PartitionLayoutHint>)
    ensures
        layout_outcome(first, last, hints) matches Ok(s) ==> forall|i: int|
            0 <= i < s.len() - 1 ==> (#[trigger] s[i]).1 < s[i + 1].0,
{
    if let Ok(s) = layout_outcome(first, last, hints) {
        assert forall|i: int| 0 <= i < s.len() - 1 implies (#[trigger] s[i]).1 < s[i + 1].0 by {
            assert(resolved_end(first, last, hints, (i + 1) - 1) < resolved_start(
                first,
                last,
                hints,
                i + 1,
            ));
        }
    }
}

/// In every resolved layout each partition is non-empty and lies within `first..=last`.
pub proof fn lemma_layout_in_bounds(first: int, last: int, hints: Seq<PartitionLayoutHint>)
    ensures
        layout_outcome(first, last, hints) matches Ok(s) ==> forall|i: int|
            0 <= i < s.len() ==> first <= (#[trigger] s[i]).0 <= s[i].1 <= last,
{
    if let Ok(s) = layout_outcome(first, last, hints) {
        assert forall|i: int| 0 <= i < s.len() implies first <= (#[trigger] s[i]).0 <= s[i].1
            <= last by {
            assert(first <= resolved_start(first, last, hints, i));
        }
    }
}

/// Two or more hints without a size are always refused, once the usable range is non-empty.
pub proof fn lemma_multiple_unsized_refused(first: int, last: int, hints: Seq<PartitionLayoutHint>)
    requires
        first <= last,
        unsized_count(hints) >= 2,
    ensures
        layout_outcome(first, last, hints) == Err::<Seq<(int, int)>, LayoutError>(
            LayoutError::MultipleUnsizedPartitions,
        ),
{
}

proof fn lemma_all_sized_count(hints: Seq<PartitionLayoutHint>)
    requires
        forall|j: int| 0 <= j < hints.len() ==> (#[trigger] hints[j]).size_lba is Some,
    ensures
        unsized_count(hints) == 0,
    decreases hints.len(),
{
    if hints.len() > 0 {
        let p = hints.drop_last();
        assert forall|j: int| 0 <= j < p.len() implies (#[trigger] p[j]).size_lba is Some by {
            assert(p[j] == hints[j]);
        }
        lemma_all_sized_count(p);
    }
}

proof fn lemma_first_unsized_from_none(hints: Seq<PartitionLayoutHint>, i: int)
    requires
        0 <= i <= hints.len(),
        first_unsized_from(hints, i) == hints.len(),
    ensures
        forall|j: int| i <= j < hints.len() ==> (#[trigger] hints[j]).size_lba is Some,
    decreases hints.len() - i,
{
    if i < hints.len() {
        lemma_first_unsized_from_none(hints, i + 1);
    }
}

/// With exactly one hint without a size, a resolved layout gives that partition all
/// the room between its neighbours: it ends just before the next partition starts
/// (or at `last`), and, without a fixed offset, starts just after the previous one
/// ends (or at `first`).
pub proof fn lemma_single_unsized_fills_gap(first: int, last: int, hints: Seq<PartitionLayoutHint>)
    requires
        unsized_count(hints) == 1,
    ensures
        0 <= first_unsized(hints) < hints.len(),
        layout_outcome(first, last, hints) matches Ok(s) ==> {
            let u = first_unsized(hints);
            &&& s[u].1 == if u + 1 < s.len() {
                s[u + 1].0 - 1
            } else {
                last
            }
            &&& hints[u].offset_lba is None ==> s[u].0 == if u == 0 {
                first
            } else {
                s[u - 1].1 + 1
            }
        },
{
    let u = first_unsized(hints);
    lemma_first_unsized_from_ge(hints, 0);
    if u == hints.len() {
        lemma_first_unsized_from_none(hints, 0);
        lemma_all_sized_count(hints);
    }
    lemma_first_unsized_from_is_none(hints, 0);
}

proof fn lemma_first_unsized_from_is_none(hints: Seq<PartitionLayoutHint>, i: int)
    requires
        0 <= i <= hints.len(),
    ensures
        first_unsized_from(hints, i) < hints.len() ==> hints[first_unsized_from(hints, i)].size_lba is None,
    decreases hints.len() - i,
{
    if i < hints.len() {
        lemma_first_unsized_from_is_none(hints, i + 1);
    }
}

/// Total of the fixed sizes of the hints.
pub open spec fn sized_total(hints: Seq<PartitionLayoutHint>) -> int
    decreases hints.len(),
{
    if hints.len() == 0 {
        0
    } else {
        sized_total(hints.drop_last()) + hint_size(hints.last())
    }
}

proof fn lemma_sized_total_step(hints: Seq<PartitionLayoutHint>, i: int)
    requires
        0 <= i < hints.len(),
    ensures
        sized_total(hints.take(i + 1)) == sized_total(hints.take(i)) + hint_size(hints[i]),
{
    assert(hints.take(i + 1).drop_last() =~= hints.take(i));
}

proof fn lemma_sized_total_monotone(hints: Seq<PartitionLayoutHint>, i: int, j: int)
    requires
        0 <= i <= j <= hints.len(),
        forall|k: int| 0 <= k < hints.len() ==> hint_size(#[trigger] hints[k]) >= 0,
    ensures
        sized_total(hints.take(i)) <= sized_total(hints.take(j)),
    decreases j - i,
{
    if i < j {
        lemma_sized_total_step(hints, j - 1);
        lemma_sized_total_monotone(hints, i, j - 1);
    }
}

proof fn lemma_unsized_count_at_least_one(hints: Seq<PartitionLayoutHint>, a: int)
    requires
        0 <= a < hints.len(),
        hints[a].size_lba is None,
    ensures
        unsized_count(hints) >= 1,
    decreases hints.len(),
{
    if a < hints.len() - 1 {
        lemma_unsized_count_at_least_one(hints.drop_last(), a);
    }
}

proof fn lemma_unsized_count_at_least_two(hints: Seq<PartitionLayoutHint>, a: int, b: int)
    requires
        0 <= a < b < hints.len(),
        hints[a].size_lba is None,
        hints[b].size_lba is None,
    ensures
        unsized_count(hints) >= 2,
    decreases hints.len(),
{
    if b == hints.len() - 1 {
        lemma_unsized_count_at_least_one(hints.drop_last(), a);
    } else {
        lemma_unsized_count_at_least_two(hints.drop_last(), a, b);
    }
}

proof fn lemma_before_first_unsized(hints: Seq<PartitionLayoutHint>, i: int)
    requires
        0 <= i <= hints.len(),
    ensures
        forall|j: int|
            i <= j < first_unsized_from(hints, i) ==> (#[trigger] hints[j]).size_lba is Some,
    decreases hints.len() - i,
{
    if i < hints.len() {
        lemma_before_first_unsized(hints, i + 1);
    }
}

proof fn lemma_forward_cursor_no_offsets(first: int, hints: Seq<PartitionLayoutHint>, i: int)
    requires
        0 <= i <= hints.len(),
        forall|k: int| 0 <= k < hints.len() ==> (#[trigger] hints[k]).offset_lba is None,
    ensures
        forward_cursor(first, hints, i) == first + sized_total(hints.take(i)),
    decreases i,
{
    if i > 0 {
        lemma_forward_cursor_no_offsets(first, hints, i - 1);
        lemma_sized_total_step(hints, i - 1);
    } else {
        assert(hints.take(0) =~= Seq::<PartitionLayoutHint>::empty());
    }
}

proof fn lemma_backward_bound_no_offsets(
    first: int,
    last: int,
    hints: Seq<PartitionLayoutHint>,
    i: int,
)
    requires
        0 <= first_unsized(hints) <= i < hints.len(),
        forall|k: int| 0 <= k < hints.len() ==> (#[trigger] hints[k]).offset_lba is None,
        forall|k: int|
            first_unsized(hints) < k < hints.len() ==> (#[trigger] hints[k]).size_lba is Some,
    ensures
        backward_bound(first, last, hints, i) == last + 1 - (sized_total(hints) - sized_total(
            hints.take(i + 1),
        )),
    decreases hints.len() - i,
{
    if i + 1 < hints.len() {
        lemma_backward_bound_no_offsets(first, last, hints, i + 1);
        lemma_sized_total_step(hints, i + 1);
    } else {
        assert(hints.take(i + 1) =~= hints);
    }
}

/// One hint without a size, no fixed offsets, no fixed size of zero, and at least
/// one LBA left over once the fixed sizes are placed from `first`.
pub open spec fn single_unsized_packed(first: int, last: int, hints: Seq<PartitionLayoutHint>) -> bool {
    &&& first <= last
    &&& unsized_count(hints) == 1
    &&& forall|k: int| 0 <= k < hints.len() ==> (#[trigger] hints[k]).offset_lba is None
    &&& forall|k: int|
        0 <= k < hints.len() && (#[trigger] hints[k]).size_lba is Some ==> hint_size(hints[k]) >= 1
    &&& first + sized_total(hints) <= last
}

proof fn lemma_packed_range(first: int, last: int, hints: Seq<PartitionLayoutHint>, i: int)
    requires
        single_unsized_packed(first, last, hints),
        0 <= first_unsized(hints) < hints.len(),
        hints[first_unsized(hints)].size_lba is None,
        forall|k: int| 0 <= k < hints.len() && k != first_unsized(hints) ==> (#[trigger] hints[k]).size_lba is Some,
        0 <= i < hints.len(),
    ensures
        ({
            let u = first_unsized(hints);
            let t = sized_total(hints);
            &&& i < u ==> resolved_start(first, last, hints, i) == first + sized_total(hints.take(i))
                && resolved_end(first, last, hints, i) == first + sized_total(hints.take(i + 1)) - 1
            &&& i == u ==> resolved_start(first, last, hints, i) == first + sized_total(hints.take(i))
                && resolved_end(first, last, hints, i) == last - (t - sized_total(hints.take(i + 1)))
            &&& i > u ==> resolved_start(first, last, hints, i) == last + 1 - (t - sized_total(
                hints.take(i),
            )) && resolved_end(first, last, hints, i) == last - (t - sized_total(hints.take(i + 1)))
        }),
{
    let u = first_unsized(hints);
    lemma_sized_total_step(hints, i);
    if i <= u {
        lemma_forward_cursor_no_offsets(first, hints, i);
    }
    if i >= u {
        lemma_backward_bound_no_offsets(first, last, hints, i);
    }
}

/// With exactly one hint without a size, no fixed offsets, non-zero fixed sizes and
/// room for at least one more LBA after them, the layout always succeeds, and the
/// size-less partition gets exactly the room the others leave.
pub proof fn lemma_single_unsized_succeeds(first: int, last: int, hints: Seq<PartitionLayoutHint>)
    requires
        single_unsized_packed(first, last, hints),
    ensures
        layout_outcome(first, last, hints) matches Ok(s) && s[first_unsized(hints)].1 - s[first_unsized(
            hints,
        )].0 + 1 == last - first + 1 - sized_total(hints),
{
    let n = hints.len() as int;
    let u = first_unsized(hints);
    lemma_single_unsized_fills_gap(first, last, hints);
    lemma_first_unsized_from_is_none(hints, 0);
    lemma_before_first_unsized(hints, 0);
    assert forall|k: int| 0 <= k < n && k != u implies (#[trigger] hints[k]).size_lba is Some by {
        if k > u && hints[k].size_lba is None {
            lemma_unsized_count_at_least_two(hints, u, k);
        }
    }
    assert forall|k: int| 0 <= k < n implies hint_size(#[trigger] hints[k]) >= 0 by {}
    let t = sized_total(hints);
    assert(hints.take(n) =~= hints);
    lemma_sized_total_step(hints, u);
    assert(sized_total(hints.take(u + 1)) == sized_total(hints.take(u)));
    assert(hints.take(0) =~= Seq::<PartitionLayoutHint>::empty());

    assert forall|i: int| 0 <= i < n implies first <= #[trigger] resolved_start(
        first,
        last,
        hints,
        i,
    ) <= resolved_end(first, last, hints, i) <= last by {
        lemma_packed_range(first, last, hints, i);
        lemma_sized_total_step(hints, i);
        lemma_sized_total_monotone(hints, i + 1, n);
        lemma_sized_total_monotone(hints, 0, i);
        if i > u {
            lemma_sized_total_monotone(hints, u + 1, i);
        }
    }
    assert forall|i: int| 0 < i < n implies resolved_end(first, last, hints, i - 1)
        < #[trigger] resolved_start(first, last, hints, i) by {
        lemma_packed_range(first, last, hints, i);
        lemma_packed_range(first, last, hints, i - 1);
    }
    assert(layout_valid(first, last, hints));
    lemma_packed_range(first, last, hints, u);
}

} // verus!
