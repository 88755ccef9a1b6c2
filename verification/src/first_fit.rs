//! First-fit claims are determined by the bitmaps: two of them for the same number of
//! wanted blocks leave the same number of blocks unclaimed.

use vstd::prelude::*;
use vstd::seq_lib::seq_to_set_is_finite;
use vstd::set_lib::lemma_len_subset;
use vstd::set_lib::lemma_subset_equality;
use crate::allocation::{first_fit_through, is_free, lemma_flatten_len};
use crate::group::{lemma_address_of_coordinates, total_length};
use crate::layout::{spec_bit_of, spec_group_of, spec_public_address};
use crate::store::{in_region, in_regions, lemma_flatten_contains, lemma_flatten_no_duplicates, lemma_valid_region_block, regions_disjoint, regions_valid, spec_flatten};

verus! {

/// Whether the regions are a first-fit claim from the bitmaps `before` with `need`
/// blocks wanted, of which `remaining` are not claimed: at most 500 valid regions of
/// free blocks, claimed first-fit within all the groups.
#[verifier::opaque]
pub open spec fn is_first_fit_claim(
    before: Seq<Seq<bool>>,
    need: nat,
    ranges: Seq<(u32, u32)>,
    remaining: nat,
) -> bool {
    &&& ranges.len() <= 500
    &&& regions_valid(ranges, before.len() as int)
    &&& total_length(ranges) + remaining == need
    &&& forall|b: int| #[trigger] in_regions(ranges, b) ==> is_free(before, b)
    &&& first_fit_through(before, before.len() as int, ranges, remaining)
}

/// Whether a first-fit claim of `need` blocks from the bitmaps `before` leaves blocks
/// unclaimed, because they cannot be had in 500 regions.
pub open spec fn spec_fragmented(before: Seq<Seq<bool>>, need: nat) -> bool {
    exists|regions: Seq<(u32, u32)>, remaining: nat|
        remaining > 0 && #[trigger] is_first_fit_claim(before, need, regions, remaining)
}

/// Regions that were claimed first-fit within all the groups, from blocks whose bits
/// were clear, are a first-fit claim.
pub proof fn lemma_is_claim(before: Seq<Seq<bool>>, need: nat, ranges: Seq<(u32, u32)>, remaining: nat)
    requires
        ranges.len() <= 500,
        regions_valid(ranges, before.len() as int),
        total_length(ranges) + remaining == need,
        forall|g: int, k: int|
            0 <= g < before.len() && 0 <= k < 32768 && in_regions(
                ranges,
                #[trigger] spec_public_address(g, k),
            ) ==> !before[g][k],
        first_fit_through(before, before.len() as int, ranges, remaining),
    ensures
        is_first_fit_claim(before, need, ranges, remaining),
{
    reveal(is_first_fit_claim);
    assert forall|b: int| #[trigger] in_regions(ranges, b) implies is_free(before, b) by {
        let j = choose|j: int| 0 <= j < ranges.len() && in_region(ranges, j, b);
        lemma_valid_region_block(ranges, before.len() as int, j, b);
        lemma_address_of_coordinates(b);
        assert(in_regions(ranges, spec_public_address(spec_group_of(b), spec_bit_of(b))));
    }
}

/// A first-fit claim that leaves no block unclaimed shows that no first-fit claim from
/// the same bitmaps for as many blocks leaves one unclaimed.
pub proof fn lemma_not_fragmented(before: Seq<Seq<bool>>, need: nat, ranges: Seq<(u32, u32)>)
    requires
        is_first_fit_claim(before, need, ranges, 0),
    ensures
        !spec_fragmented(before, need),
{
    assert forall|regions: Seq<(u32, u32)>, remaining: nat| #[trigger]
        is_first_fit_claim(before, need, regions, remaining) implies remaining == 0 by {
        lemma_first_fit_remaining_unique(before, need, ranges, 0, regions, remaining);
    }
}

/// Whether the regions come in address order, with at least one block between two of
/// them.
pub open spec fn regions_apart(ranges: Seq<(u32, u32)>) -> bool {
    forall|j: int|
        0 < j < ranges.len() ==> ranges[j - 1].0 + ranges[j - 1].1 < (#[trigger] ranges[j]).0
}

/// Of regions that come apart in address order, an earlier one ends before a later
/// one starts.
pub proof fn lemma_apart_ordered(ranges: Seq<(u32, u32)>, j1: int, j2: int)
    requires
        regions_apart(ranges),
        forall|j: int| 0 <= j < ranges.len() ==> (#[trigger] ranges[j]).1 >= 1,
        0 <= j1 < j2 < ranges.len(),
    ensures
        ranges[j1].0 + ranges[j1].1 < ranges[j2].0,
    decreases j2 - j1,
{
    assert(ranges[j2 - 1].0 + ranges[j2 - 1].1 < ranges[j2].0);
    if j1 + 1 < j2 {
        lemma_apart_ordered(ranges, j1, j2 - 1);
        assert(ranges[j2 - 1].1 >= 1);
    }
}

/// Regions that come apart in address order do not overlap.
pub proof fn lemma_apart_disjoint(ranges: Seq<(u32, u32)>)
    requires
        regions_apart(ranges),
        forall|j: int| 0 <= j < ranges.len() ==> (#[trigger] ranges[j]).1 >= 1,
    ensures
        regions_disjoint(ranges),
{
    assert forall|j1: int, j2: int, b: int|
        0 <= j1 < j2 < ranges.len() && in_region(ranges, j1, b) implies !in_region(
        ranges,
        j2,
        b,
    ) by {
        lemma_apart_ordered(ranges, j1, j2);
    }
}

/// Of two blocks in regions that come apart in address order, the lower block is in
/// no later region than the higher; and with a block between them that is in no
/// region, it is in an earlier one.
pub proof fn lemma_region_order(ranges: Seq<(u32, u32)>, j1: int, b1: int, j2: int, b2: int, between: int)
    requires
        regions_apart(ranges),
        forall|j: int| 0 <= j < ranges.len() ==> (#[trigger] ranges[j]).1 >= 1,
        0 <= j1 < ranges.len(),
        0 <= j2 < ranges.len(),
        in_region(ranges, j1, b1),
        in_region(ranges, j2, b2),
        b1 < between < b2,
        !in_regions(ranges, between),
    ensures
        j1 < j2,
{
    if j2 < j1 {
        lemma_apart_ordered(ranges, j2, j1);
    } else if j1 == j2 {
        assert(in_region(ranges, j1, between));
    }
}

/// Regions whose blocks all lie in other regions hold no more blocks than those.
pub proof fn lemma_fewer_blocks(inner: Seq<(u32, u32)>, outer: Seq<(u32, u32)>)
    requires
        regions_disjoint(inner),
        regions_disjoint(outer),
        forall|b: int| #[trigger] in_regions(inner, b) ==> in_regions(outer, b),
    ensures
        total_length(inner) <= total_length(outer),
{
    let small = spec_flatten(inner);
    let large = spec_flatten(outer);
    lemma_flatten_len(inner);
    lemma_flatten_len(outer);
    lemma_flatten_no_duplicates(inner);
    lemma_flatten_no_duplicates(outer);
    small.unique_seq_to_set();
    large.unique_seq_to_set();
    seq_to_set_is_finite(large);
    assert forall|b: int| small.to_set().contains(b) implies large.to_set().contains(b) by {
        assert(small.contains(b));
        lemma_flatten_contains(inner, b);
        lemma_flatten_contains(outer, b);
        assert(large.contains(b));
    }
    assert(small.to_set().subset_of(large.to_set()));
    lemma_len_subset(small.to_set(), large.to_set());
}

/// The index of the region in which a claimed block lies.
pub open spec fn region_of(ranges: Seq<(u32, u32)>, b: int) -> int {
    choose|j: int| 0 <= j < ranges.len() && in_region(ranges, j, b)
}

/// The shape of a first-fit claim: at most 500 regions that come apart in address
/// order, each of at least one block, which do not overlap and hold the wanted blocks
/// but for those that remain.
pub proof fn lemma_claim_shape(before: Seq<Seq<bool>>, need: nat, ranges: Seq<(u32, u32)>, remaining: nat)
    requires
        is_first_fit_claim(before, need, ranges, remaining),
    ensures
        ranges.len() <= 500,
        total_length(ranges) + remaining == need,
        regions_apart(ranges),
        regions_disjoint(ranges),
        forall|i: int| 0 <= i < ranges.len() ==> (#[trigger] ranges[i]).1 >= 1,
{
    reveal(is_first_fit_claim);
    reveal(first_fit_through);
    assert forall|i: int| 0 <= i < ranges.len() implies (#[trigger] ranges[i]).1 >= 1 by {}
    lemma_apart_disjoint(ranges);
}

/// A block that a first-fit claim holds was free.
pub proof fn lemma_claimed_free(
    before: Seq<Seq<bool>>,
    need: nat,
    ranges: Seq<(u32, u32)>,
    remaining: nat,
    b: int,
)
    requires
        is_first_fit_claim(before, need, ranges, remaining),
        in_regions(ranges, b),
    ensures
        is_free(before, b),
{
    reveal(is_first_fit_claim);
}

/// A free block below a block that a first-fit claim holds is held by the claim.
pub proof fn lemma_claim_prefix(
    before: Seq<Seq<bool>>,
    need: nat,
    ranges: Seq<(u32, u32)>,
    remaining: nat,
    lower: int,
    higher: int,
)
    requires
        is_first_fit_claim(before, need, ranges, remaining),
        is_free(before, lower),
        lower < higher,
        in_regions(ranges, higher),
    ensures
        in_regions(ranges, lower),
{
    reveal(is_first_fit_claim);
    reveal(first_fit_through);
}

/// A first-fit claim that leaves blocks unclaimed, although a free block is not
/// claimed, has 500 regions and ends before a block that is not free.
pub proof fn lemma_claim_stopped(
    before: Seq<Seq<bool>>,
    need: nat,
    ranges: Seq<(u32, u32)>,
    remaining: nat,
    extra: int,
)
    requires
        is_first_fit_claim(before, need, ranges, remaining),
        remaining > 0,
        is_free(before, extra),
        !in_regions(ranges, extra),
    ensures
        ranges.len() == 500,
        !is_free(before, ranges[499].0 + ranges[499].1),
{
    reveal(is_first_fit_claim);
    reveal(first_fit_through);
    if ranges.len() == 500 {
        assert(ranges.last() == ranges[499]);
    } else {
        assert(spec_group_of(extra) < before.len());
    }
}

/// The first block of region `j` of a first-fit claim lies, in a first-fit claim that
/// holds the blocks of the first, in a region with an index of `j` at least.
pub proof fn lemma_regions_keep_pace(
    before: Seq<Seq<bool>>,
    need: nat,
    first: Seq<(u32, u32)>,
    first_remaining: nat,
    second: Seq<(u32, u32)>,
    second_remaining: nat,
    j: int,
)
    requires
        is_first_fit_claim(before, need, first, first_remaining),
        is_first_fit_claim(before, need, second, second_remaining),
        forall|b: int| #[trigger] in_regions(first, b) ==> in_regions(second, b),
        0 <= j < first.len(),
    ensures
        in_regions(second, first[j].0 as int),
        j <= region_of(second, first[j].0 as int) < second.len(),
    decreases j,
{
    lemma_claim_shape(before, need, first, first_remaining);
    lemma_claim_shape(before, need, second, second_remaining);
    let start = first[j].0 as int;
    assert(first[j].1 >= 1);
    assert(in_region(first, j, start));
    assert(in_regions(first, start));
    assert(in_regions(second, start));
    let m = region_of(second, start);
    if j > 0 {
        lemma_regions_keep_pace(
            before,
            need,
            first,
            first_remaining,
            second,
            second_remaining,
            j - 1,
        );
        let earlier = first[j - 1].0 as int;
        let gap = first[j - 1].0 + first[j - 1].1;
        let n = region_of(second, earlier);
        assert(first[j - 1].1 >= 1);
        assert(gap < start);
        // the block after the region before is in no region of either claim
        if in_regions(second, gap) {
            lemma_claimed_free(before, need, second, second_remaining, gap);
            lemma_claim_prefix(before, need, first, first_remaining, gap, start);
            let k = choose|k: int| 0 <= k < first.len() && in_region(first, k, gap);
            if k < j - 1 {
                lemma_apart_ordered(first, k, j - 1);
            } else if k > j {
                lemma_apart_ordered(first, j, k);
            }
            assert(false);
        }
        lemma_region_order(second, n, earlier, m, start, gap);
    }
}

/// Of two first-fit claims from the same bitmaps with the same number of wanted
/// blocks, the first leaves no more blocks unclaimed than the second.
pub proof fn lemma_first_fit_not_less(
    before: Seq<Seq<bool>>,
    need: nat,
    first: Seq<(u32, u32)>,
    first_remaining: nat,
    second: Seq<(u32, u32)>,
    second_remaining: nat,
)
    requires
        is_first_fit_claim(before, need, first, first_remaining),
        is_first_fit_claim(before, need, second, second_remaining),
    ensures
        first_remaining <= second_remaining,
{
    if first_remaining > second_remaining {
        lemma_claim_shape(before, need, first, first_remaining);
        lemma_claim_shape(before, need, second, second_remaining);
        // the second claim holds a block that the first does not hold
        if forall|b: int| #[trigger] in_regions(second, b) ==> in_regions(first, b) {
            lemma_fewer_blocks(second, first);
        }
        let extra = choose|b: int| #[trigger] in_regions(second, b) && !in_regions(first, b);
        lemma_claimed_free(before, need, second, second_remaining, extra);
        // so the first claim stopped for want of regions, before a block that is not free
        lemma_claim_stopped(before, need, first, first_remaining, extra);
        let start = first[499].0 as int;
        let end = first[499].0 + first[499].1;
        assert(first[499].1 >= 1);
        assert(in_region(first, 499, end - 1));
        assert(in_regions(first, end - 1));
        if extra < end - 1 {
            lemma_claim_prefix(before, need, first, first_remaining, extra, end - 1);
        }
        assert(end < extra);
        // every block of the first claim is a free block below, and so one of the second
        assert forall|b: int| #[trigger] in_regions(first, b) implies in_regions(second, b) by {
            lemma_claimed_free(before, need, first, first_remaining, b);
            if extra < b {
                lemma_claim_prefix(before, need, first, first_remaining, extra, b);
            }
            lemma_claim_prefix(before, need, second, second_remaining, b, extra);
        }
        // the second claim has a region for each of the first, and one more
        lemma_regions_keep_pace(
            before,
            need,
            first,
            first_remaining,
            second,
            second_remaining,
            499,
        );
        let m = region_of(second, start);
        let n = region_of(second, extra);
        if in_regions(second, end) {
            lemma_claimed_free(before, need, second, second_remaining, end);
        }
        lemma_region_order(second, m, start, n, extra, end);
    }
}

/// The number of blocks that a first-fit claim leaves unclaimed is determined by the
/// bitmaps and the number of wanted blocks.
pub proof fn lemma_first_fit_remaining_unique(
    before: Seq<Seq<bool>>,
    need: nat,
    first: Seq<(u32, u32)>,
    first_remaining: nat,
    second: Seq<(u32, u32)>,
    second_remaining: nat,
)
    requires
        is_first_fit_claim(before, need, first, first_remaining),
        is_first_fit_claim(before, need, second, second_remaining),
    ensures
        first_remaining == second_remaining,
{
    lemma_first_fit_not_less(before, need, first, first_remaining, second, second_remaining);
    lemma_first_fit_not_less(before, need, second, second_remaining, first, first_remaining);
}

/// Of two first-fit claims from the same bitmaps with the same number of wanted
/// blocks, the second holds every block that the first holds.
pub proof fn lemma_first_fit_blocks_within(
    before: Seq<Seq<bool>>,
    need: nat,
    first: Seq<(u32, u32)>,
    first_remaining: nat,
    second: Seq<(u32, u32)>,
    second_remaining: nat,
    b: int,
)
    requires
        is_first_fit_claim(before, need, first, first_remaining),
        is_first_fit_claim(before, need, second, second_remaining),
        in_regions(first, b),
    ensures
        in_regions(second, b),
{
    lemma_first_fit_remaining_unique(before, need, first, first_remaining, second, second_remaining);
    lemma_claim_shape(before, need, first, first_remaining);
    lemma_claim_shape(before, need, second, second_remaining);
    if !in_regions(second, b) {
        lemma_claimed_free(before, need, first, first_remaining, b);
        // then the second claim holds only blocks of the first, and one block less
        assert forall|other: int| #[trigger] in_regions(second, other) implies in_regions(
            first,
            other,
        ) by {
            lemma_claimed_free(before, need, second, second_remaining, other);
            if b < other {
                lemma_claim_prefix(before, need, second, second_remaining, b, other);
            } else {
                lemma_claim_prefix(before, need, first, first_remaining, other, b);
            }
        }
        let small = spec_flatten(second);
        let large = spec_flatten(first);
        lemma_flatten_len(second);
        lemma_flatten_len(first);
        lemma_flatten_no_duplicates(second);
        lemma_flatten_no_duplicates(first);
        small.unique_seq_to_set();
        large.unique_seq_to_set();
        seq_to_set_is_finite(small);
        seq_to_set_is_finite(large);
        assert forall|other: int| small.to_set().contains(other) implies large.to_set().contains(
            other,
        ) by {
            assert(small.contains(other));
            lemma_flatten_contains(second, other);
            lemma_flatten_contains(first, other);
            assert(large.contains(other));
        }
        assert(small.to_set().subset_of(large.to_set()));
        lemma_subset_equality(small.to_set(), large.to_set());
        lemma_flatten_contains(first, b);
        assert(large.contains(b));
        assert(large.to_set().contains(b));
        assert(small.to_set().contains(b));
        assert(small.contains(b));
        lemma_flatten_contains(second, b);
    }
}

/// The blocks that a first-fit claim holds are determined by the bitmaps and the
/// number of wanted blocks.
pub proof fn lemma_first_fit_blocks_unique(
    before: Seq<Seq<bool>>,
    need: nat,
    first: Seq<(u32, u32)>,
    first_remaining: nat,
    second: Seq<(u32, u32)>,
    second_remaining: nat,
)
    requires
        is_first_fit_claim(before, need, first, first_remaining),
        is_first_fit_claim(before, need, second, second_remaining),
    ensures
        forall|b: int| in_regions(first, b) == in_regions(second, b),
{
    assert forall|b: int| in_regions(first, b) == in_regions(second, b) by {
        if in_regions(first, b) {
            lemma_first_fit_blocks_within(
                before,
                need,
                first,
                first_remaining,
                second,
                second_remaining,
                b,
            );
        }
        if in_regions(second, b) {
            lemma_first_fit_blocks_within(
                before,
                need,
                second,
                second_remaining,
                first,
                first_remaining,
                b,
            );
        }
    }
}

} // verus!
