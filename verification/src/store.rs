//! Payloads in data blocks: the regions of an inode as a list of blocks, and reading
//! and writing a payload through the keystream, block by block.

use vstd::prelude::*;
use vstd::slice::*;
use crate::codec::write_at;
use crate::layout::{is_data_address, spec_bit_of, spec_group_of};
use crate::util::{Checksum, encrypt};

verus! {

/// The bytes of the block with address `block_index`.
pub open spec fn spec_block(image: Seq<u8>, block_index: int) -> Seq<u8> {
    image.subrange(block_index * 4096, block_index * 4096 + 4096)
}

/// Number of bytes of an image of `group_count` groups.
pub open spec fn spec_image_len(group_count: int) -> int {
    4096 + group_count * 134_221_824
}

/// Whether each region is a run of at least one data block within one group of an
/// image of `group_count` groups.
pub open spec fn regions_valid(regions: Seq<(u32, u32)>, group_count: int) -> bool {
    forall|j: int|
        0 <= j < regions.len() ==> {
            &&& (#[trigger] regions[j]).1 >= 1
            &&& is_data_address(regions[j].0 as int)
            &&& spec_group_of(regions[j].0 as int) < group_count
            &&& spec_bit_of(regions[j].0 as int) + regions[j].1 <= 32768
        }
}

/// Whether block `block_index` lies in region `j`.
pub open spec fn in_region(regions: Seq<(u32, u32)>, j: int, block_index: int) -> bool {
    regions[j].0 <= block_index < regions[j].0 + regions[j].1
}

/// Whether block `block_index` lies in one of the regions.
pub open spec fn in_regions(regions: Seq<(u32, u32)>, block_index: int) -> bool {
    exists|j: int| 0 <= j < regions.len() && in_region(regions, j, block_index)
}

/// Whether no block lies in two of the regions.
pub open spec fn regions_disjoint(regions: Seq<(u32, u32)>) -> bool {
    forall|j1: int, j2: int, block_index: int|
        0 <= j1 < j2 < regions.len() && in_region(regions, j1, block_index) ==> !in_region(
            regions,
            j2,
            block_index,
        )
}

/// The blocks of the regions, in payload order.
pub open spec fn spec_flatten(regions: Seq<(u32, u32)>) -> Seq<int>
    decreases regions.len(),
{
    if regions.len() == 0 {
        Seq::empty()
    } else {
        spec_flatten(regions.drop_last()) + Seq::new(
            regions.last().1 as nat,
            |i: int| regions.last().0 + i,
        )
    }
}

/// Number of payload bytes that `count` blocks hold of a payload of `size` bytes.
pub open spec fn spec_stored_len(count: int, size: int) -> int {
    if size <= count * 4096 {
        size
    } else {
        count * 4096
    }
}

/// The payload of `size` bytes that lies in `blocks`: byte `i` is byte `i mod 4096` of
/// block `i / 4096` of the list, XORed with the same byte of the keystream table.
pub open spec fn spec_read_blocks(image: Seq<u8>, table: Seq<u8>, blocks: Seq<int>, size: int) -> Seq<
    u8,
> {
    Seq::new(
        spec_stored_len(blocks.len() as int, size) as nat,
        |i: int| image[blocks[i / 4096] * 4096 + i % 4096] ^ table[i % 4096],
    )
}

/// The blocks of a list of regions are those of its first regions followed by those
/// of its last.
pub proof fn lemma_flatten_push(regions: Seq<(u32, u32)>, region: (u32, u32))
    ensures
        spec_flatten(regions.push(region)) == spec_flatten(regions) + Seq::new(
            region.1 as nat,
            |i: int| region.0 + i,
        ),
{
    assert(regions.push(region).drop_last() =~= regions);
}

/// A block is in the flattened list exactly when it lies in one of the regions.
pub proof fn lemma_flatten_contains(regions: Seq<(u32, u32)>, block_index: int)
    ensures
        spec_flatten(regions).contains(block_index) == in_regions(regions, block_index),
    decreases regions.len(),
{
    if regions.len() == 0 {
    } else {
        let front = regions.drop_last();
        let last = regions.last();
        let run = Seq::new(last.1 as nat, |i: int| last.0 + i);
        lemma_flatten_contains(front, block_index);
        let flat = spec_flatten(regions);
        if flat.contains(block_index) {
            let k = choose|k: int| 0 <= k < flat.len() && flat[k] == block_index;
            if k < spec_flatten(front).len() {
                assert(spec_flatten(front)[k] == block_index);
                assert(spec_flatten(front).contains(block_index));
                let j = choose|j: int| 0 <= j < front.len() && in_region(front, j, block_index);
                assert(in_region(regions, j, block_index));
            } else {
                assert(run[k - spec_flatten(front).len()] == block_index);
                assert(in_region(regions, regions.len() - 1, block_index));
            }
        }
        if in_regions(regions, block_index) {
            let j = choose|j: int| 0 <= j < regions.len() && in_region(regions, j, block_index);
            if j < front.len() {
                assert(in_region(front, j, block_index));
                assert(in_regions(front, block_index));
                let k = choose|k: int|
                    0 <= k < spec_flatten(front).len() && spec_flatten(front)[k] == block_index;
                assert(flat[k] == block_index);
            } else {
                let k = spec_flatten(front).len() + (block_index - last.0);
                assert(run[block_index - last.0] == block_index);
                assert(flat[k] == block_index);
            }
        }
    }
}

/// Regions that do not overlap list no block twice.
pub proof fn lemma_flatten_no_duplicates(regions: Seq<(u32, u32)>)
    requires
        regions_disjoint(regions),
    ensures
        spec_flatten(regions).no_duplicates(),
    decreases regions.len(),
{
    if regions.len() > 0 {
        let front = regions.drop_last();
        let last = regions.last();
        let run = Seq::new(last.1 as nat, |i: int| last.0 + i);
        assert forall|j1: int, j2: int, b: int|
            0 <= j1 < j2 < front.len() && in_region(front, j1, b) implies !in_region(
            front,
            j2,
            b,
        ) by {
            assert(in_region(regions, j1, b));
            assert(!in_region(regions, j2, b));
        }
        lemma_flatten_no_duplicates(front);
        let flat = spec_flatten(regions);
        let split = spec_flatten(front).len() as int;
        assert forall|k1: int, k2: int| 0 <= k1 < k2 < flat.len() implies flat[k1] != flat[k2] by {
            if k2 < split {
                assert(spec_flatten(front)[k1] != spec_flatten(front)[k2]);
            } else if k1 >= split {
                assert(run[k1 - split] != run[k2 - split]);
            } else {
                let b = flat[k1];
                assert(spec_flatten(front)[k1] == b);
                assert(spec_flatten(front).contains(b));
                lemma_flatten_contains(front, b);
                let j = choose|j: int| 0 <= j < front.len() && in_region(front, j, b);
                assert(in_region(regions, j, b));
                assert(!in_region(regions, regions.len() - 1, b));
                assert(run[k2 - split] == flat[k2]);
            }
        }
    }
}

/// Every block of valid regions is a data block of the image, in the group and at the
/// bit that its region gives it.
pub proof fn lemma_valid_region_block(regions: Seq<(u32, u32)>, group_count: int, j: int, b: int)
    requires
        regions_valid(regions, group_count),
        0 <= j < regions.len(),
        in_region(regions, j, b),
    ensures
        is_data_address(b),
        spec_group_of(b) == spec_group_of(regions[j].0 as int),
        spec_bit_of(b) == spec_bit_of(regions[j].0 as int) + (b - regions[j].0),
        0 <= spec_group_of(b) < group_count,
        2 <= b,
        b * 4096 + 4096 <= spec_image_len(group_count),
{
    assert(regions[j].1 >= 1);
}

/// Every block in the flattened list of valid regions is a data block of the image.
pub proof fn lemma_flatten_valid(regions: Seq<(u32, u32)>, group_count: int, k: int)
    requires
        regions_valid(regions, group_count),
        group_count <= 31,
        0 <= k < spec_flatten(regions).len(),
    ensures
        is_data_address(spec_flatten(regions)[k]),
        0 <= spec_group_of(spec_flatten(regions)[k]) < group_count,
        2 <= spec_flatten(regions)[k] <= 1_015_839,
        spec_flatten(regions)[k] * 4096 + 4096 <= spec_image_len(group_count),
{
    let b = spec_flatten(regions)[k];
    assert(spec_flatten(regions).contains(b));
    lemma_flatten_contains(regions, b);
    let j = choose|j: int| 0 <= j < regions.len() && in_region(regions, j, b);
    lemma_valid_region_block(regions, group_count, j, b);
}

/// Whether each region is a run of at least one data block within one group of an
/// image of `group_count` groups.
pub fn check_regions(regions: &Vec<(u32, u32)>, group_count: u32) -> (valid: bool)
    ensures
        valid == regions_valid(regions@, group_count as int),
{
    let mut j: usize = 0;
    while j < regions.len()
        invariant
            j <= regions@.len(),
            regions_valid(regions@.subrange(0, j as int), group_count as int),
        decreases regions@.len() - j,
    {
        let (start, length) = regions[j];
        let good = start >= 2 && length >= 1 && (start - 2) % 32769 < 32768 && (start - 2) / 32769
            < group_count && ((start - 2) % 32769) as u64 + length as u64 <= 32768;
        if !good {
            assert(!regions_valid(regions@, group_count as int)) by {
                if regions_valid(regions@, group_count as int) {
                    assert(regions@[j as int].1 >= 1);
                }
            }
            return false;
        }
        proof {
            let shorter = regions@.subrange(0, j as int);
            let longer = regions@.subrange(0, j + 1);
            assert forall|i: int| 0 <= i < longer.len() implies {
                &&& (#[trigger] longer[i]).1 >= 1
                &&& is_data_address(longer[i].0 as int)
                &&& spec_group_of(longer[i].0 as int) < group_count
                &&& spec_bit_of(longer[i].0 as int) + longer[i].1 <= 32768
            } by {
                if i < j {
                    assert(shorter[i].1 >= 1);
                }
            }
        }
        j += 1;
    }
    assert(regions@.subrange(0, j as int) =~= regions@);
    true
}

/// Lists the blocks of the regions in payload order.
pub fn flatten_regions(regions: &Vec<(u32, u32)>, group_count: u32) -> (blocks: Vec<u32>)
    requires
        regions_valid(regions@, group_count as int),
        group_count <= 31,
    ensures
        blocks@.len() == spec_flatten(regions@).len(),
        forall|k: int| 0 <= k < blocks@.len() ==> blocks@[k] == spec_flatten(regions@)[k],
{
    let mut blocks: Vec<u32> = Vec::new();
    let mut j: usize = 0;
    while j < regions.len()
        invariant
            j <= regions@.len(),
            regions_valid(regions@, group_count as int),
            group_count <= 31,
            blocks@.len() == spec_flatten(regions@.subrange(0, j as int)).len(),
            forall|k: int|
                0 <= k < blocks@.len() ==> blocks@[k] == spec_flatten(regions@.subrange(0, j as int))[k],
        decreases regions@.len() - j,
    {
        let (start, length) = regions[j];
        let ghost front = spec_flatten(regions@.subrange(0, j as int));
        proof {
            assert(regions@[j as int].1 >= 1);
            lemma_valid_region_block(regions@, group_count as int, j as int, start as int);
            lemma_flatten_push(regions@.subrange(0, j as int), (start, length));
            assert(regions@.subrange(0, j + 1) =~= regions@.subrange(0, j as int).push(
                (start, length),
            ));
        }
        let mut t: u32 = 0;
        while t < length
            invariant
                t <= length,
                start as int + length as int <= 1_048_575,
                blocks@.len() == front.len() + t,
                forall|k: int| 0 <= k < front.len() ==> blocks@[k] == front[k],
                forall|k: int|
                    front.len() <= k < front.len() + t ==> blocks@[k] == start + (k - front.len()),
            decreases length - t,
        {
            blocks.push(start + t);
            t += 1;
        }
        j += 1;
    }
    assert(regions@.subrange(0, j as int) =~= regions@);
    blocks
}

/// Appends to `w` the payload of `size` bytes that lies in `blocks`, decoded with the
/// keystream table, and feeds it to `checksum`.
pub fn read_blocks(
    image: &[u8],
    table: &Vec<u8>,
    blocks: &Vec<u32>,
    size: u64,
    w: &mut Vec<u8>,
    checksum: &mut Checksum,
)
    requires
        table@.len() == 4096,
        forall|k: int| 0 <= k < blocks@.len() ==> (#[trigger] blocks@[k]) * 4096 + 4096 <= image@.len(),
    ensures
        final(w)@ == old(w)@ + spec_read_blocks(
            image@,
            table@,
            blocks@.map_values(|b: u32| b as int),
            size as int,
        ),
        final(checksum)@ == old(checksum)@ + spec_read_blocks(
            image@,
            table@,
            blocks@.map_values(|b: u32| b as int),
            size as int,
        ),
{
    let ghost flat = blocks@.map_values(|b: u32| b as int);
    let ghost payload = spec_read_blocks(image@, table@, flat, size as int);
    let total = image.len();
    let mut left: u64 = size;
    let mut k: usize = 0;
    assert(payload.subrange(0, 0) =~= Seq::<u8>::empty());
    assert(old(w)@ + Seq::<u8>::empty() =~= old(w)@);
    assert(old(checksum)@ + Seq::<u8>::empty() =~= old(checksum)@);
    while k < blocks.len()
        invariant
            k <= blocks@.len(),
            table@.len() == 4096,
            image@.len() == total,
            flat == blocks@.map_values(|b: u32| b as int),
            payload == spec_read_blocks(image@, table@, flat, size as int),
            forall|k: int|
                0 <= k < blocks@.len() ==> (#[trigger] blocks@[k]) * 4096 + 4096 <= image@.len(),
            size - left == spec_stored_len(k as int, size as int),
            w@ == old(w)@ + payload.subrange(0, size - left),
            checksum@ == old(checksum)@ + payload.subrange(0, size - left),
        decreases blocks@.len() - k,
    {
        let chunk_len: usize = if left < 4096 { left as usize } else { 4096 };
        let block_index = blocks[k];
        assert(blocks@[k as int] * 4096 + 4096 <= image@.len());
        let offset: usize = block_index as usize * 4096;
        let mut chunk: Vec<u8> = Vec::new();
        let stored = slice_subrange(image, offset, offset + chunk_len);
        let mut i: usize = 0;
        while i < chunk_len
            invariant
                i <= chunk_len,
                stored@.len() == chunk_len,
                chunk@ == stored@.subrange(0, i as int),
            decreases chunk_len - i,
        {
            chunk.push(stored[i]);
            assert(chunk@ =~= stored@.subrange(0, i + 1));
            i += 1;
        }
        assert(chunk@ =~= stored@);
        encrypt(chunk.as_mut_slice(), table);
        let ghost done = (size - left) as int;
        proof {
            assert(flat[k as int] == block_index);
            assert forall|i: int| 0 <= i < chunk_len implies chunk@[i] == payload[done + i] by {
                assert(done == k * 4096);
                assert((done + i) / 4096 == k);
                assert((done + i) % 4096 == i);
                assert(stored@[i] == image@[offset + i]);
            }
            assert(payload.subrange(0, done + chunk_len) =~= payload.subrange(0, done) + chunk@);
        }
        checksum.update(chunk.as_slice());
        let ghost so_far = w@;
        w.append(&mut chunk);
        proof {
            assert(w@ =~= old(w)@ + payload.subrange(0, done + chunk_len));
            assert(checksum@ =~= old(checksum)@ + payload.subrange(0, done + chunk_len));
        }
        left = left - chunk_len as u64;
        k += 1;
    }
    assert(payload.subrange(0, size - left) =~= payload);
}

/// The position in the image of byte `i` of a payload that lies in `blocks`.
pub open spec fn spec_payload_position(blocks: Seq<u32>, i: int) -> int {
    blocks[i / 4096] * 4096 + i % 4096
}

/// Whether byte `position` of the image holds a byte of a payload of `len` bytes that
/// lies in `blocks`.
pub open spec fn holds_payload(blocks: Seq<u32>, len: int, position: int) -> bool {
    exists|i: int| 0 <= i < len && #[trigger] spec_payload_position(blocks, i) == position
}

/// Writes `data` into `blocks`, 4096 bytes to a block and the rest into the last
/// one, each byte XORed with its byte of the keystream table. No other byte of the
/// image changes, and the payload reads back from the blocks.
pub fn write_blocks(image: &mut Vec<u8>, table: &Vec<u8>, blocks: &Vec<u32>, data: &[u8])
    requires
        table@.len() == 4096,
        data@.len() <= blocks@.len() * 4096,
        blocks@.no_duplicates(),
        forall|k: int|
            0 <= k < blocks@.len() ==> (#[trigger] blocks@[k]) * 4096 + 4096 <= old(image)@.len(),
    ensures
        final(image)@.len() == old(image)@.len(),
        spec_read_blocks(
            final(image)@,
            table@,
            blocks@.map_values(|b: u32| b as int),
            data@.len() as int,
        ) == data@,
        forall|i: int|
            0 <= i < data@.len() ==> final(image)@[#[trigger] spec_payload_position(blocks@, i)]
                == data@[i] ^ table@[i % 4096],
        forall|p: int|
            0 <= p < old(image)@.len() && !holds_payload(blocks@, data@.len() as int, p)
                ==> final(image)@[p] == old(image)@[p],
        forall|b: int|
            0 <= b && b * 4096 + 4096 <= old(image)@.len() && !blocks@.map_values(
                |b: u32| b as int,
            ).contains(b) ==> spec_block(final(image)@, b) == spec_block(old(image)@, b),
{
    let ghost flat = blocks@.map_values(|b: u32| b as int);
    let total = image.len();
    let data_len = data.len();
    let needed: usize = data_len / 4096 + if data_len % 4096 != 0 { 1usize } else { 0usize };
    let mut k: usize = 0;
    while k < needed
        invariant
            k <= needed <= blocks@.len(),
            data@.len() == data_len,
            needed * 4096 >= data@.len(),
            (needed - 1) * 4096 < data@.len() || needed == 0,
            table@.len() == 4096,
            image@.len() == total,
            total == old(image)@.len(),
            data@.len() <= blocks@.len() * 4096,
            blocks@.no_duplicates(),
            flat == blocks@.map_values(|b: u32| b as int),
            forall|k: int| 0 <= k < blocks@.len() ==> (#[trigger] blocks@[k]) * 4096 + 4096 <= total,
            forall|i: int|
                0 <= i < spec_stored_len(k as int, data@.len() as int) ==> image@[blocks@[i / 4096]
                    * 4096 + i % 4096] == data@[i] ^ table@[i % 4096],
            forall|p: int|
                0 <= p < total && !holds_payload(
                    blocks@,
                    spec_stored_len(k as int, data@.len() as int),
                    p,
                ) ==> image@[p] == old(image)@[p],
        decreases blocks@.len() - k,
    {
        let start: usize = k * 4096;
        let chunk_len: usize = if data.len() - start < 4096 { data.len() - start } else { 4096 };
        let mut chunk: Vec<u8> = Vec::new();
        let plain = slice_subrange(data, start, start + chunk_len);
        let mut i: usize = 0;
        while i < chunk_len
            invariant
                i <= chunk_len,
                plain@.len() == chunk_len,
                chunk@ == plain@.subrange(0, i as int),
            decreases chunk_len - i,
        {
            chunk.push(plain[i]);
            assert(chunk@ =~= plain@.subrange(0, i + 1));
            i += 1;
        }
        assert(chunk@ =~= plain@);
        encrypt(chunk.as_mut_slice(), table);
        let block_index = blocks[k];
        assert(blocks@[k as int] * 4096 + 4096 <= total);
        let offset: usize = block_index as usize * 4096;
        let ghost before = image@;
        write_at(image, offset, chunk.as_slice());
        proof {
            let done = spec_stored_len(k as int, data@.len() as int);
            assert(done == k * 4096);
            assert forall|i: int|
                0 <= i < spec_stored_len(k + 1, data@.len() as int) implies image@[blocks@[i / 4096]
                * 4096 + i % 4096] == data@[i] ^ table@[i % 4096] by {
                let m = i / 4096;
                let p = blocks@[m] * 4096 + i % 4096;
                if m < k {
                    assert(blocks@[m] != blocks@[k as int]);
                    assert(before[p] == data@[i] ^ table@[i % 4096]);
                    assert(image@[p] == before[p]);
                } else {
                    assert(m == k);
                    assert(p == offset + (i - start));
                    assert(chunk@[i - start] == plain@[i - start] ^ table@[i - start]);
                    assert(plain@[i - start] == data@[i]);
                }
            }
            assert forall|p: int|
                0 <= p < total && !holds_payload(
                    blocks@,
                    spec_stored_len(k + 1, data@.len() as int),
                    p,
                ) implies image@[p] == old(image)@[p] by {
                if offset <= p < offset + chunk_len {
                    let i = start + (p - offset);
                    assert(spec_payload_position(blocks@, i) == p);
                }
                if holds_payload(blocks@, done, p) {
                    let i = choose|i: int|
                        0 <= i < done && #[trigger] spec_payload_position(blocks@, i) == p;
                    assert(0 <= i < spec_stored_len(k + 1, data@.len() as int));
                }
                assert(image@[p] == before[p]);
            }
        }
        k += 1;
    }
    proof {
        let payload = spec_read_blocks(image@, table@, flat, data@.len() as int);
        assert(spec_stored_len(blocks@.len() as int, data@.len() as int) == data@.len());
        assert(spec_stored_len(k as int, data@.len() as int) == data@.len());
        assert forall|i: int| 0 <= i < data@.len() implies payload[i] == data@[i] by {
            let m = i / 4096;
            assert(flat[m] == blocks@[m]);
            let x = data@[i];
            let t = table@[i % 4096];
            assert((x ^ t) ^ t == x) by (bit_vector);
        }
        assert(payload =~= data@);
        assert forall|b: int|
            0 <= b && b * 4096 + 4096 <= old(image)@.len() && !flat.contains(b) implies spec_block(
            image@,
            b,
        ) == spec_block(old(image)@, b) by {
            assert forall|p: int| b * 4096 <= p < b * 4096 + 4096
                implies image@[p] == old(image)@[p] by {
                if holds_payload(blocks@, data@.len() as int, p) {
                    let i = choose|i: int|
                        0 <= i < data@.len() && #[trigger] spec_payload_position(blocks@, i) == p;
                    assert(blocks@[i / 4096] == b);
                    assert(flat[i / 4096] == b);
                }
            }
            assert(spec_block(image@, b) =~= spec_block(old(image)@, b));
        }
    }
}

} // verus!
