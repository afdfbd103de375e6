//! The stripe model shared by splitting and merging: chunks, the rotating
//! parity slot, the XOR fold, and where each source byte lives.

use vstd::prelude::*;

verus! {

/// Bytes in a chunk, the unit of striping and of XOR.
pub const CHUNK_SIZE: usize = 4;

/// Bytes in a disk header: the source length as a little-endian `u64`.
pub const HEADER_SIZE: usize = 8;

/// One disk's share of a stripe.
pub type Chunk = [u8; CHUNK_SIZE];

/// The disk that holds the parity chunk of stripe `stripe_index`.
pub open spec fn spec_parity_slot(stripe_index: int, disk_count: int) -> int {
    stripe_index % disk_count
}

/// Source bytes carried by one stripe: every disk but one holds a data chunk.
pub open spec fn stripe_capacity(disk_count: int) -> int {
    (disk_count - 1) * CHUNK_SIZE
}

/// The place of a data disk among the data chunks of its stripe, counted
/// in disk order with the parity slot left out.
pub open spec fn data_rank(disk: int, parity: int) -> int {
    if disk < parity {
        disk
    } else {
        disk - 1
    }
}

/// The disk that holds the data chunk of rank `rank`: the inverse of `data_rank`.
pub open spec fn slot_of_rank(rank: int, parity: int) -> int {
    if rank < parity {
        rank
    } else {
        rank + 1
    }
}

/// The chunks of a stripe that hold data: all of them but the one at
/// `parity_chunk`, or all of them where the stripe has no such chunk.
pub open spec fn data_chunk_count(chunk_count: int, parity_chunk: int) -> int {
    if 0 <= parity_chunk < chunk_count {
        chunk_count - 1
    } else {
        chunk_count
    }
}

/// Bytes that a file holds from `position` on.
pub open spec fn bytes_left(data: Seq<u8>, position: int) -> int {
    if position <= data.len() {
        data.len() - position
    } else {
        0
    }
}

/// Byte `byte` of every chunk of a stripe, in disk order.
pub open spec fn column(chunks: Seq<Chunk>, byte: int) -> Seq<u8> {
    Seq::new(chunks.len(), |i: int| chunks[i][byte])
}

/// XOR of all bytes of a column.
pub open spec fn xor_all(column: Seq<u8>) -> u8
    decreases column.len(),
{
    if column.len() == 0 {
        0u8
    } else {
        xor_all(column.drop_last()) ^ column.last()
    }
}

/// XOR of all bytes of a column but the one at `slot`.
pub open spec fn xor_others(column: Seq<u8>, slot: int) -> u8
    decreases column.len(),
{
    if column.len() == 0 {
        0u8
    } else if column.len() - 1 == slot {
        xor_others(column.drop_last(), slot)
    } else {
        xor_others(column.drop_last(), slot) ^ column.last()
    }
}

/// The disk that holds the parity chunk of stripe `stripe_index`.
pub fn parity_slot(stripe_index: usize, disk_count: usize) -> (slot: usize)
    requires
        disk_count > 0,
    ensures
        slot == spec_parity_slot(stripe_index as int, disk_count as int),
        slot < disk_count,
{
    stripe_index % disk_count
}

/// A stripe's worth of zeroed chunks, one per disk.
pub fn create_chunks_vec(disks: usize) -> (chunks: Vec<Chunk>)
    ensures
        chunks.len() == disks,
        forall|i: int, b: int| 0 <= i < disks && 0 <= b < CHUNK_SIZE ==> chunks[i][b] == 0u8,
{
    let mut chunks: Vec<Chunk> = Vec::new();
    let mut i: usize = 0;
    while i < disks
        invariant
            i <= disks,
            chunks.len() == i,
            forall|k: int, b: int| 0 <= k < i && 0 <= b < CHUNK_SIZE ==> chunks[k][b] == 0u8,
        decreases disks - i,
    {
        chunks.push([0u8; CHUNK_SIZE]);
        i += 1;
    }
    chunks
}

/// Rebuilds the chunk at `missing_index` as the XOR of all other chunks of
/// the stripe. The same fold computes a parity chunk and recovers a lost one.
pub fn reconstruct_chunk(chunks: &mut Vec<Chunk>, missing_index: usize)
    requires
        missing_index < old(chunks).len(),
    ensures
        final(chunks).len() == old(chunks).len(),
        forall|i: int|
            0 <= i < old(chunks).len() && i != missing_index ==> final(chunks)[i] == old(chunks)[i],
        forall|b: int|
            0 <= b < CHUNK_SIZE ==> final(chunks)[missing_index as int][b] == xor_others(
                column(old(chunks)@, b),
                missing_index as int,
            ),
{
    let ghost before = chunks@;
    let mut byte_index: usize = 0;
    while byte_index < CHUNK_SIZE
        invariant
            byte_index <= CHUNK_SIZE,
            missing_index < chunks.len(),
            chunks.len() == before.len(),
            forall|i: int| 0 <= i < before.len() && i != missing_index ==> chunks[i] == before[i],
            forall|b: int|
                0 <= b < byte_index ==> chunks[missing_index as int][b] == xor_others(
                    column(before, b),
                    missing_index as int,
                ),
        decreases CHUNK_SIZE - byte_index,
    {
        let ghost col = column(before, byte_index as int);
        let mut folded: u8 = 0;
        let mut chunk_index: usize = 0;
        while chunk_index < chunks.len()
            invariant
                chunk_index <= chunks.len(),
                byte_index < CHUNK_SIZE,
                missing_index < chunks.len(),
                chunks.len() == before.len(),
                col == column(before, byte_index as int),
                forall|i: int|
                    0 <= i < before.len() && i != missing_index ==> chunks[i] == before[i],
                folded == xor_others(col.take(chunk_index as int), missing_index as int),
            decreases chunks.len() - chunk_index,
        {
            proof {
                let next = col.take(chunk_index as int + 1);
                assert(next.drop_last() == col.take(chunk_index as int));
            }
            if chunk_index != missing_index {
                folded = folded ^ chunks[chunk_index][byte_index];
            }
            chunk_index += 1;
        }
        assert(col.take(chunks.len() as int) == col);
        chunks[missing_index][byte_index] = folded;
        byte_index += 1;
    }
}

/// A column folds to the XOR of one of its bytes with all the others.
pub proof fn lemma_xor_all_splits(column: Seq<u8>, slot: int)
    requires
        0 <= slot < column.len(),
    ensures
        xor_all(column) == xor_others(column, slot) ^ column[slot],
    decreases column.len(),
{
    let rest = column.drop_last();
    let last = column.last();
    if column.len() - 1 == slot {
        lemma_xor_others_beyond(rest, slot);
    } else {
        lemma_xor_all_splits(rest, slot);
        let a = xor_others(rest, slot);
        let b = rest[slot];
        assert((a ^ b) ^ last == (a ^ last) ^ b) by (bit_vector);
    }
}

/// Leaving out a slot that the column does not have leaves out nothing.
pub proof fn lemma_xor_others_beyond(column: Seq<u8>, slot: int)
    requires
        slot < 0 || slot >= column.len(),
    ensures
        xor_others(column, slot) == xor_all(column),
    decreases column.len(),
{
    if column.len() > 0 {
        lemma_xor_others_beyond(column.drop_last(), slot);
    }
}

/// What the byte at `slot` holds does not matter to the XOR of the others.
pub proof fn lemma_xor_others_ignores_slot(column: Seq<u8>, slot: int, value: u8)
    requires
        0 <= slot < column.len(),
    ensures
        xor_others(column.update(slot, value), slot) == xor_others(column, slot),
    decreases column.len(),
{
    let changed = column.update(slot, value);
    if column.len() - 1 == slot {
        assert(changed.drop_last() == column.drop_last());
    } else {
        assert(changed.drop_last() == column.drop_last().update(slot, value));
        lemma_xor_others_ignores_slot(column.drop_last(), slot, value);
    }
}

/// A column whose byte at `slot` is the XOR of the others folds to zero.
pub proof fn lemma_parity_makes_zero(column: Seq<u8>, slot: int)
    requires
        0 <= slot < column.len(),
        column[slot] == xor_others(column, slot),
    ensures
        xor_all(column) == 0,
{
    lemma_xor_all_splits(column, slot);
    let a = column[slot];
    assert(a ^ a == 0) by (bit_vector);
}

/// In a column that folds to zero every byte is the XOR of the others.
pub proof fn lemma_zero_recovers(column: Seq<u8>, slot: int)
    requires
        0 <= slot < column.len(),
        xor_all(column) == 0,
    ensures
        column[slot] == xor_others(column, slot),
{
    lemma_xor_all_splits(column, slot);
    let a = xor_others(column, slot);
    let b = column[slot];
    assert(a ^ b == 0 ==> a == b) by (bit_vector);
}

} // verus!
