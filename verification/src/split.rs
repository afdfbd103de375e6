//! Striping a source across disk images with a rotating parity chunk.

use crate::error::Error;
use crate::stripe::{
    bytes_left, column, create_chunks_vec, data_chunk_count, data_rank, lemma_parity_makes_zero,
    lemma_xor_others_ignores_slot, parity_slot, reconstruct_chunk, spec_parity_slot,
    stripe_capacity, xor_all, xor_others, Chunk, CHUNK_SIZE,
};
use vstd::arithmetic::div_mod::lemma_fundamental_div_mod_converse;
use vstd::bytes::{spec_u64_to_le_bytes, u64_to_le_bytes};
use vstd::math::min;
use vstd::prelude::*;

verus! {

/// Byte `i` of the source, and zero behind its end: the padding of the last stripe.
pub open spec fn padded_byte(source: Seq<u8>, i: int) -> u8 {
    if 0 <= i < source.len() {
        source[i]
    } else {
        0u8
    }
}

/// Stripes that a source of `source_len` bytes is split into. The stripe in
/// which the source ends is the last one, and it is written even where it
/// holds nothing but padding.
pub open spec fn stripe_count(source_len: int, disk_count: int) -> int {
    source_len / stripe_capacity(disk_count) + 1
}

/// Byte `byte` of the chunk of data disk `disk` in stripe `stripe`. The
/// data chunks of a stripe hold consecutive source bytes in disk order.
pub open spec fn data_byte(
    source: Seq<u8>,
    disk_count: int,
    stripe: int,
    disk: int,
    byte: int,
) -> u8 {
    padded_byte(
        source,
        stripe * stripe_capacity(disk_count) + data_rank(disk, spec_parity_slot(stripe, disk_count))
            * CHUNK_SIZE + byte,
    )
}

/// Byte `byte` of the data chunks of stripe `stripe`, in disk order. What
/// stands in the parity slot has no meaning.
pub open spec fn data_column(source: Seq<u8>, disk_count: int, stripe: int, byte: int) -> Seq<u8> {
    Seq::new(disk_count as nat, |disk: int| data_byte(source, disk_count, stripe, disk, byte))
}

/// Byte `byte` of the chunk that disk `disk` gets in stripe `stripe`: the
/// XOR of the data chunks on the parity disk, source data on the others.
pub open spec fn stripe_byte(
    source: Seq<u8>,
    disk_count: int,
    stripe: int,
    disk: int,
    byte: int,
) -> u8 {
    if disk == spec_parity_slot(stripe, disk_count) {
        xor_others(data_column(source, disk_count, stripe, byte), disk)
    } else {
        data_byte(source, disk_count, stripe, disk, byte)
    }
}

/// The first `stripes` chunks of disk `disk`, one after the other.
pub open spec fn disk_chunks(source: Seq<u8>, disk_count: int, disk: int, stripes: int) -> Seq<u8> {
    Seq::new(
        (stripes * CHUNK_SIZE) as nat,
        |k: int|
            stripe_byte(source, disk_count, k / CHUNK_SIZE as int, disk, k % CHUNK_SIZE as int),
    )
}

/// The image of disk `disk`: the source length as a header, then the chunk
/// of the disk for every stripe.
pub open spec fn disk_image(source: Seq<u8>, disk_count: int, disk: int) -> Seq<u8> {
    spec_u64_to_le_bytes(source.len() as u64) + disk_chunks(
        source,
        disk_count,
        disk,
        stripe_count(source.len() as int, disk_count),
    )
}

/// The images of all disks that a source is split into.
pub open spec fn split_spec(source: Seq<u8>, disk_count: int) -> Seq<Seq<u8>> {
    Seq::new(disk_count as nat, |disk: int| disk_image(source, disk_count, disk))
}

/// Begins the image of every disk with its header, the source length.
pub fn create_disks(disks: usize, source_file_length: u64) -> (disk_files: Vec<Vec<u8>>)
    ensures
        disk_files.len() == disks,
        forall|i: int|
            0 <= i < disks ==> (#[trigger] disk_files[i])@ == spec_u64_to_le_bytes(
                source_file_length,
            ),
{
    let mut disk_files: Vec<Vec<u8>> = Vec::with_capacity(disks);
    let mut s: usize = 0;
    while s < disks
        invariant
            s <= disks,
            disk_files.len() == s,
            forall|i: int|
                0 <= i < s ==> (#[trigger] disk_files[i])@ == spec_u64_to_le_bytes(
                    source_file_length,
                ),
        decreases disks - s,
    {
        disk_files.push(u64_to_le_bytes(source_file_length));
        s += 1;
    }
    disk_files
}

/// Appends to every disk its chunk of the stripe. Disks without a chunk and
/// chunks without a disk are left alone.
pub fn write_to_disks(disk_files: &mut Vec<Vec<u8>>, chunks: &Vec<Chunk>)
    ensures
        final(disk_files).len() == old(disk_files).len(),
        forall|i: int|
            0 <= i < old(disk_files).len() ==> (#[trigger] final(disk_files)[i])@ == if i
                < chunks.len() {
                old(disk_files)[i]@ + chunks[i]@
            } else {
                old(disk_files)[i]@
            },
{
    let ghost before = disk_files@;
    let mut i: usize = 0;
    while i < disk_files.len() && i < chunks.len()
        invariant
            before == old(disk_files)@,
            disk_files.len() == before.len(),
            forall|j: int|
                0 <= j < before.len() ==> (#[trigger] disk_files[j])@ == if j < i {
                    before[j]@ + chunks[j]@
                } else {
                    before[j]@
                },
            i <= disk_files.len(),
            i <= chunks.len(),
        decreases disk_files.len() - i,
    {
        let mut byte_index: usize = 0;
        let ghost untouched = disk_files@;
        while byte_index < CHUNK_SIZE
            invariant
                byte_index <= CHUNK_SIZE,
                i < disk_files.len(),
                i < chunks.len(),
                disk_files.len() == untouched.len(),
                forall|j: int| 0 <= j < untouched.len() && j != i ==> disk_files[j] == untouched[j],
                disk_files[i as int]@ == untouched[i as int]@ + chunks[i as int]@.take(
                    byte_index as int,
                ),
            decreases CHUNK_SIZE - byte_index,
        {
            disk_files[i].push(chunks[i][byte_index]);
            byte_index += 1;
        }
        assert forall|j: int| 0 <= j < before.len() implies (#[trigger] disk_files[j])@ == if j < i
            + 1 {
            before[j]@ + chunks[j]@
        } else {
            before[j]@
        } by {
            if j != i {
                assert(disk_files[j] == untouched[j]);
            }
        }
        i += 1;
    }
}

/// Sets the chunk at `parity_chunk` to the XOR of all other chunks of the
/// stripe. After that the chunks of the stripe XOR to zero.
pub fn calculate_parity(chunks: &mut Vec<Chunk>, parity_chunk: usize)
    requires
        parity_chunk < old(chunks).len(),
    ensures
        final(chunks).len() == old(chunks).len(),
        forall|i: int|
            0 <= i < old(chunks).len() && i != parity_chunk ==> final(chunks)[i] == old(chunks)[i],
        forall|b: int|
            0 <= b < CHUNK_SIZE ==> final(chunks)[parity_chunk as int][b] == xor_others(
                column(old(chunks)@, b),
                parity_chunk as int,
            ),
        forall|b: int| 0 <= b < CHUNK_SIZE ==> xor_all(#[trigger] column(final(chunks)@, b)) == 0,
{
    let ghost before = chunks@;
    reconstruct_chunk(chunks, parity_chunk);
    proof {
        assert forall|b: int| 0 <= b < CHUNK_SIZE implies xor_all(
            #[trigger] column(chunks@, b),
        ) == 0 by {
            let parity = parity_chunk as int;
            let after = column(chunks@, b);
            assert(after == column(before, b).update(parity, after[parity]));
            lemma_xor_others_ignores_slot(column(before, b), parity, after[parity]);
            lemma_parity_makes_zero(after, parity);
        }
    }
}

/// Reads the next chunk of the source, from `position` on, and moves
/// `position` behind what was read. Where the source ends within the chunk,
/// the rest of the chunk is zero and the result is `true`: the end of the
/// source has been met.
pub fn read_to_chunk(source: &[u8], position: &mut usize, chunk: &mut Chunk) -> (eof: bool)
    ensures
        forall|b: int|
            0 <= b < CHUNK_SIZE ==> final(chunk)[b] == padded_byte(source@, *old(position) + b),
        *final(position) == *old(position) + min(
            bytes_left(source@, *old(position) as int),
            CHUNK_SIZE as int,
        ),
        eof == (bytes_left(source@, *old(position) as int) < CHUNK_SIZE),
{
    let start = *position;
    let length = source.len();
    let available = if start < length {
        length - start
    } else {
        0
    };
    let n = if available < CHUNK_SIZE {
        available
    } else {
        CHUNK_SIZE
    };
    let mut byte_index: usize = 0;
    while byte_index < CHUNK_SIZE
        invariant
            byte_index <= CHUNK_SIZE,
            n <= CHUNK_SIZE,
            length == source@.len(),
            n == min(bytes_left(source@, start as int), CHUNK_SIZE as int),
            forall|b: int| 0 <= b < byte_index ==> chunk[b] == padded_byte(source@, start + b),
        decreases CHUNK_SIZE - byte_index,
    {
        if byte_index < n {
            chunk[byte_index] = source[start + byte_index];
        } else {
            // The source has ended: zero the rest of the chunk.
            chunk[byte_index] = 0;
        }
        byte_index += 1;
    }
    *position = start + n;
    n < CHUNK_SIZE
}

/// Fills the data chunks of a stripe, in disk order, with the source from
/// `position` on, and moves `position` behind what was read. The chunk at
/// `parity_chunk` is left alone. Once the end of the source has been met
/// the chunks are filled with zeros; the result says whether it was met.
pub fn read_to_chunks(
    source: &[u8],
    position: &mut usize,
    chunks: &mut Vec<Chunk>,
    parity_chunk: usize,
) -> (eof_reached: bool)
    ensures
        final(chunks).len() == old(chunks).len(),
        forall|i: int, b: int|
            0 <= i < old(chunks).len() && i != parity_chunk && 0 <= b < CHUNK_SIZE ==> (
            #[trigger] final(chunks)[i][b]) == padded_byte(
                source@,
                *old(position) + data_rank(i, parity_chunk as int) * CHUNK_SIZE + b,
            ),
        parity_chunk < old(chunks).len() ==> final(chunks)[parity_chunk as int] == old(
            chunks,
        )[parity_chunk as int],
        *final(position) == *old(position) + min(
            bytes_left(source@, *old(position) as int),
            data_chunk_count(old(chunks).len() as int, parity_chunk as int) * CHUNK_SIZE,
        ),
        eof_reached == (bytes_left(source@, *old(position) as int) < data_chunk_count(
            old(chunks).len() as int,
            parity_chunk as int,
        ) * CHUNK_SIZE),
{
    let ghost start = *position as int;
    let ghost before = chunks@;
    let ghost left = bytes_left(source@, start);
    let mut eof_reached = false;
    let mut chunk_i: usize = 0;
    while chunk_i < chunks.len()
        invariant
            chunk_i <= chunks.len(),
            chunks.len() == before.len(),
            before == old(chunks)@,
            start == *old(position),
            left == bytes_left(source@, start),
            forall|i: int, b: int|
                0 <= i < chunk_i && i != parity_chunk && 0 <= b < CHUNK_SIZE ==> (
                #[trigger] chunks[i][b]) == padded_byte(
                    source@,
                    start + data_rank(i, parity_chunk as int) * CHUNK_SIZE + b,
                ),
            forall|i: int| chunk_i <= i < chunks.len() ==> chunks[i] == before[i],
            parity_chunk < chunks.len() ==> chunks[parity_chunk as int]
                == before[parity_chunk as int],
            *position == start + min(
                left,
                data_chunk_count(chunk_i as int, parity_chunk as int) * CHUNK_SIZE,
            ),
            eof_reached == (left < data_chunk_count(chunk_i as int, parity_chunk as int)
                * CHUNK_SIZE),
        decreases chunks.len() - chunk_i,
    {
        if chunk_i != parity_chunk {
            let ghost unread = chunks@;
            if !eof_reached {
                eof_reached = read_to_chunk(source, position, &mut chunks[chunk_i]);
            } else {
                let mut bytes_i: usize = 0;
                while bytes_i < CHUNK_SIZE
                    invariant
                        bytes_i <= CHUNK_SIZE,
                        chunk_i < chunks.len(),
                        chunks.len() == unread.len(),
                        forall|i: int|
                            0 <= i < chunks.len() && i != chunk_i ==> chunks[i] == unread[i],
                        forall|b: int| 0 <= b < bytes_i ==> chunks[chunk_i as int][b] == 0u8,
                    decreases CHUNK_SIZE - bytes_i,
                {
                    chunks[chunk_i][bytes_i] = 0;
                    bytes_i += 1;
                }
            }
            assert forall|i: int, b: int|
                0 <= i < chunk_i + 1 && i != parity_chunk && 0 <= b < CHUNK_SIZE implies (
            #[trigger] chunks[i][b]) == padded_byte(
                source@,
                start + data_rank(i, parity_chunk as int) * CHUNK_SIZE + b,
            ) by {
                if i < chunk_i {
                    assert(chunks[i][b] == unread[i][b]);
                }
            }
        }
        chunk_i += 1;
    }
    eof_reached
}

/// Splits a source into the images of `disks` disks. The source is cut into
/// chunks that fill stripe after stripe, in each stripe all disks but the
/// parity disk, which rotates with the stripe index and holds the XOR of
/// the others. Fewer than two disks are refused.
pub fn split(source: &[u8], disks: usize) -> (images: Result<Vec<Vec<u8>>, Error>)
    ensures
        disks < 2 ==> images == Err::<Vec<Vec<u8>>, Error>(Error::TooFewDisks),
        disks >= 2 ==> images is Ok && images->Ok_0.len() == disks && images->Ok_0.deep_view()
            == split_spec(source@, disks as int),
{
    if disks < 2 {
        return Err(Error::TooFewDisks);
    }
    let file_length = source.len() as u64;
    let mut disk_files = create_disks(disks, file_length);
    let mut chunks = create_chunks_vec(disks);
    let mut eof_reached = false;
    let mut position: usize = 0;
    let mut stripe: usize = 0;
    let ghost capacity = stripe_capacity(disks as int);
    let ghost header = spec_u64_to_le_bytes(file_length);
    while !eof_reached
        invariant
            disks >= 2,
            capacity == stripe_capacity(disks as int),
            header == spec_u64_to_le_bytes(source@.len() as u64),
            chunks.len() == disks,
            disk_files.len() == disks,
            source@.len() <= usize::MAX,
            !eof_reached ==> position == stripe * capacity && position <= source@.len(),
            eof_reached ==> stripe == stripe_count(source@.len() as int, disks as int),
            forall|disk: int|
                0 <= disk < disks ==> (#[trigger] disk_files[disk])@ == header + disk_chunks(
                    source@,
                    disks as int,
                    disk,
                    stripe as int,
                ),
        decreases
                if eof_reached {
                    0
                } else {
                    source@.len() - position + 1
                },
    {
        let parity_disk = parity_slot(stripe, disks);
        let ghost written = disk_files@;
        eof_reached = read_to_chunks(source, &mut position, &mut chunks, parity_disk);
        let ghost data_chunks = chunks@;
        calculate_parity(&mut chunks, parity_disk);
        proof {
            assert forall|disk: int, b: int|
                0 <= disk < disks && 0 <= b < CHUNK_SIZE implies chunks[disk][b] == stripe_byte(
                source@,
                disks as int,
                stripe as int,
                disk,
                b,
            ) by {
                if disk == parity_disk {
                    // But for the parity slot, the column that was read is
                    // the column of data bytes.
                    let read = column(data_chunks, b);
                    let wanted = data_column(source@, disks as int, stripe as int, b);
                    assert(wanted =~= read.update(disk, wanted[disk]));
                    lemma_xor_others_ignores_slot(read, disk, wanted[disk]);
                }
            }
        }
        write_to_disks(&mut disk_files, &chunks);
        proof {
            assert((stripe + 1) * capacity == stripe * capacity + capacity) by (nonlinear_arith);
            assert(stripe * CHUNK_SIZE <= stripe * capacity) by (nonlinear_arith)
                requires
                    0 <= stripe,
                    CHUNK_SIZE <= capacity,
            ;
            if eof_reached {
                lemma_fundamental_div_mod_converse(
                    source@.len() as int,
                    capacity,
                    stripe as int,
                    source@.len() - stripe * capacity,
                );
            }
            assert forall|disk: int| 0 <= disk < disks implies (#[trigger] disk_files[disk])@
                == header + disk_chunks(source@, disks as int, disk, stripe + 1) by {
                assert(disk_files[disk]@ =~= written[disk]@ + chunks[disk]@);
            }
        }
        stripe += 1;
    }
    assert(disk_files.deep_view() =~~= split_spec(source@, disks as int));
    Ok(disk_files)
}

} // verus!
