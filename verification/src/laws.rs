//! What holds of splitting and merging together.

use crate::error::Error;
use crate::merge::{
    data_of, discover, header_of, lemma_discover_error_stays, lemma_discover_errors,
    lemma_discover_facts, lemma_enough_stripes_restore, lemma_opened_set_is_wf, merge_spec,
    open_disks_spec, opens, reassemble_spec, restored_byte, stored_column,
};
use crate::split::{data_column, disk_chunks, disk_image, split_spec, stripe_byte, stripe_count};
use crate::stripe::{
    data_rank, lemma_parity_makes_zero, lemma_xor_others_ignores_slot, lemma_zero_recovers,
    slot_of_rank, spec_parity_slot, stripe_capacity, xor_all, CHUNK_SIZE, HEADER_SIZE,
};
use vstd::arithmetic::div_mod::{lemma_div_is_ordered, lemma_fundamental_div_mod};
use vstd::bytes::{lemma_auto_spec_u64_to_from_le_bytes, spec_u64_to_le_bytes};
use vstd::prelude::*;

verus! {

/// A set of disk images of which every one is there.
pub open spec fn all_present(images: Seq<Seq<u8>>) -> Seq<Option<Seq<u8>>> {
    Seq::new(images.len(), |i: int| Some(images[i]))
}

/// Byte `byte` of the chunk of stripe `stripe` in every disk image, in disk order.
pub open spec fn image_column(images: Seq<Seq<u8>>, stripe: int, byte: int) -> Seq<u8> {
    Seq::new(images.len(), |disk: int| images[disk][HEADER_SIZE + stripe * CHUNK_SIZE + byte])
}

/// Byte `byte` of every chunk of stripe `stripe` of a split source, in disk order.
pub open spec fn stripe_column(source: Seq<u8>, disk_count: int, stripe: int, byte: int) -> Seq<
    u8,
> {
    Seq::new(disk_count as nat, |disk: int| stripe_byte(source, disk_count, stripe, disk, byte))
}

/// The chunks of every stripe of a split source XOR to zero.
pub proof fn lemma_stripe_folds_to_zero(source: Seq<u8>, disk_count: int, stripe: int, byte: int)
    requires
        disk_count >= 1,
        0 <= stripe,
    ensures
        xor_all(stripe_column(source, disk_count, stripe, byte)) == 0,
{
    let parity = spec_parity_slot(stripe, disk_count);
    let data = data_column(source, disk_count, stripe, byte);
    let all = stripe_column(source, disk_count, stripe, byte);
    assert(all =~= data.update(parity, all[parity]));
    lemma_xor_others_ignores_slot(data, parity, all[parity]);
    lemma_parity_makes_zero(all, parity);
}

/// A split image opens, records the length of the source, and holds the
/// chunks of its disk behind the header.
pub proof fn lemma_split_image_opens(source: Seq<u8>, disk_count: int, disk: int)
    ensures
        opens(Some(disk_image(source, disk_count, disk))),
        header_of(Some(disk_image(source, disk_count, disk))) == Some(source.len() as u64),
        data_of(Some(disk_image(source, disk_count, disk))) == Some(
            disk_chunks(
                source,
                disk_count,
                disk,
                stripe_count(source.len() as int, disk_count),
            ),
        ),
{
    lemma_auto_spec_u64_to_from_le_bytes();
    let header = spec_u64_to_le_bytes(source.len() as u64);
    let image = disk_image(source, disk_count, disk);
    assert(image.subrange(0, HEADER_SIZE as int) =~= header);
    assert(image.subrange(HEADER_SIZE as int, image.len() as int) =~= disk_chunks(
        source,
        disk_count,
        disk,
        stripe_count(source.len() as int, disk_count),
    ));
}

/// Where the bytes of a source lie: byte `k` is in stripe `k / capacity`,
/// on a data disk, in a chunk that the disk holds.
pub proof fn lemma_place_of_byte(source_len: int, disk_count: int, k: int)
    requires
        disk_count >= 2,
        0 <= k < source_len,
    ensures
        ({
            let capacity = stripe_capacity(disk_count);
            let stripe = k / capacity;
            let within = k % capacity;
            let parity = spec_parity_slot(stripe, disk_count);
            let slot = slot_of_rank(within / CHUNK_SIZE as int, parity);
            &&& 0 <= stripe < stripe_count(source_len, disk_count)
            &&& 0 <= slot < disk_count
            &&& slot != parity
            &&& 0 <= parity < disk_count
            &&& k == stripe * capacity + data_rank(slot, parity) * CHUNK_SIZE + within
                % CHUNK_SIZE as int
        }),
{
    let capacity = stripe_capacity(disk_count);
    lemma_fundamental_div_mod(k, capacity);
    lemma_div_is_ordered(k, source_len, capacity);
    lemma_div_is_ordered(0, k, capacity);
    assert(capacity * (k / capacity) == (k / capacity) * capacity) by (nonlinear_arith);
}

/// A disk set made of the chunks of a split source, with at most the
/// disk `lost` missing, restores every byte of the source.
proof fn lemma_restores_source_byte(
    source: Seq<u8>,
    disk_count: int,
    disks: Seq<Option<Seq<u8>>>,
    lost: int,
    k: int,
)
    requires
        disk_count >= 2,
        disks.len() == disk_count,
        0 <= k < source.len(),
        forall|disk: int|
            0 <= disk < disk_count && disk != lost ==> #[trigger] disks[disk] == Some(
                disk_chunks(
                    source,
                    disk_count,
                    disk,
                    stripe_count(source.len() as int, disk_count),
                ),
            ),
        0 <= lost < disk_count ==> disks[lost] is None,
    ensures
        restored_byte(disks, k) == source[k],
{
    let capacity = stripe_capacity(disk_count);
    let stripe = k / capacity;
    let within = k % capacity;
    let byte = within % CHUNK_SIZE as int;
    let parity = spec_parity_slot(stripe, disk_count);
    let slot = slot_of_rank(within / CHUNK_SIZE as int, parity);
    lemma_place_of_byte(source.len() as int, disk_count, k);
    // Every disk that is there stores its chunk of the stripe as split.
    assert forall|disk: int| 0 <= disk < disk_count && disk != lost implies (
    #[trigger] disks[disk])->0[stripe * CHUNK_SIZE + byte] == stripe_byte(
        source,
        disk_count,
        stripe,
        disk,
        byte,
    ) by {}
    if slot == lost {
        // The chunk of the lost disk is the XOR of the others, as the
        // stripe folds to zero.
        let all = stripe_column(source, disk_count, stripe, byte);
        assert(stored_column(disks, stripe, byte) =~= all.update(lost, 0u8));
        lemma_xor_others_ignores_slot(all, lost, 0u8);
        lemma_stripe_folds_to_zero(source, disk_count, stripe, byte);
        lemma_zero_recovers(all, lost);
    }
}

/// The images of a split source, of which at most the disk `lost` does
/// not open, merge into the source.
proof fn lemma_merge_restores(
    source: Seq<u8>,
    disk_count: int,
    images: Seq<Option<Seq<u8>>>,
    lost: int,
)
    requires
        disk_count >= 2,
        source.len() <= u64::MAX,
        images.len() == disk_count,
        forall|disk: int|
            0 <= disk < disk_count && disk != lost ==> #[trigger] images[disk] == Some(
                disk_image(source, disk_count, disk),
            ),
        0 <= lost < disk_count ==> !opens(images[lost]),
    ensures
        merge_spec(images) == Ok::<Seq<u8>, Error>(source),
{
    let stripes = stripe_count(source.len() as int, disk_count);
    let capacity = stripe_capacity(disk_count);
    assert forall|disk: int| 0 <= disk < disk_count && disk != lost implies opens(
        #[trigger] images[disk],
    ) && header_of(images[disk]) == Some(source.len() as u64) && data_of(images[disk]) == Some(
        disk_chunks(source, disk_count, disk, stripes),
    ) by {
        lemma_split_image_opens(source, disk_count, disk);
    }
    let first = if lost == 0 {
        1int
    } else {
        0int
    };
    assert(opens(images[first]));
    if discover(images, disk_count) is Err {
        lemma_discover_errors(images, disk_count);
        assert(false);
    }
    lemma_discover_facts(images, disk_count);
    let set = open_disks_spec(images)->Ok_0;
    assert(source.len() <= stripes * capacity) by {
        lemma_fundamental_div_mod(source.len() as int, capacity);
        assert(capacity * (source.len() as int / capacity) + capacity == stripes * capacity)
            by (nonlinear_arith)
            requires
                stripes == source.len() as int / capacity + 1,
        ;
    }
    lemma_opened_set_is_wf(images);
    lemma_enough_stripes_restore(set, stripes);
    let restored = reassemble_spec(set)->Ok_0;
    assert(restored =~= source) by {
        assert forall|k: int| 0 <= k < source.len() implies restored[k] == source[k] by {
            lemma_restores_source_byte(source, disk_count, set.disks, lost, k);
        }
    }
}

/// Merging the images that a source was split into gives the source back,
/// whatever its length and for every count of two or more disks.
pub proof fn law_round_trip(source: Seq<u8>, disk_count: int)
    requires
        disk_count >= 2,
        source.len() <= u64::MAX,
    ensures
        merge_spec(all_present(split_spec(source, disk_count))) == Ok::<Seq<u8>, Error>(source),
{
    lemma_merge_restores(source, disk_count, all_present(split_spec(source, disk_count)), -1);
}

/// With any one disk absent, or cut down to less than a header, merging
/// still gives the source back.
pub proof fn law_single_failure_tolerance(
    source: Seq<u8>,
    disk_count: int,
    images: Seq<Option<Seq<u8>>>,
    lost: int,
)
    requires
        disk_count >= 2,
        source.len() <= u64::MAX,
        0 <= lost < disk_count,
        images.len() == disk_count,
        forall|disk: int|
            0 <= disk < disk_count && disk != lost ==> #[trigger] images[disk] == Some(
                split_spec(source, disk_count)[disk],
            ),
        !opens(images[lost]),
    ensures
        merge_spec(images) == Ok::<Seq<u8>, Error>(source),
{
    lemma_merge_restores(source, disk_count, images, lost);
}

/// With two of the disks of a split source not opening, whatever has
/// become of the others, merging fails for too many missing disks.
pub proof fn law_double_failure_rejected(
    source: Seq<u8>,
    disk_count: int,
    images: Seq<Option<Seq<u8>>>,
    first: int,
    second: int,
)
    requires
        images.len() == disk_count,
        0 <= first < second < disk_count,
        !opens(images[first]),
        !opens(images[second]),
        forall|disk: int|
            0 <= disk < disk_count && opens(#[trigger] images[disk]) ==> images[disk] == Some(
                split_spec(source, disk_count)[disk],
            ),
    ensures
        merge_spec(images) == Err::<Seq<u8>, Error>(Error::TooManyMissingDisks),
{
    assert forall|disk: int|
        0 <= disk < disk_count && opens(#[trigger] images[disk]) implies header_of(images[disk])
        == Some(source.len() as u64) by {
        lemma_split_image_opens(source, disk_count, disk);
    }
    if discover(images, disk_count) is Ok {
        lemma_discover_facts(images, disk_count);
        assert(false);
    }
    lemma_discover_errors(images, disk_count);
}

/// In the images of a split source, the chunks of every stripe XOR to a
/// chunk of zeros.
pub proof fn law_parity_invariant(source: Seq<u8>, disk_count: int, stripe: int, byte: int)
    requires
        disk_count >= 2,
        0 <= stripe < stripe_count(source.len() as int, disk_count),
        0 <= byte < CHUNK_SIZE,
    ensures
        xor_all(image_column(split_spec(source, disk_count), stripe, byte)) == 0,
{
    lemma_auto_spec_u64_to_from_le_bytes();
    lemma_stripe_folds_to_zero(source, disk_count, stripe, byte);
    assert(image_column(split_spec(source, disk_count), stripe, byte) =~= stripe_column(
        source,
        disk_count,
        stripe,
        byte,
    ));
}

/// Where two disks record different lengths, and at most one disk before
/// the second of them is missing, merging fails for inconsistent lengths,
/// and names two lengths that differ.
pub proof fn law_length_mismatch_rejected(images: Seq<Option<Seq<u8>>>, a: int, b: int)
    requires
        0 <= a < b < images.len(),
        opens(images[a]),
        opens(images[b]),
        header_of(images[a]) != header_of(images[b]),
        forall|i: int, j: int|
            0 <= i < j < b ==> opens(#[trigger] images[i]) || opens(#[trigger] images[j]),
    ensures
        merge_spec(images) matches Err(Error::LengthInconsistency { found, expected }) && found
            != expected,
{
    if discover(images, b + 1) is Ok {
        lemma_discover_facts(images, b + 1);
        assert(false);
    }
    lemma_discover_errors(images, b + 1);
    lemma_discover_error_stays(images, b + 1, images.len() as int);
}

} // verus!
