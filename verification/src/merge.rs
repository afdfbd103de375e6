//! Reassembling a source from its disk images, of which one may be lost.
//!
//! A merge first opens the disks and checks that they belong together, then
//! reads stripe after stripe, rebuilds the chunk of a missing disk where it
//! held data, and appends the data chunks until the source length is reached.

use crate::error::Error;
use crate::stripe::{
    bytes_left, column, create_chunks_vec, data_chunk_count, lemma_xor_others_ignores_slot,
    parity_slot, reconstruct_chunk, slot_of_rank, spec_parity_slot, stripe_capacity, xor_others,
    Chunk, CHUNK_SIZE, HEADER_SIZE,
};
use vstd::arithmetic::div_mod::lemma_fundamental_div_mod_converse;
use vstd::bytes::{spec_u64_from_le_bytes, u64_from_le_bytes};
use vstd::math::min;
use vstd::prelude::*;
use vstd::slice::slice_subrange;

verus! {

/// The bytes of a disk image as handed over, `None` for a disk that is not there.
pub open spec fn image_view(image: Option<Vec<u8>>) -> Option<Seq<u8>> {
    match image {
        Some(bytes) => Some(bytes@),
        None => None,
    }
}

/// The bytes of all disk images, in disk order.
pub open spec fn images_view(images: Seq<Option<Vec<u8>>>) -> Seq<Option<Seq<u8>>> {
    Seq::new(images.len(), |i: int| image_view(images[i]))
}

/// A disk opens when its image is there and holds a whole header.
pub open spec fn opens(image: Option<Seq<u8>>) -> bool {
    image is Some && image->0.len() >= HEADER_SIZE
}

/// The source length that the header of a disk records, `None` where the disk does not open.
pub open spec fn header_of(image: Option<Seq<u8>>) -> Option<u64> {
    if opens(image) {
        Some(spec_u64_from_le_bytes(image->0.subrange(0, HEADER_SIZE as int)))
    } else {
        None
    }
}

/// The chunks of a disk, which follow its header; `None` where the disk does not open.
pub open spec fn data_of(image: Option<Seq<u8>>) -> Option<Seq<u8>> {
    if opens(image) {
        Some(image->0.subrange(HEADER_SIZE as int, image->0.len() as int))
    } else {
        None
    }
}

/// What has been learnt from the disks looked at so far.
pub ghost struct Discovery {
    /// The one disk that did not open, if any.
    pub missing_disk: Option<int>,
    /// The source length that the opened disks agree on, once one has opened.
    pub file_length: Option<u64>,
}

/// Takes disk `disk` into account: a second missing disk and a header that
/// differs from the agreed length are errors.
pub open spec fn discover_step(found: Discovery, disk: int, header: Option<u64>) -> Result<
    Discovery,
    Error,
> {
    match header {
        Some(file_length) => match found.file_length {
            Some(saved) => if saved != file_length {
                Err(Error::LengthInconsistency { found: file_length, expected: saved })
            } else {
                Ok(found)
            },
            None => Ok(Discovery { file_length: Some(file_length), ..found }),
        },
        None => match found.missing_disk {
            Some(_) => Err(Error::TooManyMissingDisks),
            None => Ok(Discovery { missing_disk: Some(disk), ..found }),
        },
    }
}

/// What is learnt from the first `upto` disks, looked at in disk order; the
/// first error ends the search.
pub open spec fn discover(images: Seq<Option<Seq<u8>>>, upto: int) -> Result<Discovery, Error>
    decreases upto,
{
    if upto <= 0 {
        Ok(Discovery { missing_disk: None, file_length: None })
    } else {
        match discover(images, upto - 1) {
            Ok(found) => discover_step(found, upto - 1, header_of(images[upto - 1])),
            Err(error) => Err(error),
        }
    }
}

/// The disks of a set as merging sees them.
pub ghost struct DiskSet {
    /// The chunk data of each disk, `None` for the missing one.
    pub disks: Seq<Option<Seq<u8>>>,
    /// The disk that did not open, if any.
    pub missing_disk: Option<int>,
    /// The length of the source that was split.
    pub file_length: u64,
}

impl DiskSet {
    /// A disk set has a disk that is there, and none is missing but the
    /// one that it names.
    pub open spec fn wf(self) -> bool {
        &&& exists|i: int| 0 <= i < self.disks.len() && (#[trigger] self.disks[i]) is Some
        &&& forall|i: int|
            0 <= i < self.disks.len() ==> ((#[trigger] self.disks[i]) is None <==> self.missing_disk
                == Some(i))
        &&& self.missing_disk matches Some(missing) ==> 0 <= missing < self.disks.len()
    }
}

/// The disk set that the images make up, or the reason why they make up none.
pub open spec fn open_disks_spec(images: Seq<Option<Seq<u8>>>) -> Result<DiskSet, Error> {
    match discover(images, images.len() as int) {
        Ok(found) => match found.file_length {
            Some(file_length) => Ok(
                DiskSet {
                    disks: Seq::new(images.len(), |i: int| data_of(images[i])),
                    missing_disk: found.missing_disk,
                    file_length,
                },
            ),
            None => Err(Error::NoDisksAvailable),
        },
        Err(error) => Err(error),
    }
}

/// The data of a stripe: its chunks in disk order, without the parity chunk.
pub open spec fn data_bytes(chunks: Seq<Chunk>, parity_chunk: int) -> Seq<u8> {
    Seq::new(
        (data_chunk_count(chunks.len() as int, parity_chunk) * CHUNK_SIZE) as nat,
        |k: int| chunks[slot_of_rank(k / CHUNK_SIZE as int, parity_chunk)][k % CHUNK_SIZE as int],
    )
}

/// Disk `short` is the first in disk order that holds no whole chunk at `position`.
pub open spec fn first_short_read(disks: Seq<Option<Seq<u8>>>, position: int, short: int) -> bool {
    &&& 0 <= short < disks.len()
    &&& disks[short] is Some
    &&& bytes_left(disks[short]->0, position) < CHUNK_SIZE
    &&& forall|j: int|
        0 <= j < short ==> ((#[trigger] disks[j]) matches Some(data) ==> bytes_left(data, position)
            >= CHUNK_SIZE)
}

/// The whole chunks that a disk holds.
pub open spec fn whole_chunks(data: Seq<u8>) -> int {
    data.len() as int / CHUNK_SIZE as int
}

/// Of the first `upto` disks, `disk` is there and holds the fewest whole
/// chunks, and is the first in disk order of those that hold as few.
pub open spec fn runs_out_first_among(disks: Seq<Option<Seq<u8>>>, upto: int, disk: int) -> bool {
    &&& 0 <= disk < upto
    &&& disks[disk] is Some
    &&& forall|j: int|
        0 <= j < upto ==> ((#[trigger] disks[j]) matches Some(data) ==> {
            ||| whole_chunks(disks[disk]->0) < whole_chunks(data)
            ||| whole_chunks(disks[disk]->0) == whole_chunks(data) && disk <= j
        })
}

/// The disk on which a merge that reads on and on meets its first short read.
pub open spec fn first_exhausted(disks: Seq<Option<Seq<u8>>>) -> int {
    choose|disk: int| runs_out_first_among(disks, disks.len() as int, disk)
}

/// Byte `byte` of the chunk that each disk stores for stripe `stripe`, in
/// disk order, with zero in the place of a missing disk.
pub open spec fn stored_column(disks: Seq<Option<Seq<u8>>>, stripe: int, byte: int) -> Seq<u8> {
    Seq::new(
        disks.len(),
        |disk: int|
            match disks[disk] {
                Some(data) => data[stripe * CHUNK_SIZE + byte],
                None => 0u8,
            },
    )
}

/// Byte `byte` of the chunk of disk `disk` in stripe `stripe`: as stored
/// where the disk is there, else the XOR of what the other disks store.
pub open spec fn chunk_byte(disks: Seq<Option<Seq<u8>>>, stripe: int, disk: int, byte: int) -> u8 {
    match disks[disk] {
        Some(data) => data[stripe * CHUNK_SIZE + byte],
        None => xor_others(stored_column(disks, stripe, byte), disk),
    }
}

/// Byte `k` of the restored source: it lies in stripe `k / capacity`, and
/// within the data of that stripe at `k % capacity`.
pub open spec fn restored_byte(disks: Seq<Option<Seq<u8>>>, k: int) -> u8 {
    let capacity = stripe_capacity(disks.len() as int);
    let stripe = k / capacity;
    let within = k % capacity;
    chunk_byte(
        disks,
        stripe,
        slot_of_rank(within / CHUNK_SIZE as int, spec_parity_slot(stripe, disks.len() as int)),
        within % CHUNK_SIZE as int,
    )
}

/// The source that a disk set restores to. The set must hold every stripe
/// that the source length asks for: otherwise the disk that runs out first
/// fails the merge, with the bytes of the chunk that it could still give.
pub open spec fn reassemble_spec(set: DiskSet) -> Result<Seq<u8>, Error> {
    let shortest = first_exhausted(set.disks);
    let data = set.disks[shortest]->0;
    if set.file_length <= whole_chunks(data) * stripe_capacity(set.disks.len() as int) {
        Ok(Seq::new(set.file_length as nat, |k: int| restored_byte(set.disks, k)))
    } else {
        Err(
            Error::PartialChunk {
                disk: shortest as usize,
                bytes_read: (data.len() % CHUNK_SIZE as nat) as usize,
            },
        )
    }
}

/// The source that a set of disk images restores to, or why it restores to none.
pub open spec fn merge_spec(images: Seq<Option<Seq<u8>>>) -> Result<Seq<u8>, Error> {
    match open_disks_spec(images) {
        Ok(set) => reassemble_spec(set),
        Err(error) => Err(error),
    }
}

/// An error met among the first disks is the outcome of the whole search.
pub proof fn lemma_discover_error_stays(images: Seq<Option<Seq<u8>>>, upto: int, all: int)
    requires
        0 <= upto <= all,
        discover(images, upto) is Err,
    ensures
        discover(images, all) == discover(images, upto),
    decreases all - upto,
{
    if upto < all {
        lemma_discover_error_stays(images, upto + 1, all);
    }
}

/// What a search that met no error has learnt: which disk is missing, and
/// the length that every opened disk records.
pub proof fn lemma_discover_facts(images: Seq<Option<Seq<u8>>>, upto: int)
    requires
        0 <= upto,
        discover(images, upto) is Ok,
    ensures
        ({
            let found = discover(images, upto)->Ok_0;
            &&& found.missing_disk matches Some(missing) ==> 0 <= missing < upto && !opens(
                images[missing],
            )
            &&& forall|i: int|
                0 <= i < upto && !opens(#[trigger] images[i]) ==> found.missing_disk == Some(i)
            &&& forall|i: int|
                0 <= i < upto && opens(#[trigger] images[i]) ==> header_of(images[i])
                    == found.file_length
            &&& found.file_length is Some <==> exists|i: int|
                0 <= i < upto && opens(#[trigger] images[i])
        }),
    decreases upto,
{
    if upto > 0 {
        lemma_discover_facts(images, upto - 1);
        let before = discover(images, upto - 1)->Ok_0;
        if before.file_length is Some {
            let i = choose|i: int| 0 <= i < upto - 1 && opens(#[trigger] images[i]);
            assert(0 <= i < upto && opens(images[i]));
        }
    }
}

/// An error of the search for disks has its reason among the disks looked
/// at: two that do not open, or two whose headers differ.
pub proof fn lemma_discover_errors(images: Seq<Option<Seq<u8>>>, upto: int)
    requires
        0 <= upto,
        discover(images, upto) is Err,
    ensures
        match discover(images, upto)->Err_0 {
            Error::TooManyMissingDisks => exists|i: int, j: int|
                0 <= i < j < upto && !opens(#[trigger] images[i]) && !opens(#[trigger] images[j]),
            Error::LengthInconsistency { found, expected } => found != expected && exists|
                i: int,
                j: int,
            |
                0 <= i < j < upto && header_of(#[trigger] images[i]) == Some(expected) && header_of(
                    #[trigger] images[j],
                ) == Some(found),
            _ => false,
        },
    decreases upto,
{
    if upto > 0 {
        if discover(images, upto - 1) is Err {
            lemma_discover_errors(images, upto - 1);
            match discover(images, upto)->Err_0 {
                Error::TooManyMissingDisks => {
                    let (i, j) = choose|i: int, j: int|
                        0 <= i < j < upto - 1 && !opens(#[trigger] images[i]) && !opens(
                            #[trigger] images[j],
                        );
                    assert(0 <= i < j < upto && !opens(images[i]) && !opens(images[j]));
                },
                Error::LengthInconsistency { found, expected } => {
                    let (i, j) = choose|i: int, j: int|
                        0 <= i < j < upto - 1 && header_of(#[trigger] images[i]) == Some(expected)
                            && header_of(#[trigger] images[j]) == Some(found);
                    assert(0 <= i < j < upto && header_of(images[i]) == Some(expected) && header_of(
                        images[j],
                    ) == Some(found));
                },
                _ => {},
            }
        } else {
            // The error is met at the last of the disks: the other disk of
            // the two is the one that the search remembers.
            lemma_discover_facts(images, upto - 1);
            let before = discover(images, upto - 1)->Ok_0;
            let j = upto - 1;
            match discover(images, upto)->Err_0 {
                Error::TooManyMissingDisks => {
                    let i = before.missing_disk->0;
                    assert(0 <= i < j < upto && !opens(images[i]) && !opens(images[j]));
                },
                Error::LengthInconsistency { found, expected } => {
                    let i = choose|i: int| 0 <= i < upto - 1 && opens(#[trigger] images[i]);
                    assert(0 <= i < j < upto && header_of(images[i]) == Some(expected) && header_of(
                        images[j],
                    ) == Some(found));
                },
                _ => {},
            }
        }
    }
}

/// The disk set that images make up is well formed.
pub proof fn lemma_opened_set_is_wf(images: Seq<Option<Seq<u8>>>)
    requires
        open_disks_spec(images) is Ok,
    ensures
        open_disks_spec(images)->Ok_0.wf(),
{
    let set = open_disks_spec(images)->Ok_0;
    lemma_discover_facts(images, images.len() as int);
    let present = choose|i: int| 0 <= i < images.len() && opens(#[trigger] images[i]);
    assert(set.disks[present] is Some);
    assert forall|i: int| 0 <= i < set.disks.len() implies ((#[trigger] set.disks[i]) is None
        <==> set.missing_disk == Some(i)) by {
        assert(set.disks[i] == data_of(images[i]));
    }
}

/// Among the first `upto` disks, of which one at least is there, one runs out first.
proof fn lemma_one_runs_out_first(disks: Seq<Option<Seq<u8>>>, upto: int, present: int) -> (first:
    int)
    requires
        0 <= present < upto <= disks.len(),
        disks[present] is Some,
    ensures
        runs_out_first_among(disks, upto, first),
    decreases upto,
{
    if present == upto - 1 {
        if exists|earlier: int| 0 <= earlier < upto - 1 && disks[earlier] is Some {
            let earlier = choose|earlier: int| 0 <= earlier < upto - 1 && disks[earlier] is Some;
            let before = lemma_one_runs_out_first(disks, upto - 1, earlier);
            if whole_chunks(disks[before]->0) <= whole_chunks(disks[present]->0) {
                before
            } else {
                present
            }
        } else {
            present
        }
    } else {
        let before = lemma_one_runs_out_first(disks, upto - 1, present);
        match disks[upto - 1] {
            Some(data) => if whole_chunks(disks[before]->0) <= whole_chunks(data) {
                before
            } else {
                upto - 1
            },
            None => before,
        }
    }
}

/// Only one disk runs out first: the one that `first_exhausted` names.
pub proof fn lemma_first_exhausted_is(disks: Seq<Option<Seq<u8>>>, disk: int)
    requires
        runs_out_first_among(disks, disks.len() as int, disk),
    ensures
        first_exhausted(disks) == disk,
{
    let chosen = first_exhausted(disks);
    assert(runs_out_first_among(disks, disks.len() as int, chosen));
}

/// Where a disk is there, `first_exhausted` names a disk that runs out first.
pub proof fn lemma_first_exhausted_exists(disks: Seq<Option<Seq<u8>>>)
    requires
        exists|i: int| 0 <= i < disks.len() && (#[trigger] disks[i]) is Some,
    ensures
        runs_out_first_among(disks, disks.len() as int, first_exhausted(disks)),
{
    let present = choose|i: int| 0 <= i < disks.len() && (#[trigger] disks[i]) is Some;
    let first = lemma_one_runs_out_first(disks, disks.len() as int, present);
}

/// A short read in stripe `stripe`, all stripes before it having been read,
/// is met on the disk that runs out first, and fails the merge where the
/// source goes on behind the stripes before.
pub proof fn lemma_short_read_fails(set: DiskSet, stripe: int, short: int)
    requires
        0 <= stripe,
        first_short_read(set.disks, stripe * CHUNK_SIZE, short),
        forall|i: int|
            0 <= i < set.disks.len() ==> ((#[trigger] set.disks[i]) matches Some(data)
                ==> data.len() >= stripe * CHUNK_SIZE),
        stripe * stripe_capacity(set.disks.len() as int) < set.file_length,
        short <= usize::MAX,
    ensures
        reassemble_spec(set) == Err::<Seq<u8>, Error>(
            Error::PartialChunk {
                disk: short as usize,
                bytes_read: bytes_left(set.disks[short]->0, stripe * CHUNK_SIZE) as usize,
            },
        ),
{
    let data = set.disks[short]->0;
    assert(whole_chunks(data) == stripe);
    assert(runs_out_first_among(set.disks, set.disks.len() as int, short));
    lemma_first_exhausted_is(set.disks, short);
}

/// A disk set of which every disk that is there holds `stripes` whole
/// chunks restores a source that does not go on behind these stripes.
pub proof fn lemma_enough_stripes_restore(set: DiskSet, stripes: int)
    requires
        set.wf(),
        forall|i: int|
            0 <= i < set.disks.len() ==> ((#[trigger] set.disks[i]) matches Some(data)
                ==> data.len() >= stripes * CHUNK_SIZE),
        set.file_length <= stripes * stripe_capacity(set.disks.len() as int),
    ensures
        reassemble_spec(set) == Ok::<Seq<u8>, Error>(
            Seq::new(set.file_length as nat, |k: int| restored_byte(set.disks, k)),
        ),
{
    lemma_first_exhausted_exists(set.disks);
    let shortest = first_exhausted(set.disks);
    let available = whole_chunks(set.disks[shortest]->0);
    let capacity = stripe_capacity(set.disks.len() as int);
    assert(stripes * capacity <= available * capacity) by (nonlinear_arith)
        requires
            stripes <= available,
            0 <= capacity,
    ;
}

/// The chunks of a stripe as a merge holds them, read from the disks that
/// are there and rebuilt for a missing data disk, are the chunks of the disk
/// set. Nothing is said of the parity chunk.
pub proof fn lemma_chunks_of_stripe(
    set: DiskSet,
    read: Seq<Chunk>,
    chunks: Seq<Chunk>,
    stripe: int,
    disk: int,
    byte: int,
)
    requires
        set.wf(),
        0 <= stripe,
        read.len() == set.disks.len(),
        chunks.len() == set.disks.len(),
        0 <= disk < set.disks.len(),
        disk != spec_parity_slot(stripe, set.disks.len() as int),
        0 <= byte < CHUNK_SIZE,
        forall|i: int|
            0 <= i < set.disks.len() ==> ((#[trigger] set.disks[i]) matches Some(data) ==> {
                &&& stripe * CHUNK_SIZE + CHUNK_SIZE <= data.len()
                &&& read[i]@ == data.subrange(stripe * CHUNK_SIZE, stripe * CHUNK_SIZE + CHUNK_SIZE)
            }),
        forall|i: int|
            0 <= i < set.disks.len() && (#[trigger] set.disks[i]) is Some ==> chunks[i] == read[i],
        set.disks[disk] is None ==> chunks[disk][byte] == xor_others(column(read, byte), disk),
    ensures
        chunks[disk][byte] == chunk_byte(set.disks, stripe, disk, byte),
{
    if set.disks[disk] is None {
        // All other disks are there: but for the slot of the missing disk,
        // the column that was read is the column that is stored.
        let read_column = column(read, byte);
        assert(stored_column(set.disks, stripe, byte) =~= read_column.update(disk, 0u8));
        lemma_xor_others_ignores_slot(read_column, disk, 0u8);
    }
}

/// The data of a stripe whose chunks are those of the disk set is the
/// restored source at the stripe's place.
pub proof fn lemma_stripe_restores(
    disks: Seq<Option<Seq<u8>>>,
    chunks: Seq<Chunk>,
    stripe: int,
    within: int,
)
    requires
        chunks.len() == disks.len(),
        0 <= stripe,
        0 <= within < stripe_capacity(disks.len() as int),
        forall|disk: int, byte: int|
            0 <= disk < disks.len() && disk != spec_parity_slot(stripe, disks.len() as int) && 0
                <= byte < CHUNK_SIZE ==> chunks[disk][byte] == #[trigger] chunk_byte(
                disks,
                stripe,
                disk,
                byte,
            ),
    ensures
        data_bytes(chunks, spec_parity_slot(stripe, disks.len() as int))[within] == restored_byte(
            disks,
            stripe * stripe_capacity(disks.len() as int) + within,
        ),
{
    let capacity = stripe_capacity(disks.len() as int);
    lemma_fundamental_div_mod_converse(stripe * capacity + within, capacity, stripe, within);
}

/// The opened disks of a set: the chunk data of each, the length they agree
/// on, and the one that is missing.
#[derive(Debug, PartialEq, Eq)]
pub struct DiskArray<'a> {
    pub disks: Vec<Option<&'a [u8]>>,
    pub missing_disk: Option<usize>,
    pub file_length: u64,
}

/// The chunk data of opened disks, `None` for a missing one.
pub open spec fn disks_view(disks: Seq<Option<&[u8]>>) -> Seq<Option<Seq<u8>>> {
    Seq::new(
        disks.len(),
        |i: int|
            match disks[i] {
                Some(data) => Some(data@),
                None => None,
            },
    )
}

impl<'a> DiskArray<'a> {
    /// The disk set that the opened disks stand for.
    pub open spec fn view(&self) -> DiskSet {
        DiskSet {
            disks: disks_view(self.disks@),
            missing_disk: match self.missing_disk {
                Some(disk) => Some(disk as int),
                None => None,
            },
            file_length: self.file_length,
        }
    }
}

/// The error for a disk whose header records `a` bytes where `b` were expected.
pub fn length_inconsistency_error(a: u64, b: u64) -> (error: Error)
    ensures
        error == (Error::LengthInconsistency { found: a, expected: b }),
{
    Error::LengthInconsistency { found: a, expected: b }
}

/// Opens one disk: reads the source length from its header and hands out the
/// chunk data behind it. A disk that is absent or shorter than a header does
/// not open.
pub fn open_disk<'a>(image: &'a Option<Vec<u8>>) -> (opened: Option<(&'a [u8], u64)>)
    ensures
        opened is Some <==> opens(image_view(*image)),
        opened matches Some((data, file_length)) ==> {
            &&& Some(data@) == data_of(image_view(*image))
            &&& Some(file_length) == header_of(image_view(*image))
        },
{
    match image {
        None => None,
        Some(bytes) => {
            let length = bytes.len();
            if length < HEADER_SIZE {
                None
            } else {
                let header = slice_subrange(bytes.as_slice(), 0, HEADER_SIZE);
                let file_length = u64_from_le_bytes(header);
                Some((slice_subrange(bytes.as_slice(), HEADER_SIZE, length), file_length))
            }
        },
    }
}

/// Opens the disks of a set in disk order and checks that they belong
/// together. At most one disk may fail to open, and all that open must
/// record the same source length; the first disk that breaks either rule
/// decides the error. Without any disk that opens there is no set.
pub fn open_disks<'a>(images: &'a Vec<Option<Vec<u8>>>) -> (opened: Result<DiskArray<'a>, Error>)
    ensures
        match opened {
            Ok(array) => open_disks_spec(images_view(images@)) == Ok::<DiskSet, Error>(array@),
            Err(error) => open_disks_spec(images_view(images@)) == Err::<DiskSet, Error>(error),
        },
        opened matches Ok(array) ==> array@.wf() && array.disks.len() == images.len(),
{
    let ghost views = images_view(images@);
    let mut optional_disks: Vec<Option<&'a [u8]>> = Vec::with_capacity(images.len());
    let mut missing_index: Option<usize> = None;
    let mut saved_file_length: Option<u64> = None;
    let mut s: usize = 0;
    while s < images.len()
        invariant
            s <= images.len(),
            images.len() == views.len(),
            views == images_view(images@),
            optional_disks.len() == s,
            discover(views, s as int) == Ok::<Discovery, Error>(
                Discovery {
                    missing_disk: match missing_index {
                        Some(disk) => Some(disk as int),
                        None => None,
                    },
                    file_length: saved_file_length,
                },
            ),
            forall|i: int|
                0 <= i < s ==> data_of(views[i]) == #[trigger] disks_view(optional_disks@)[i],
        decreases images.len() - s,
    {
        let ghost opened_before = disks_view(optional_disks@);
        match open_disk(&images[s]) {
            Some((disk, file_length)) => {
                match saved_file_length {
                    Some(saved) => {
                        if saved != file_length {
                            proof {
                                lemma_discover_error_stays(
                                    views,
                                    s as int + 1,
                                    images.len() as int,
                                );
                            }
                            return Err(length_inconsistency_error(file_length, saved));
                        }
                    },
                    None => {
                        saved_file_length = Some(file_length);
                    },
                }
                optional_disks.push(Some(disk));
            },
            None => {
                match missing_index {
                    Some(_) => {
                        proof {
                            lemma_discover_error_stays(views, s as int + 1, images.len() as int);
                        }
                        return Err(Error::TooManyMissingDisks);
                    },
                    None => {
                        missing_index = Some(s);
                    },
                }
                optional_disks.push(None);
            },
        }
        assert forall|i: int| 0 <= i < s implies data_of(views[i]) == #[trigger] disks_view(
            optional_disks@,
        )[i] by {
            assert(disks_view(optional_disks@)[i] == opened_before[i]);
        }
        s += 1;
    }
    match saved_file_length {
        Some(file_length) => {
            let array = DiskArray {
                disks: optional_disks,
                missing_disk: missing_index,
                file_length,
            };
            proof {
                assert(array@.disks =~= Seq::new(views.len(), |i: int| data_of(views[i])));
                lemma_opened_set_is_wf(views);
            }
            Ok(array)
        },
        None => Err(Error::NoDisksAvailable),
    }
}

/// Appends the data chunks of a stripe to the restored file, in disk order,
/// up to `bytes_remaining` bytes. Returns how many bytes remain to be
/// restored after that.
pub fn write_chunks_to_file(
    restored_file: &mut Vec<u8>,
    chunks: &Vec<Chunk>,
    parity_chunk: usize,
    bytes_remaining: u64,
) -> (left: u64)
    ensures
        final(restored_file)@ == old(restored_file)@ + data_bytes(
            chunks@,
            parity_chunk as int,
        ).take(
            min(bytes_remaining as int, data_bytes(chunks@, parity_chunk as int).len() as int),
        ),
        left == bytes_remaining - min(
            bytes_remaining as int,
            data_bytes(chunks@, parity_chunk as int).len() as int,
        ),
{
    let ghost before = restored_file@;
    let ghost data = data_bytes(chunks@, parity_chunk as int);
    let mut remaining = bytes_remaining;
    let mut chunk_index: usize = 0;
    while chunk_index < chunks.len()
        invariant
            chunk_index <= chunks.len(),
            before == old(restored_file)@,
            data == data_bytes(chunks@, parity_chunk as int),
            remaining <= bytes_remaining,
            bytes_remaining - remaining == min(
                bytes_remaining as int,
                data_chunk_count(chunk_index as int, parity_chunk as int) * CHUNK_SIZE,
            ),
            restored_file@ == before + data.take(bytes_remaining - remaining),
        decreases chunks.len() - chunk_index,
    {
        if chunk_index != parity_chunk {
            let ghost rank = data_chunk_count(chunk_index as int, parity_chunk as int);
            let ghost written = bytes_remaining - remaining;
            let to_write: usize = if remaining < CHUNK_SIZE as u64 {
                remaining as usize
            } else {
                CHUNK_SIZE
            };
            let mut byte_index: usize = 0;
            while byte_index < to_write
                invariant
                    byte_index <= to_write <= CHUNK_SIZE,
                    chunk_index < chunks.len(),
                    chunk_index != parity_chunk,
                    data == data_bytes(chunks@, parity_chunk as int),
                    rank == data_chunk_count(chunk_index as int, parity_chunk as int),
                    rank + 1 <= data_chunk_count(chunks.len() as int, parity_chunk as int),
                    to_write > 0 ==> written == rank * CHUNK_SIZE,
                    0 <= written,
                    restored_file@ == before + data.take(written + byte_index),
                decreases to_write - byte_index,
            {
                restored_file.push(chunks[chunk_index][byte_index]);
                byte_index += 1;
            }
            remaining -= to_write as u64;
            if remaining == 0 {
                return 0;
            }
        }
        chunk_index += 1;
    }
    remaining
}

/// Reads the chunk at `position` of every disk that is there into its slot
/// of the stripe; the slot of a missing disk is left as it is, and so are
/// slots without a disk. The first disk that holds no whole chunk there ends
/// the read with an error that names it and the bytes it still had; the
/// slots before it have been read by then.
pub fn read_chunks_from_disks(
    chunks: &mut Vec<Chunk>,
    disks: &Vec<Option<&[u8]>>,
    position: usize,
) -> (outcome: Result<(), Error>)
    requires
        old(chunks).len() >= disks.len(),
    ensures
        final(chunks).len() == old(chunks).len(),
        forall|i: int| disks.len() <= i < old(chunks).len() ==> final(chunks)[i] == old(chunks)[i],
        match outcome {
            Ok(()) => forall|i: int|
                0 <= i < disks.len() ==> match #[trigger] disks_view(disks@)[i] {
                    Some(data) => {
                        &&& bytes_left(data, position as int) >= CHUNK_SIZE
                        &&& final(chunks)[i]@ == data.subrange(
                            position as int,
                            position + CHUNK_SIZE,
                        )
                    },
                    None => final(chunks)[i] == old(chunks)[i],
                },
            Err(error) => {
                &&& error matches Error::PartialChunk { disk, bytes_read }
                &&& first_short_read(disks_view(disks@), position as int, disk as int)
                &&& bytes_read == bytes_left(disks_view(disks@)[disk as int]->0, position as int)
                &&& forall|i: int|
                    0 <= i < disks.len() ==> match #[trigger] disks_view(disks@)[i] {
                        Some(data) if i < disk => final(chunks)[i]@ == data.subrange(
                            position as int,
                            position + CHUNK_SIZE,
                        ),
                        _ => final(chunks)[i] == old(chunks)[i],
                    }
            },
        },
{
    let ghost before = chunks@;
    let ghost views = disks_view(disks@);
    let mut i: usize = 0;
    while i < disks.len()
        invariant
            i <= disks.len(),
            chunks.len() == before.len(),
            before == old(chunks)@,
            before.len() >= disks.len(),
            views == disks_view(disks@),
            forall|j: int|
                0 <= j < i ==> match #[trigger] views[j] {
                    Some(data) => {
                        &&& bytes_left(data, position as int) >= CHUNK_SIZE
                        &&& chunks[j]@ == data.subrange(position as int, position + CHUNK_SIZE)
                    },
                    None => chunks[j] == before[j],
                },
            forall|j: int| i <= j < chunks.len() ==> chunks[j] == before[j],
        decreases disks.len() - i,
    {
        match disks[i] {
            None => {},
            Some(disk) => {
                let length = disk.len();
                if length < CHUNK_SIZE || position > length - CHUNK_SIZE {
                    let bytes_read = if position < length {
                        length - position
                    } else {
                        0
                    };
                    return Err(Error::PartialChunk { disk: i, bytes_read });
                }
                let ghost unread = chunks@;
                let mut byte_index: usize = 0;
                while byte_index < CHUNK_SIZE
                    invariant
                        byte_index <= CHUNK_SIZE,
                        i < chunks.len(),
                        chunks.len() == unread.len(),
                        position + CHUNK_SIZE <= disk@.len() <= usize::MAX,
                        forall|b: int|
                            0 <= b < byte_index ==> chunks[i as int][b] == disk[position + b],
                        forall|j: int| 0 <= j < chunks.len() && j != i ==> chunks[j] == unread[j],
                    decreases CHUNK_SIZE - byte_index,
                {
                    chunks[i][byte_index] = disk[position + byte_index];
                    byte_index += 1;
                }
            },
        }
        i += 1;
    }
    Ok(())
}

/// Restores the source from the images of its disks, `None` standing for a
/// disk that could not be read. One disk may be missing, or too short to
/// hold a header: its chunks are rebuilt from the others. A disk that opens
/// and ends before the last stripe that the source length asks for fails
/// the merge.
///
/// A single disk holds nothing but parity: it restores the empty source and
/// no other.
pub fn merge(images: &Vec<Option<Vec<u8>>>) -> (restored: Result<Vec<u8>, Error>)
    ensures
        match restored {
            Ok(source) => merge_spec(images_view(images@)) == Ok::<Seq<u8>, Error>(source@),
            Err(error) => merge_spec(images_view(images@)) == Err::<Seq<u8>, Error>(error),
        },
{
    let disk_array = match open_disks(images) {
        Ok(disk_array) => disk_array,
        Err(error) => {
            return Err(error);
        },
    };
    let ghost set = disk_array@;
    let ghost present = choose|i: int|
        0 <= i < set.disks.len() && (#[trigger] set.disks[i]) is Some;
    let disks = disk_array.disks.len();
    let mut restored_file: Vec<u8> = Vec::new();
    let mut remaining_bytes = disk_array.file_length;
    let mut chunks = create_chunks_vec(disks);
    let mut stripe: usize = 0;
    let mut position: usize = 0;
    while remaining_bytes > 0
        invariant
            set == disk_array@,
            set.wf(),
            merge_spec(images_view(images@)) == reassemble_spec(set),
            disks == disk_array.disks.len(),
            chunks.len() == disks,
            0 <= present < disks,
            set.disks[present] is Some,
            position == stripe * CHUNK_SIZE,
            forall|i: int|
                0 <= i < disks ==> ((#[trigger] set.disks[i]) matches Some(data) ==> data.len()
                    >= position),
            restored_file@.len() + remaining_bytes == set.file_length,
            remaining_bytes > 0 ==> restored_file@.len() == stripe * stripe_capacity(disks as int),
            restored_file@.len() <= stripe * stripe_capacity(disks as int),
            forall|k: int|
                0 <= k < restored_file@.len() ==> restored_file@[k] == restored_byte(set.disks, k),
        decreases set.disks[present]->0.len() - position,
    {
        let ghost capacity = stripe_capacity(disks as int);
        let ghost restored_before = restored_file@;
        let parity_disk = parity_slot(stripe, disks);
        match read_chunks_from_disks(&mut chunks, &disk_array.disks, position) {
            Ok(()) => {},
            Err(error) => {
                proof {
                    lemma_short_read_fails(set, stripe as int, error->disk as int);
                }
                return Err(error);
            },
        }
        let ghost chunks_read = chunks@;
        match disk_array.missing_disk {
            Some(missing_disk) => {
                if parity_disk != missing_disk {
                    reconstruct_chunk(&mut chunks, missing_disk);
                }
            },
            None => {},
        }
        proof {
            assert forall|disk: int, byte: int|
                0 <= disk < disks && disk != parity_disk && 0 <= byte < CHUNK_SIZE implies
                chunks[disk][byte] == #[trigger] chunk_byte(set.disks, stripe as int, disk, byte) by {
                lemma_chunks_of_stripe(set, chunks_read, chunks@, stripe as int, disk, byte);
            }
        }
        remaining_bytes = write_chunks_to_file(
            &mut restored_file,
            &chunks,
            parity_disk,
            remaining_bytes,
        );
        proof {
            assert((stripe + 1) * capacity == stripe * capacity + capacity) by (nonlinear_arith);
            assert forall|k: int| 0 <= k < restored_file@.len() implies restored_file@[k]
                == restored_byte(set.disks, k) by {
                if k >= restored_before.len() {
                    let within = k - restored_before.len();
                    lemma_stripe_restores(set.disks, chunks@, stripe as int, within);
                }
            }
            assert(position + CHUNK_SIZE <= set.disks[present]->0.len() <= usize::MAX) by {
                let slice = disk_array.disks[present]->0;
                assert(slice@.len() == slice.len());
            }
        }
        stripe += 1;
        position += CHUNK_SIZE;
    }
    proof {
        lemma_enough_stripes_restore(set, stripe as int);
        assert(restored_file@ =~= Seq::new(
            set.file_length as nat,
            |k: int| restored_byte(set.disks, k),
        ));
    }
    Ok(restored_file)
}

} // verus!
