//! Seeding the page cache from a timeline's snapshot files and ingesting
//! decoded WAL records.
//!
//! The surrounding process walks the snapshot and WAL directories and reads
//! the files; everything it then decides — which names parse, which blocks a
//! file or record carries, and what lands in the cache — happens here.

use vstd::prelude::*;
use vstd::slice::slice_to_vec;
use vstd::string::StringSliceAdditionalSpecFns;

use crate::buf::{bytes_clone, bytes_from_vec, bytes_view};
use crate::filepath::{parse_relfilename, spec_parse_hex_u64, spec_parse_relfilename};
use crate::filepath::parse_hex_u64;
use crate::filepath::FilePathError;
use crate::page_cache::{
    has_version, image_entry, record_entry, rel_of, relsize_after, relsize_get_or_zero, BufferTag,
    CacheView, EntryView, PageCache, RelTag, WALRecord, WalRecordView,
};
use crate::Lsn;
use crate::PAGE_SZ;

verus! {

/// Failures of snapshot and WAL loading.
#[derive(Clone, Copy, PartialEq, Eq, Structural, Debug)]
pub enum RestoreError {
    /// A file name that does not parse as a relation data file.
    BadFileName,
    /// A block number that would exceed the addressable range.
    BlockOutOfRange,
    /// An entry already exists at a key about to be inserted.
    DuplicateEntry,
    /// A record position behind a watermark.
    BackwardsLsn,
}

/// One block reference decoded from a WAL record header.
#[derive(Clone, Copy, PartialEq, Eq, Structural, Debug)]
pub struct DecodedBlock {
    pub rnode_spcnode: u32,
    pub rnode_dbnode: u32,
    pub rnode_relnode: u32,
    pub forknum: u8,
    pub blkno: u32,
    pub will_init: bool,
    pub apply_image: bool,
}

/// The page a decoded block reference points at.
pub open spec fn block_tag(b: DecodedBlock) -> BufferTag {
    BufferTag {
        spcnode: b.rnode_spcnode,
        dbnode: b.rnode_dbnode,
        relnode: b.rnode_relnode,
        forknum: b.forknum,
        blknum: b.blkno,
    }
}

/// The entry that ingesting record `rec` at `lsn` creates for block `b`: a
/// WAL record entry, initializing the page if either the record says so or
/// it embeds a full-page image.
pub open spec fn block_record_entry(b: DecodedBlock, lsn: Lsn, rec: Seq<u8>) -> EntryView {
    record_entry(
        block_tag(b),
        WalRecordView { lsn, will_init: b.will_init || b.apply_image, rec },
    )
}

/// The entries that ingesting one record creates, in block order.
pub open spec fn block_entries(blocks: Seq<DecodedBlock>, lsn: Lsn, rec: Seq<u8>) -> Seq<EntryView> {
    blocks.map_values(|b: DecodedBlock| block_record_entry(b, lsn, rec))
}

/// The relation-size cache after ingesting one record: each block raises its
/// relation's size to cover it, in block order.
pub open spec fn relsizes_after_blocks(m: Map<RelTag, u32>, blocks: Seq<DecodedBlock>) -> Map<
    RelTag,
    u32,
>
    decreases blocks.len(),
{
    if blocks.len() == 0 {
        m
    } else {
        let prefix = relsizes_after_blocks(m, blocks.drop_last());
        let b = blocks.last();
        prefix.insert(
            rel_of(block_tag(b)),
            relsize_after(prefix, rel_of(block_tag(b)), Some(b.blkno)),
        )
    }
}

/// What ingesting one decoded WAL record does to the cache: one record
/// entry per affected block, all sharing the record bytes, and the
/// `last_valid_lsn` watermark moved up to the record's position — or the
/// reason the record is refused, with the cache untouched.
pub open spec fn spec_ingest_wal_record(
    v: CacheView,
    lsn: Lsn,
    rec: Seq<u8>,
    blocks: Seq<DecodedBlock>,
) -> Result<CacheView, RestoreError> {
    if lsn < v.last_valid_lsn || lsn < v.first_valid_lsn {
        Err(RestoreError::BackwardsLsn)
    } else if exists|i: int| 0 <= i < blocks.len() && (#[trigger] blocks[i]).blkno == u32::MAX {
        Err(RestoreError::BlockOutOfRange)
    } else if (exists|i: int|
        0 <= i < blocks.len() && has_version(v.entries, block_tag(#[trigger] blocks[i]), lsn)) || (
    exists|i: int, j: int|
        0 <= i < j < blocks.len() && block_tag(#[trigger] blocks[i]) == block_tag(
            #[trigger] blocks[j],
        )) {
        Err(RestoreError::DuplicateEntry)
    } else {
        Ok(
            CacheView {
                entries: v.entries + block_entries(blocks, lsn, rec),
                relsizes: relsizes_after_blocks(v.relsizes, blocks),
                last_valid_lsn: lsn,
                ..v
            },
        )
    }
}

proof fn lemma_has_version_push(entries: Seq<EntryView>, e: EntryView, tag: BufferTag, lsn: Lsn)
    ensures
        has_version(entries.push(e), tag, lsn) == (has_version(entries, tag, lsn) || (e.tag == tag
            && e.lsn == lsn)),
{
    if has_version(entries, tag, lsn) {
        let i = choose|i: int|
            0 <= i < entries.len() && entries[i].tag == tag && entries[i].lsn == lsn;
        assert(entries.push(e)[i] == entries[i]);
    }
    if e.tag == tag && e.lsn == lsn {
        assert(entries.push(e)[entries.len() as int] == e);
    }
    if has_version(entries.push(e), tag, lsn) {
        let i = choose|i: int|
            0 <= i < entries.push(e).len() && entries.push(e)[i].tag == tag && entries.push(
                e,
            )[i].lsn == lsn;
        if i < entries.len() {
            assert(entries[i].tag == tag && entries[i].lsn == lsn);
        } else {
            assert(entries.push(e)[i] == e);
        }
    }
}

/// Ingests one decoded WAL record: for every affected block, a record entry
/// sharing the record bytes, then the `last_valid_lsn` watermark moves up to
/// the record's position. A record behind a watermark, a block number at
/// the addressable limit, a block already versioned at this position, or
/// two references to one block are refused, leaving the cache untouched.
pub fn ingest_wal_record(
    pcache: &mut PageCache,
    lsn: Lsn,
    recdata: &bytes::Bytes,
    blocks: &Vec<DecodedBlock>,
) -> (r: Result<(), RestoreError>)
    requires
        old(pcache).wf(),
    ensures
        final(pcache).wf(),
        match r {
            Ok(()) => spec_ingest_wal_record(old(pcache)@, lsn, bytes_view(*recdata), blocks@)
                == Ok::<CacheView, RestoreError>(final(pcache)@),
            Err(e) => spec_ingest_wal_record(old(pcache)@, lsn, bytes_view(*recdata), blocks@)
                == Err::<CacheView, RestoreError>(e) && final(pcache)@ == old(pcache)@,
        },
{
    let n = blocks.len();
    if lsn < pcache.get_last_valid_lsn() || lsn < pcache.get_first_valid_lsn() {
        return Err(RestoreError::BackwardsLsn);
    }
    let mut i: usize = 0;
    while i < n
        invariant
            pcache == old(pcache),
            old(pcache).wf(),
            lsn >= pcache@.last_valid_lsn,
            lsn >= pcache@.first_valid_lsn,
            n == blocks@.len(),
            i <= n,
            forall|j: int| 0 <= j < i ==> (#[trigger] blocks@[j]).blkno < u32::MAX,
        decreases n - i,
    {
        if blocks[i].blkno == u32::MAX {
            return Err(RestoreError::BlockOutOfRange);
        }
        i = i + 1;
    }
    let mut i: usize = 0;
    while i < n
        invariant
            pcache == old(pcache),
            old(pcache).wf(),
            lsn >= pcache@.last_valid_lsn,
            lsn >= pcache@.first_valid_lsn,
            n == blocks@.len(),
            i <= n,
            forall|j: int| 0 <= j < n ==> (#[trigger] blocks@[j]).blkno < u32::MAX,
            forall|j: int|
                0 <= j < i ==> !has_version(
                    pcache@.entries,
                    block_tag(#[trigger] blocks@[j]),
                    lsn,
                ),
            forall|j: int, k: int|
                0 <= j < k < i ==> block_tag(#[trigger] blocks@[j]) != block_tag(
                    #[trigger] blocks@[k],
                ),
        decreases n - i,
    {
        let b = blocks[i];
        let tag = BufferTag {
            spcnode: b.rnode_spcnode,
            dbnode: b.rnode_dbnode,
            relnode: b.rnode_relnode,
            forknum: b.forknum,
            blknum: b.blkno,
        };
        if pcache.contains_version(tag, lsn) {
            return Err(RestoreError::DuplicateEntry);
        }
        let mut j: usize = 0;
        while j < i
            invariant
                pcache == old(pcache),
                old(pcache).wf(),
                lsn >= pcache@.last_valid_lsn,
                lsn >= pcache@.first_valid_lsn,
                n == blocks@.len(),
                j <= i < n,
                forall|k: int| 0 <= k < n ==> (#[trigger] blocks@[k]).blkno < u32::MAX,
                b == blocks@[i as int],
                tag == block_tag(blocks@[i as int]),
                forall|k: int|
                    0 <= k < j ==> block_tag(#[trigger] blocks@[k]) != block_tag(
                        blocks@[i as int],
                    ),
            decreases i - j,
        {
            let c = blocks[j];
            if c.rnode_spcnode == b.rnode_spcnode && c.rnode_dbnode == b.rnode_dbnode
                && c.rnode_relnode == b.rnode_relnode && c.forknum == b.forknum && c.blkno
                == b.blkno {
                assert(block_tag(blocks@[j as int]) == block_tag(blocks@[i as int]));
                return Err(RestoreError::DuplicateEntry);
            }
            assert(block_tag(blocks@[j as int]) != block_tag(blocks@[i as int]));
            j = j + 1;
        }
        i = i + 1;
    }
    let ghost orig = old(pcache)@;
    let ghost recv = bytes_view(*recdata);
    let mut i: usize = 0;
    proof {
        assert(orig.entries + block_entries(blocks@.take(0), lsn, recv) =~= orig.entries);
        assert(relsizes_after_blocks(orig.relsizes, blocks@.take(0)) == orig.relsizes);
    }
    while i < n
        invariant
            pcache.wf(),
            orig == old(pcache)@,
            recv == bytes_view(*recdata),
            lsn >= orig.last_valid_lsn,
            lsn >= orig.first_valid_lsn,
            n == blocks@.len(),
            i <= n,
            forall|j: int| 0 <= j < n ==> (#[trigger] blocks@[j]).blkno < u32::MAX,
            forall|j: int, k: int|
                0 <= j < k < n ==> block_tag(#[trigger] blocks@[j]) != block_tag(
                    #[trigger] blocks@[k],
                ),
            forall|j: int|
                0 <= j < n ==> !has_version(orig.entries, block_tag(#[trigger] blocks@[j]), lsn),
            forall|j: int|
                i <= j < n ==> !has_version(pcache@.entries, block_tag(#[trigger] blocks@[j]), lsn),
            pcache@.entries == orig.entries + block_entries(blocks@.take(i as int), lsn, recv),
            pcache@.relsizes == relsizes_after_blocks(orig.relsizes, blocks@.take(i as int)),
            pcache@.first_valid_lsn == orig.first_valid_lsn,
            pcache@.last_valid_lsn == orig.last_valid_lsn,
            pcache@.redo_queue == orig.redo_queue,
        decreases n - i,
    {
        let b = blocks[i];
        let tag = BufferTag {
            spcnode: b.rnode_spcnode,
            dbnode: b.rnode_dbnode,
            relnode: b.rnode_relnode,
            forknum: b.forknum,
            blknum: b.blkno,
        };
        let rec = WALRecord {
            lsn,
            will_init: b.will_init || b.apply_image,
            rec: bytes_clone(recdata),
        };
        let ghost before = pcache@;
        pcache.put_wal_record(tag, rec);
        proof {
            let e = block_record_entry(blocks@[i as int], lsn, recv);
            assert(record_entry(tag, WalRecordView { lsn, will_init: b.will_init || b.apply_image, rec: recv })
                =~= e);
            assert(blocks@.take(i as int + 1).drop_last() =~= blocks@.take(i as int));
            assert forall|j: int| 0 <= j < i + 1 implies block_entries(
                blocks@.take(i as int + 1),
                lsn,
                recv,
            )[j] == block_entries(blocks@.take(i as int), lsn, recv).push(e)[j] by {
                assert(blocks@.take(i as int + 1)[j] == blocks@[j]);
                if j < i {
                    assert(blocks@.take(i as int)[j] == blocks@[j]);
                }
            }
            assert(block_entries(blocks@.take(i as int + 1), lsn, recv) =~= block_entries(
                blocks@.take(i as int),
                lsn,
                recv,
            ).push(e));
            assert(pcache@.entries =~= orig.entries + block_entries(
                blocks@.take(i as int + 1),
                lsn,
                recv,
            ));
            assert(pcache@.relsizes == relsizes_after_blocks(
                orig.relsizes,
                blocks@.take(i as int + 1),
            ));
            assert forall|j: int|
                i + 1 <= j < n implies !has_version(
                pcache@.entries,
                block_tag(#[trigger] blocks@[j]),
                lsn,
            ) by {
                lemma_has_version_push(before.entries, e, block_tag(blocks@[j]), lsn);
            }
        }
        i = i + 1;
    }
    proof {
        assert(blocks@.take(n as int) =~= blocks@);
    }
    pcache.advance_last_valid_lsn(lsn);
    proof {
        assert(pcache@ =~= (CacheView {
            entries: orig.entries + block_entries(blocks@, lsn, recv),
            relsizes: relsizes_after_blocks(orig.relsizes, blocks@),
            last_valid_lsn: lsn,
            ..orig
        }));
    }
    Ok(())
}

/// The page identified by the parsed parts of a relation file name.
pub open spec fn relfile_tag(
    spcnode: u32,
    dbnode: u32,
    relnode: u32,
    forknum: u32,
    blknum: u32,
) -> BufferTag {
    BufferTag { spcnode, dbnode, relnode, forknum: forknum as u8, blknum }
}

/// The page versions one relation data file contributes: its full pages,
/// numbered consecutively from `startblk`.
pub open spec fn relfile_entries(
    spcnode: u32,
    dbnode: u32,
    relnode: u32,
    forknum: u32,
    startblk: u32,
    lsn: Lsn,
    data: Seq<u8>,
    nblocks: int,
) -> Seq<EntryView> {
    Seq::new(
        nblocks as nat,
        |i: int|
            image_entry(
                relfile_tag(spcnode, dbnode, relnode, forknum, (startblk + i) as u32),
                lsn,
                data.subrange(i * (PAGE_SZ as int), (i + 1) * (PAGE_SZ as int)),
            ),
    )
}

/// What loading one snapshot relation file does to the cache: an image
/// entry per full page of the file, at the snapshot position, and the
/// relation's cached size raised past the last block — or the reason the
/// file is refused, with the cache untouched. A trailing partial page is
/// the normal end of the file and is not loaded.
pub open spec fn spec_restore_relfile(
    v: CacheView,
    spcnode: u32,
    dbnode: u32,
    lsn: Lsn,
    fname: Seq<u8>,
    data: Seq<u8>,
) -> Result<CacheView, RestoreError> {
    match spec_parse_relfilename(fname) {
        None => Err(RestoreError::BadFileName),
        Some(parsed) => {
            let relnode = parsed.0;
            let forknum = parsed.1;
            let segno = parsed.2;
            let nblocks = data.len() as int / (PAGE_SZ as int);
            let start = segno * (0x4000_0000int / (PAGE_SZ as int));
            if start + nblocks >= u32::MAX {
                Err(RestoreError::BlockOutOfRange)
            } else if exists|i: int|
                0 <= i < nblocks && #[trigger] has_version(
                    v.entries,
                    relfile_tag(spcnode, dbnode, relnode, forknum, (start + i) as u32),
                    lsn,
                ) {
                Err(RestoreError::DuplicateEntry)
            } else {
                let rel = RelTag { spcnode, dbnode, relnode, forknum: forknum as u8 };
                Ok(
                    CacheView {
                        entries: v.entries + relfile_entries(
                            spcnode,
                            dbnode,
                            relnode,
                            forknum,
                            start as u32,
                            lsn,
                            data,
                            nblocks,
                        ),
                        relsizes: v.relsizes.insert(
                            rel,
                            relsize_after(v.relsizes, rel, Some((start + nblocks) as u32)),
                        ),
                        ..v
                    },
                )
            }
        },
    }
}

/// Loads one snapshot relation file into the cache: parses its name,
/// stores an image entry per full page at the snapshot position `lsn`, and
/// raises the relation's cached size past the last block.
pub fn restore_relfile(
    pcache: &mut PageCache,
    spcnode: u32,
    dbnode: u32,
    lsn: Lsn,
    fname: &str,
    data: &[u8],
) -> (r: Result<(), RestoreError>)
    requires
        old(pcache).wf(),
    ensures
        final(pcache).wf(),
        match r {
            Ok(()) => spec_restore_relfile(
                old(pcache)@,
                spcnode,
                dbnode,
                lsn,
                fname.spec_bytes(),
                data@,
            ) == Ok::<CacheView, RestoreError>(final(pcache)@),
            Err(e) => spec_restore_relfile(
                old(pcache)@,
                spcnode,
                dbnode,
                lsn,
                fname.spec_bytes(),
                data@,
            ) == Err::<CacheView, RestoreError>(e) && final(pcache)@ == old(pcache)@,
        },
{
    let parsed = match parse_relfilename(fname) {
        Err(_) => {
            return Err(RestoreError::BadFileName);
        },
        Ok(t) => t,
    };
    let relnode = parsed.0;
    let forknum = parsed.1;
    let segno = parsed.2;
    let datalen: usize = data.len();
    let nblocks: usize = datalen / PAGE_SZ;
    proof {
        vstd::arithmetic::div_mod::lemma_fundamental_div_mod(data.len() as int, PAGE_SZ as int);
        vstd::arithmetic::div_mod::lemma_mod_bound(data.len() as int, PAGE_SZ as int);
    }
    let start64: u64 = segno as u64 * (0x4000_0000u64 / PAGE_SZ as u64);
    if start64 + nblocks as u64 >= 0xffff_ffffu64 {
        return Err(RestoreError::BlockOutOfRange);
    }
    let startblk: u32 = start64 as u32;
    let mut i: usize = 0;
    while i < nblocks
        invariant
            pcache == old(pcache),
            old(pcache).wf(),
            spec_parse_relfilename(fname.spec_bytes()) == Some((relnode, forknum, segno)),
            nblocks == data@.len() as int / (PAGE_SZ as int),
            start64 == segno * (0x4000_0000int / (PAGE_SZ as int)),
            start64 + nblocks < u32::MAX,
            startblk == start64 as u32,
            i <= nblocks,
            forall|j: int|
                0 <= j < i ==> !(#[trigger] has_version(
                    pcache@.entries,
                    relfile_tag(spcnode, dbnode, relnode, forknum, (startblk + j) as u32),
                    lsn,
                )),
        decreases nblocks - i,
    {
        let tag = BufferTag {
            spcnode,
            dbnode,
            relnode,
            forknum: forknum as u8,
            blknum: startblk + i as u32,
        };
        if pcache.contains_version(tag, lsn) {
            proof {
                assert(has_version(
                    pcache@.entries,
                    relfile_tag(
                        spcnode,
                        dbnode,
                        relnode,
                        forknum,
                        (start64 as int + i as int) as u32,
                    ),
                    lsn,
                ));
            }
            return Err(RestoreError::DuplicateEntry);
        }
        i = i + 1;
    }
    let ghost orig = old(pcache)@;
    let rel = RelTag { spcnode, dbnode, relnode, forknum: forknum as u8 };
    let ghost target = relfile_entries(
        spcnode,
        dbnode,
        relnode,
        forknum,
        startblk,
        lsn,
        data@,
        nblocks as int,
    );
    let mut i: usize = 0;
    proof {
        assert(orig.entries + target.take(0) =~= orig.entries);
    }
    while i < nblocks
        invariant
            pcache.wf(),
            orig == old(pcache)@,
            spec_parse_relfilename(fname.spec_bytes()) == Some((relnode, forknum, segno)),
            datalen == data@.len(),
            nblocks == data@.len() as int / (PAGE_SZ as int),
            nblocks * (PAGE_SZ as int) <= datalen,
            start64 == segno * (0x4000_0000int / (PAGE_SZ as int)),
            start64 + nblocks < u32::MAX,
            startblk == start64 as u32,
            target == relfile_entries(
                spcnode,
                dbnode,
                relnode,
                forknum,
                startblk,
                lsn,
                data@,
                nblocks as int,
            ),
            rel == (RelTag { spcnode, dbnode, relnode, forknum: forknum as u8 }),
            i <= nblocks,
            forall|j: int|
                0 <= j < nblocks ==> !(#[trigger] has_version(
                    orig.entries,
                    relfile_tag(spcnode, dbnode, relnode, forknum, (startblk + j) as u32),
                    lsn,
                )),
            forall|j: int|
                i <= j < nblocks ==> !(#[trigger] has_version(
                    pcache@.entries,
                    relfile_tag(spcnode, dbnode, relnode, forknum, (startblk + j) as u32),
                    lsn,
                )),
            pcache@.entries == orig.entries + target.take(i as int),
            i == 0 ==> pcache@.relsizes == orig.relsizes,
            i > 0 ==> pcache@.relsizes == orig.relsizes.insert(
                rel,
                relsize_after(orig.relsizes, rel, Some((startblk + i - 1) as u32)),
            ),
            pcache@.first_valid_lsn == orig.first_valid_lsn,
            pcache@.last_valid_lsn == orig.last_valid_lsn,
            pcache@.redo_queue == orig.redo_queue,
        decreases nblocks - i,
    {
        let tag = BufferTag {
            spcnode,
            dbnode,
            relnode,
            forknum: forknum as u8,
            blknum: startblk + i as u32,
        };
        proof {
            assert(i * (PAGE_SZ as int) + PAGE_SZ <= nblocks * (PAGE_SZ as int)) by (
            nonlinear_arith)
                requires
                    i + 1 <= nblocks,
                    PAGE_SZ == 8192,
            ;
            assert(i * (PAGE_SZ as int) + PAGE_SZ <= datalen);
        }
        let a = i * PAGE_SZ;
        let block: Vec<u8> = slice_to_vec(&data[a..a + PAGE_SZ]);
        let img = bytes_from_vec(block);
        let ghost before = pcache@;
        pcache.put_page_image(tag, lsn, img);
        proof {
            let e = image_entry(
                relfile_tag(spcnode, dbnode, relnode, forknum, (startblk + i) as u32),
                lsn,
                data@.subrange(
                    i as int * (PAGE_SZ as int),
                    (i as int + 1) * (PAGE_SZ as int),
                ),
            );
            assert(bytes_view(img) == data@.subrange(
                i as int * (PAGE_SZ as int),
                (i as int + 1) * (PAGE_SZ as int),
            ));
            assert(target[i as int] == e);
            assert(target.take(i as int + 1) =~= target.take(i as int).push(e));
            assert(pcache@.entries =~= orig.entries + target.take(i as int + 1));
            if i > 0 {
                assert(relsize_get_or_zero(before.relsizes, rel) == relsize_after(
                    orig.relsizes,
                    rel,
                    Some((startblk + i - 1) as u32),
                ));
            }
            assert(pcache@.relsizes =~= orig.relsizes.insert(
                rel,
                relsize_after(orig.relsizes, rel, Some((startblk + i) as u32)),
            ));
            assert forall|j: int|
                i + 1 <= j < nblocks implies !(#[trigger] has_version(
                pcache@.entries,
                relfile_tag(spcnode, dbnode, relnode, forknum, (startblk + j) as u32),
                lsn,
            )) by {
                lemma_has_version_push(
                    before.entries,
                    e,
                    relfile_tag(spcnode, dbnode, relnode, forknum, (startblk + j) as u32),
                    lsn,
                );
            }
        }
        i = i + 1;
    }
    let ghost before_inc = pcache@;
    let endblk: u32 = startblk + nblocks as u32;
    pcache.relsize_inc(&rel, Some(endblk));
    proof {
        assert(target.take(nblocks as int) =~= target);
        if nblocks > 0 {
            assert(relsize_get_or_zero(before_inc.relsizes, rel) == relsize_after(
                orig.relsizes,
                rel,
                Some((startblk + nblocks - 1) as u32),
            ));
        }
        assert(pcache@.relsizes =~= orig.relsizes.insert(
            rel,
            relsize_after(orig.relsizes, rel, Some(endblk)),
        ));
        assert(pcache@ =~= (CacheView {
            entries: orig.entries + target,
            relsizes: orig.relsizes.insert(rel, relsize_after(orig.relsizes, rel, Some(endblk))),
            ..orig
        }));
    }
    Ok(())
}

fn bytes_equal(a: &[u8], b: &[u8]) -> (r: bool)
    ensures
        r == (a@ == b@),
{
    let n = a.len();
    if n != b.len() {
        proof {
            if a@ == b@ {
                assert(a@.len() == b@.len());
            }
        }
        return false;
    }
    let mut i: usize = 0;
    while i < n
        invariant
            n == a@.len(),
            n == b@.len(),
            i <= n,
            forall|j: int| 0 <= j < i ==> a@[j] == b@[j],
        decreases n - i,
    {
        if a[i] != b[i] {
            proof {
                if a@ == b@ {
                    assert(a@[i as int] == b@[i as int]);
                }
            }
            return false;
        }
        i = i + 1;
    }
    proof {
        assert(a@ =~= b@);
    }
    true
}

/// Whether `s` names one of the non-relation files in a snapshot directory.
pub open spec fn spec_system_filename(s: Seq<u8>) -> bool {
    ||| s == "pg_control".spec_bytes()
    ||| s == "pg_filenode.map".spec_bytes()
    ||| s == "PG_VERSION".spec_bytes()
}

/// Whether `name` is one of the fixed non-relation files the snapshot
/// loader skips: `pg_control`, `pg_filenode.map`, `PG_VERSION`.
pub fn is_system_filename(name: &str) -> (r: bool)
    ensures
        r == spec_system_filename(name.spec_bytes()),
{
    let b = name.as_bytes();
    bytes_equal(b, "pg_control".as_bytes()) || bytes_equal(b, "pg_filenode.map".as_bytes())
        || bytes_equal(b, "PG_VERSION".as_bytes())
}

/// The views of a list of byte vectors.
pub open spec fn names_view(names: Seq<Vec<u8>>) -> Seq<Seq<u8>> {
    names.map_values(|n: Vec<u8>| n@)
}

/// The latest snapshot position named by a list of snapshot directory
/// names, each the position in hexadecimal: the greatest of the values, or
/// zero if the list is empty; a name that does not parse spoils the whole
/// list.
pub open spec fn spec_latest_snapshot(names: Seq<Seq<u8>>) -> Option<u64>
    decreases names.len(),
{
    if names.len() == 0 {
        Some(0)
    } else {
        match (spec_latest_snapshot(names.drop_last()), spec_parse_hex_u64(names.last())) {
            (Some(m), Some(v)) => Some(
                if v > m {
                    v
                } else {
                    m
                },
            ),
            _ => None,
        }
    }
}

/// Picks the latest snapshot among directory names that spell the snapshot
/// position in hexadecimal; an empty list yields position zero.
pub fn find_latest_snapshot(names: &Vec<Vec<u8>>) -> (r: Result<u64, FilePathError>)
    ensures
        match r {
            Ok(v) => spec_latest_snapshot(names_view(names@)) == Some(v),
            Err(_) => spec_latest_snapshot(names_view(names@)) is None,
        },
{
    let n = names.len();
    let mut best: u64 = 0;
    let mut i: usize = 0;
    proof {
        assert(names_view(names@).take(0) =~= names_view(names@.take(0)));
    }
    while i < n
        invariant
            n == names@.len(),
            i <= n,
            spec_latest_snapshot(names_view(names@).take(i as int)) == Some(best),
        decreases n - i,
    {
        let lsn = match parse_hex_u64(names[i].as_slice()) {
            None => {
                proof {
                    lemma_latest_snapshot_spoiled(names_view(names@), i as int);
                }
                return Err(FilePathError::new("invalid snapshot directory name"));
            },
            Some(v) => v,
        };
        proof {
            assert(names_view(names@).take(i as int + 1).drop_last() =~= names_view(
                names@,
            ).take(i as int));
            assert(names_view(names@).take(i as int + 1).last() == names@[i as int]@);
        }
        if lsn > best {
            best = lsn;
        }
        i = i + 1;
    }
    proof {
        assert(names_view(names@).take(n as int) =~= names_view(names@));
    }
    Ok(best)
}

proof fn lemma_latest_snapshot_spoiled(names: Seq<Seq<u8>>, i: int)
    requires
        0 <= i < names.len(),
        spec_parse_hex_u64(names[i]) is None,
    ensures
        spec_latest_snapshot(names) is None,
    decreases names.len(),
{
    if i < names.len() - 1 {
        assert(forall|j: int| 0 <= j < names.len() - 1 ==> names.drop_last()[j] == names[j]);
        lemma_latest_snapshot_spoiled(names.drop_last(), i);
    }
}

} // verus!
