//! The sector-addressed archive container ("UNI2").
//!
//! An archive is a flat byte buffer: an 8-byte magic, three little-endian
//! `u32` header words (entry count, table sector, data sector), a directory
//! table of 16-byte records at the table sector, and sector-aligned blobs in
//! the data region.  The sector size is fixed at 0x800 bytes.
//!
//! `open` reads and validates the directory, `extract` cuts one blob out,
//! and `build` lays a whole archive out from scratch.  The contracts are
//! stated over the spec-level codec (`spec_open`, `spec_extract`,
//! `spec_build`); `lemma_archive_round_trip` proves that opening and
//! extracting from a built archive gives back exactly the blobs it was
//! built from.

use vstd::prelude::*;
use crate::Error;
use crate::words::{word_at, w32, zeros, off32, off32_of, read_u32_le, put_u32_le, put_zeros, bytes_eq_at, lemma_word_at_of_w32};
use vstd::slice::{slice_subrange, slice_to_vec};

verus! {

broadcast use vstd::seq::group_seq_axioms;

/// Addressing unit of the archive: every region starts on a multiple of
/// this many bytes.
pub const SECTOR_SIZE: u64 = 0x800;

/// One directory record: a blob's id, its first sector relative to the
/// data region, how many sectors it spans, and its exact byte size.
#[derive(Clone, Copy, Debug, PartialEq, Eq, Structural)]
pub struct Entry {
    pub id: u32,
    pub start_sect: u64,
    pub size_sect: u64,
    pub size: u64,
}

/// The magic that opens every archive: `b"UNI2\0\0\x01\0"`.
pub open spec fn spec_uni2_magic() -> Seq<u8> {
    seq![0x55u8, 0x4eu8, 0x49u8, 0x32u8, 0x00u8, 0x00u8, 0x01u8, 0x00u8]
}

fn uni2_magic() -> (m: Vec<u8>)
    ensures
        m@ == spec_uni2_magic(),
{
    let mut m: Vec<u8> = Vec::new();
    m.push(0x55);
    m.push(0x4e);
    m.push(0x49);
    m.push(0x32);
    m.push(0x00);
    m.push(0x00);
    m.push(0x01);
    m.push(0x00);
    proof { assert(m@ =~= spec_uni2_magic()); }
    m
}

/// The byte size of an entry agrees with its sector span: the blob ends
/// inside its last sector.
pub open spec fn entry_sized_ok(e: Entry) -> bool {
    &&& e.size_sect >= 1
    &&& (e.size_sect - 1) * (SECTOR_SIZE as int) < e.size
    &&& e.size <= e.size_sect * (SECTOR_SIZE as int)
}

/// Two neighbouring entries: ids strictly ascending, sector ranges strictly
/// ascending and non-overlapping.
pub open spec fn entry_pair_ok(x: Entry, y: Entry) -> bool {
    &&& x.id < y.id
    &&& x.start_sect < y.start_sect
    &&& x.start_sect + x.size_sect <= y.start_sect
}

/// The directory invariant checked when an archive is opened.
pub open spec fn spec_entries_valid(es: Seq<Entry>) -> bool {
    &&& forall|i: int| 0 <= i < es.len() ==> entry_sized_ok(#[trigger] es[i])
    &&& forall|i: int| 0 <= i && i + 1 < es.len()
        ==> entry_pair_ok(#[trigger] es[i], es[i + 1])
}

/// Checks the directory invariant: sizes consistent with sector spans, ids
/// and sector ranges strictly ascending and non-overlapping.
pub fn validate(entries: &Vec<Entry>) -> (r: bool)
    ensures
        r == spec_entries_valid(entries@),
{
    let n = entries.len();
    let mut i: usize = 0;
    while i < n
        invariant
            i <= n,
            n == entries@.len(),
            forall|j: int| 0 <= j < i ==> entry_sized_ok(#[trigger] entries@[j]),
            forall|j: int| 0 <= j && j + 1 <= i && j + 1 < n
                ==> entry_pair_ok(#[trigger] entries@[j], entries@[j + 1]),
        decreases n - i,
    {
        let x = entries[i];
        if x.size_sect == 0 {
            return false;
        }
        // size must lie in ((size_sect-1)*SECTOR, size_sect*SECTOR]
        match (x.size_sect - 1).checked_mul(SECTOR_SIZE) {
            Some(lo) => {
                if !(x.size > lo) {
                    return false;
                }
            }
            None => {
                // the lower bound alone exceeds u64, so no size can beat it
                proof {
                    assert((x.size_sect - 1) * (SECTOR_SIZE as int) > u64::MAX);
                }
                return false;
            }
        }
        match x.size_sect.checked_mul(SECTOR_SIZE) {
            Some(hi) => {
                if !(x.size <= hi) {
                    return false;
                }
            }
            None => {
                // the upper bound exceeds u64, so any u64 size is below it
                proof {
                    assert(x.size <= x.size_sect * (SECTOR_SIZE as int));
                }
            }
        }
        if i + 1 < n {
            let y = entries[i + 1];
            if !(x.id < y.id) {
                return false;
            }
            if !(x.start_sect < y.start_sect) {
                return false;
            }
            match x.start_sect.checked_add(x.size_sect) {
                Some(end) => {
                    if !(end <= y.start_sect) {
                        return false;
                    }
                }
                None => {
                    return false;
                }
            }
        }
        i = i + 1;
    }
    true
}

/// The entry encoded at byte offset `off`: four little-endian `u32` words.
pub open spec fn spec_entry_at(b: Seq<u8>, off: int) -> Entry {
    Entry {
        id: word_at(b, off),
        start_sect: word_at(b, off + 4) as u64,
        size_sect: word_at(b, off + 8) as u64,
        size: word_at(b, off + 12) as u64,
    }
}

/// What `open` returns on every input: the validated directory of the
/// archive, or the error that condemns it.
pub open spec fn spec_open(b: Seq<u8>) -> Result<Seq<Entry>, Error> {
    if b.len() < 8 || b.subrange(0, 8) != spec_uni2_magic() {
        Err(Error::Format)
    } else if b.len() < 20 {
        Err(Error::Truncated(20))
    } else {
        let n = word_at(b, 8) as int;
        let table = word_at(b, 12) as int;
        if table * (SECTOR_SIZE as int) + 16 * n > b.len() {
            Err(Error::Truncated(off32(table * (SECTOR_SIZE as int) + 16 * n)))
        } else {
            let es = Seq::new(n as nat, |i: int|
                spec_entry_at(b, table * (SECTOR_SIZE as int) + 16 * i));
            if spec_entries_valid(es) {
                Ok(es)
            } else {
                Err(Error::Format)
            }
        }
    }
}

/// Reads the header and directory table of an archive and validates it.
///
/// Fails with `Format` on a bad magic or an inconsistent directory, with
/// `Truncated` when the buffer ends before the directory does.
pub fn open(bytes: &Vec<u8>) -> (r: Result<Vec<Entry>, Error>)
    ensures
        match r {
            Ok(es) => spec_open(bytes@) == Ok::<Seq<Entry>, Error>(es@),
            Err(e) => spec_open(bytes@) == Err::<Seq<Entry>, Error>(e),
        },
{
    let lenb = bytes.len();
    if lenb < 8 {
        return Err(Error::Format);
    }
    let magic = uni2_magic();
    if !bytes_eq_at(bytes, 0, &magic) {
        return Err(Error::Format);
    }
    if lenb < 20 {
        return Err(Error::Truncated(20));
    }
    let n = read_u32_le(bytes, 8);
    let table = read_u32_le(bytes, 12);
    let table_end: u64 = (table as u64) * SECTOR_SIZE + 16 * (n as u64);
    if table_end > lenb as u64 {
        return Err(Error::Truncated(off32_of(table_end)));
    }
    let table_off: usize = (table as usize) * (SECTOR_SIZE as usize);
    let mut es: Vec<Entry> = Vec::new();
    let mut i: usize = 0;
    let ghost gspec = Seq::new(n as nat, |j: int|
        spec_entry_at(bytes@, (table as int) * (SECTOR_SIZE as int) + 16 * j));
    while i < n as usize
        invariant
            i <= n as usize,
            lenb == bytes@.len(),
            (table as int) * (SECTOR_SIZE as int) + 16 * (n as int) <= lenb,
            table_off == (table as int) * (SECTOR_SIZE as int),
            gspec == Seq::new(n as nat, |j: int|
                spec_entry_at(bytes@, (table as int) * (SECTOR_SIZE as int) + 16 * j)),
            es@.len() == i,
            forall|j: int| 0 <= j < i ==> es@[j] == gspec[j],
        decreases n as usize - i,
    {
        let off = table_off + 16 * i;
        assert(off + 16 <= lenb);
        let id = read_u32_le(bytes, off);
        let start_sect = read_u32_le(bytes, off + 4);
        let size_sect = read_u32_le(bytes, off + 8);
        let size = read_u32_le(bytes, off + 12);
        let e = Entry {
            id,
            start_sect: start_sect as u64,
            size_sect: size_sect as u64,
            size: size as u64,
        };
        proof {
            assert(bytes@.subrange(off as int, off + 4)
                =~= bytes@.subrange(off as int, off + 4));
            assert(e == gspec[i as int]);
        }
        es.push(e);
        i = i + 1;
    }
    proof {
        assert(es@ =~= gspec);
    }
    if validate(&es) {
        Ok(es)
    } else {
        Err(Error::Format)
    }
}

/// What `extract` returns on every input: the declared byte range of the
/// entry, or the error.
pub open spec fn spec_extract(b: Seq<u8>, e: Entry) -> Result<Seq<u8>, Error> {
    if b.len() < 8 || b.subrange(0, 8) != spec_uni2_magic() {
        Err(Error::Format)
    } else if b.len() < 20 {
        Err(Error::Truncated(e.id))
    } else {
        let data = word_at(b, 16) as int;
        let start = (data + e.start_sect) * (SECTOR_SIZE as int);
        if start + e.size > b.len() {
            Err(Error::Truncated(e.id))
        } else {
            Ok(b.subrange(start, start + e.size))
        }
    }
}

/// Cuts one blob out of an archive: exactly `e.size` bytes starting at the
/// entry's sector, counted from the data sector named in the header.
///
/// Fails with `Truncated`, naming the entry's id, when the buffer holds
/// fewer bytes than the entry declares; extraction is all-or-nothing.
pub fn extract(bytes: &Vec<u8>, e: &Entry) -> (r: Result<Vec<u8>, Error>)
    ensures
        match r {
            Ok(blob) => spec_extract(bytes@, *e) == Ok::<Seq<u8>, Error>(blob@),
            Err(err) => spec_extract(bytes@, *e) == Err::<Seq<u8>, Error>(err),
        },
{
    let lenb = bytes.len();
    if lenb < 8 {
        return Err(Error::Format);
    }
    let magic = uni2_magic();
    if !bytes_eq_at(bytes, 0, &magic) {
        return Err(Error::Format);
    }
    if lenb < 20 {
        return Err(Error::Truncated(e.id));
    }
    let data = read_u32_le(bytes, 16);
    let start: u64 = match (data as u64).checked_add(e.start_sect) {
        Some(s) => match s.checked_mul(SECTOR_SIZE) {
            Some(p) => p,
            None => {
                proof {
                    assert(((data as u64) + e.start_sect) * (SECTOR_SIZE as int)
                        + e.size > lenb);
                }
                return Err(Error::Truncated(e.id));
            }
        },
        None => {
            proof {
                assert(((data as u64) + e.start_sect) * (SECTOR_SIZE as int) >= 0
                    && ((data as u64) + e.start_sect) >= u64::MAX);
                assert(((data as u64) + e.start_sect) * (SECTOR_SIZE as int)
                    + e.size > lenb) by (nonlinear_arith)
                    requires
                        ((data as u64) + e.start_sect) >= u64::MAX,
                        lenb <= u64::MAX,
                        e.size >= 0,
                        SECTOR_SIZE == 0x800,
                ;
            }
            return Err(Error::Truncated(e.id));
        }
    };
    let end: u64 = match start.checked_add(e.size) {
        Some(s) => s,
        None => {
            return Err(Error::Truncated(e.id));
        }
    };
    if end > lenb as u64 {
        return Err(Error::Truncated(e.id));
    }
    let s = slice_subrange(bytes.as_slice(), start as usize, end as usize);
    let blob = slice_to_vec(s);
    Ok(blob)
}

/// The pairs of a `Vec` of (id, blob), with each blob as its byte sequence.
pub open spec fn blob_views(ps: Seq<(u32, Vec<u8>)>) -> Seq<(u32, Seq<u8>)> {
    Seq::new(ps.len(), |i: int| (ps[i].0, ps[i].1@))
}

/// How many whole sectors a blob of `len` bytes occupies.
pub open spec fn blob_sectors(len: int) -> int {
    (len + 0x7ff) / 0x800
}

/// Sectors occupied by all blobs together, each rounded up to whole sectors.
pub open spec fn total_sectors(ps: Seq<(u32, Seq<u8>)>) -> int
    decreases ps.len(),
{
    if ps.len() == 0 {
        0
    } else {
        total_sectors(ps.drop_last()) + blob_sectors(ps.last().1.len() as int)
    }
}

/// What `build` may be asked to pack: at least one byte per blob (an empty
/// blob has no sector span the size invariant accepts), ids strictly
/// ascending, the table inside its single sector, and a total small enough
/// that every offset fits the directory's 32-bit fields.
pub open spec fn build_pre(ps: Seq<(u32, Seq<u8>)>) -> bool {
    &&& ps.len() <= 128
    &&& forall|i: int| 0 <= i < ps.len() ==> 1 <= (#[trigger] ps[i]).1.len()
    &&& forall|i: int, j: int| 0 <= i < j < ps.len()
        ==> (#[trigger] ps[i]).0 < (#[trigger] ps[j]).0
    &&& total_sectors(ps) <= 0x100000
}

/// The directory `build` lays out: blob `i` begins where blob `i-1`'s
/// sector span ended.
pub open spec fn spec_entries_of(ps: Seq<(u32, Seq<u8>)>) -> Seq<Entry>
    decreases ps.len(),
{
    if ps.len() == 0 {
        Seq::empty()
    } else {
        spec_entries_of(ps.drop_last()) + seq![Entry {
            id: ps.last().0,
            start_sect: total_sectors(ps.drop_last()) as u64,
            size_sect: blob_sectors(ps.last().1.len() as int) as u64,
            size: ps.last().1.len() as u64,
        }]
    }
}

/// The bytes of the directory table: one 16-byte record per entry.
pub open spec fn spec_table_of(es: Seq<Entry>) -> Seq<u8>
    decreases es.len(),
{
    if es.len() == 0 {
        Seq::empty()
    } else {
        spec_table_of(es.drop_last())
            + w32(es.last().id)
            + w32(es.last().start_sect as u32)
            + w32(es.last().size_sect as u32)
            + w32(es.last().size as u32)
    }
}

/// The bytes of the data region: each blob followed by zero padding up to
/// the next sector boundary.
pub open spec fn spec_data_of(ps: Seq<(u32, Seq<u8>)>) -> Seq<u8>
    decreases ps.len(),
{
    if ps.len() == 0 {
        Seq::empty()
    } else {
        spec_data_of(ps.drop_last()) + ps.last().1
            + zeros(blob_sectors(ps.last().1.len() as int) * 0x800
                - ps.last().1.len())
    }
}

/// The whole archive `build` emits: header sector, table sector, data.
pub open spec fn spec_build(ps: Seq<(u32, Seq<u8>)>) -> Seq<u8> {
    spec_uni2_magic() + w32(ps.len() as u32) + w32(1) + w32(2)
        + zeros(0x800 - 20)
        + spec_table_of(spec_entries_of(ps)) + zeros(0x800 - 16 * ps.len())
        + spec_data_of(ps)
}

/// A blob's sector span covers it, ends within a sector of its end, and is
/// positive for a non-empty blob.
pub proof fn lemma_blob_sectors(len: int)
    requires
        len >= 1,
    ensures
        1 <= blob_sectors(len),
        (blob_sectors(len) - 1) * 0x800 < len,
        len <= blob_sectors(len) * 0x800,
{
    let sc = blob_sectors(len);
    assert(sc * 0x800 <= len + 0x7ff && len <= sc * 0x800 && sc >= 1)
        by (nonlinear_arith)
        requires
            len >= 1,
            sc == (len + 0x7ff) / 0x800,
    ;
    assert((sc - 1) * 0x800 == sc * 0x800 - 0x800);
}

pub proof fn lemma_total_sectors_prefix(ps: Seq<(u32, Seq<u8>)>, i: int)
    requires
        0 <= i <= ps.len(),
        forall|k: int| 0 <= k < ps.len() ==> 1 <= (#[trigger] ps[k]).1.len(),
    ensures
        0 <= total_sectors(ps.take(i)) <= total_sectors(ps),
        i < ps.len() ==> total_sectors(ps.take(i + 1))
            == total_sectors(ps.take(i)) + blob_sectors(ps[i].1.len() as int),
    decreases ps.len() - i,
{
    if i < ps.len() {
        assert(ps.take(i + 1).drop_last() =~= ps.take(i));
        assert(ps.take(i + 1).last() == ps[i]);
        lemma_blob_sectors(ps[i].1.len() as int);
        lemma_total_sectors_prefix(ps, i + 1);
        lemma_total_nonneg(ps.take(i));
    } else {
        assert(ps.take(i) =~= ps);
        lemma_total_nonneg(ps);
    }
}

pub proof fn lemma_total_nonneg(ps: Seq<(u32, Seq<u8>)>)
    ensures
        total_sectors(ps) >= 0,
    decreases ps.len(),
{
    if ps.len() > 0 {
        lemma_total_nonneg(ps.drop_last());
        assert(blob_sectors(ps.last().1.len() as int) >= 0);
    }
}

/// The shape of entry `i` of the layout.
pub proof fn lemma_entries_index(ps: Seq<(u32, Seq<u8>)>, i: int)
    requires
        0 <= i < ps.len(),
    ensures
        spec_entries_of(ps).len() == ps.len(),
        spec_entries_of(ps)[i] == (Entry {
            id: ps[i].0,
            start_sect: total_sectors(ps.take(i)) as u64,
            size_sect: blob_sectors(ps[i].1.len() as int) as u64,
            size: ps[i].1.len() as u64,
        }),
    decreases ps.len(),
{
    lemma_entries_len(ps);
    if i == ps.len() - 1 {
        assert(ps.take(i) =~= ps.drop_last());
        assert(ps.last() == ps[i]);
    } else {
        lemma_entries_index(ps.drop_last(), i);
        lemma_entries_len(ps.drop_last());
        assert(ps.drop_last().take(i) =~= ps.take(i));
        assert(ps.drop_last()[i] == ps[i]);
    }
}

pub proof fn lemma_entries_len(ps: Seq<(u32, Seq<u8>)>)
    ensures
        spec_entries_of(ps).len() == ps.len(),
    decreases ps.len(),
{
    if ps.len() > 0 {
        lemma_entries_len(ps.drop_last());
    }
}

pub proof fn lemma_table_len(es: Seq<Entry>)
    ensures
        spec_table_of(es).len() == 16 * es.len(),
    decreases es.len(),
{
    vstd::bytes::lemma_auto_spec_u32_to_from_le_bytes();
    if es.len() > 0 {
        lemma_table_len(es.drop_last());
    }
}

pub proof fn lemma_data_len(ps: Seq<(u32, Seq<u8>)>)
    requires
        forall|k: int| 0 <= k < ps.len() ==> 1 <= (#[trigger] ps[k]).1.len(),
    ensures
        spec_data_of(ps).len() == 0x800 * total_sectors(ps),
    decreases ps.len(),
{
    if ps.len() > 0 {
        assert(ps.drop_last() =~= ps.take(ps.len() - 1));
        assert(forall|k: int| 0 <= k < ps.drop_last().len()
            ==> 1 <= (#[trigger] ps.drop_last()[k]).1.len());
        lemma_data_len(ps.drop_last());
        lemma_blob_sectors(ps.last().1.len() as int);
    }
}

/// The 16-byte record of entry `i` inside the table bytes.
pub proof fn lemma_table_record_at(es: Seq<Entry>, i: int)
    requires
        0 <= i < es.len(),
    ensures
        spec_table_of(es).len() == 16 * es.len(),
        spec_table_of(es).subrange(16 * i, 16 * i + 16)
            == w32(es[i].id) + w32(es[i].start_sect as u32)
                + w32(es[i].size_sect as u32) + w32(es[i].size as u32),
    decreases es.len(),
{
    lemma_table_len(es);
    vstd::bytes::lemma_auto_spec_u32_to_from_le_bytes();
    let rec = w32(es[i].id) + w32(es[i].start_sect as u32)
        + w32(es[i].size_sect as u32) + w32(es[i].size as u32);
    if i == es.len() - 1 {
        lemma_table_len(es.drop_last());
        assert(es.last() == es[i]);
        assert(spec_table_of(es).subrange(16 * i, 16 * i + 16) =~= rec);
    } else {
        lemma_table_record_at(es.drop_last(), i);
        assert(es.drop_last()[i] == es[i]);
        lemma_table_len(es.drop_last());
        assert(spec_table_of(es).subrange(16 * i, 16 * i + 16)
            =~= spec_table_of(es.drop_last()).subrange(16 * i, 16 * i + 16));
    }
}

/// Blob `i` sits in the data region at the byte offset of its start sector.
pub proof fn lemma_data_blob_at(ps: Seq<(u32, Seq<u8>)>, i: int)
    requires
        0 <= i < ps.len(),
        forall|k: int| 0 <= k < ps.len() ==> 1 <= (#[trigger] ps[k]).1.len(),
    ensures
        spec_data_of(ps).len() == 0x800 * total_sectors(ps),
        spec_data_of(ps).subrange(
            0x800 * total_sectors(ps.take(i)),
            0x800 * total_sectors(ps.take(i)) + ps[i].1.len() as int,
        ) == ps[i].1,
    decreases ps.len(),
{
    lemma_data_len(ps);
    lemma_total_sectors_prefix(ps, i);
    if i == ps.len() - 1 {
        assert(ps.take(i) =~= ps.drop_last());
        assert(ps.last() == ps[i]);
        assert(forall|k: int| 0 <= k < ps.drop_last().len()
            ==> 1 <= (#[trigger] ps.drop_last()[k]).1.len());
        lemma_data_len(ps.drop_last());
        assert(spec_data_of(ps).subrange(
            0x800 * total_sectors(ps.drop_last()),
            0x800 * total_sectors(ps.drop_last()) + ps[i].1.len() as int,
        ) =~= ps[i].1);
    } else {
        assert(forall|k: int| 0 <= k < ps.drop_last().len()
            ==> 1 <= (#[trigger] ps.drop_last()[k]).1.len());
        lemma_data_blob_at(ps.drop_last(), i);
        assert(ps.drop_last().take(i) =~= ps.take(i));
        assert(ps.drop_last()[i] == ps[i]);
        lemma_total_sectors_prefix(ps.drop_last(), i);
        lemma_data_len(ps.drop_last());
        lemma_blob_sectors(ps[i].1.len() as int);
        lemma_total_sectors_prefix(ps.drop_last(), ps.drop_last().len() as int);
        assert(total_sectors(ps.drop_last().take(i)) + blob_sectors(ps[i].1.len() as int)
            <= total_sectors(ps.drop_last())) by {
            lemma_total_le(ps.drop_last(), i);
        }
        assert(spec_data_of(ps).subrange(
            0x800 * total_sectors(ps.take(i)),
            0x800 * total_sectors(ps.take(i)) + ps[i].1.len() as int,
        ) =~= spec_data_of(ps.drop_last()).subrange(
            0x800 * total_sectors(ps.take(i)),
            0x800 * total_sectors(ps.take(i)) + ps[i].1.len() as int,
        ));
    }
}

/// A prefix's sectors plus its next blob's sectors stay within the whole.
pub proof fn lemma_total_le(ps: Seq<(u32, Seq<u8>)>, i: int)
    requires
        0 <= i < ps.len(),
        forall|k: int| 0 <= k < ps.len() ==> 1 <= (#[trigger] ps[k]).1.len(),
    ensures
        total_sectors(ps.take(i)) + blob_sectors(ps[i].1.len() as int)
            <= total_sectors(ps),
{
    lemma_total_sectors_prefix(ps, i);
    lemma_total_sectors_prefix(ps, i + 1);
}

/// Lays an archive out from (id, blob) pairs: header, directory table,
/// sector-aligned data, exactly as `spec_build` describes.
pub fn build(pairs: &Vec<(u32, Vec<u8>)>) -> (out: Vec<u8>)
    requires
        build_pre(blob_views(pairs@)),
    ensures
        out@ == spec_build(blob_views(pairs@)),
{
    let ghost ps = blob_views(pairs@);
    let n = pairs.len();

    // directory entries, walking the running sector count
    let mut entries: Vec<Entry> = Vec::new();
    let mut cur: u64 = 0;
    let mut i: usize = 0;
    while i < n
        invariant
            i <= n,
            n == pairs@.len(),
            ps == blob_views(pairs@),
            build_pre(ps),
            cur == total_sectors(ps.take(i as int)),
            entries@ == spec_entries_of(ps.take(i as int)),
        decreases n - i,
    {
        proof {
            lemma_total_sectors_prefix(ps, i as int);
            lemma_blob_sectors(ps[i as int].1.len() as int);
        }
        let li = pairs[i].1.len();
        assert(li >= 1);
        assert(li as int <= 0x800 * total_sectors(ps)) by {
            lemma_total_le(ps, i as int);
            lemma_total_sectors_prefix(ps, i as int);
            lemma_blob_sectors(li as int);
            lemma_total_nonneg(ps.take(i as int));
        }
        let sc: u64 = ((li as u64) + 0x7ff) / 0x800;
        let e = Entry {
            id: pairs[i].0,
            start_sect: cur,
            size_sect: sc,
            size: li as u64,
        };
        entries.push(e);
        proof {
            assert(ps.take(i + 1).drop_last() =~= ps.take(i as int));
            assert(ps.take(i + 1).last() == ps[i as int]);
            assert(entries@ =~= spec_entries_of(ps.take(i + 1)));
            lemma_total_sectors_prefix(ps, i as int);
        }
        cur = cur + sc;
        i = i + 1;
    }
    proof {
        assert(ps.take(n as int) =~= ps);
    }

    // header sector
    let mut out = uni2_magic();
    put_u32_le(&mut out, n as u32);
    put_u32_le(&mut out, 1);
    put_u32_le(&mut out, 2);
    put_zeros(&mut out, 0x800 - 20);
    let ghost hdr = spec_uni2_magic() + w32(n as u32) + w32(1) + w32(2)
        + zeros(0x800 - 20);
    proof {
        vstd::bytes::lemma_auto_spec_u32_to_from_le_bytes();
        assert(out@ =~= hdr);
    }

    // table sector
    proof {
        assert(spec_entries_of(ps.take(n as int)) == spec_entries_of(ps));
        lemma_entries_len(ps);
        assert(out@ =~= hdr + spec_table_of(entries@.take(0)));
    }
    let mut i: usize = 0;
    while i < n
        invariant
            i <= n,
            n == pairs@.len(),
            ps == blob_views(pairs@),
            build_pre(ps),
            entries@ == spec_entries_of(ps),
            entries@.len() == n,
            out@ == hdr + spec_table_of(entries@.take(i as int)),
        decreases n - i,
    {
        let e = entries[i];
        put_u32_le(&mut out, e.id);
        put_u32_le(&mut out, e.start_sect as u32);
        put_u32_le(&mut out, e.size_sect as u32);
        put_u32_le(&mut out, e.size as u32);
        proof {
            assert(entries@.take(i + 1).drop_last() =~= entries@.take(i as int));
            assert(entries@.take(i + 1).last() == entries@[i as int]);
            assert(out@ =~= hdr + spec_table_of(entries@.take(i + 1)));
        }
        i = i + 1;
    }
    proof {
        assert(entries@.take(n as int) =~= entries@);
        lemma_entries_len(ps);
    }
    assert(16 * n <= 0x800);
    put_zeros(&mut out, 0x800 - 16 * n);
    let ghost pre_data = hdr + spec_table_of(spec_entries_of(ps))
        + zeros(0x800 - 16 * n);
    proof {
        assert(out@ =~= pre_data);
    }

    // data region
    let mut i: usize = 0;
    while i < n
        invariant
            i <= n,
            n == pairs@.len(),
            ps == blob_views(pairs@),
            build_pre(ps),
            out@ == pre_data + spec_data_of(ps.take(i as int)),
        decreases n - i,
    {
        proof {
            lemma_blob_sectors(ps[i as int].1.len() as int);
            lemma_total_le(ps, i as int);
            lemma_total_sectors_prefix(ps, i as int);
            lemma_total_nonneg(ps.take(i as int));
        }
        let li = pairs[i].1.len();
        assert(li as int <= 0x800 * total_sectors(ps));
        let sc: u64 = ((li as u64) + 0x7ff) / 0x800;
        assert(li as int <= sc * 0x800 <= li + 0x7ff);
        out.extend_from_slice(pairs[i].1.as_slice());
        let pad: usize = (sc * 0x800 - li as u64) as usize;
        put_zeros(&mut out, pad);
        proof {
            assert(ps.take(i + 1).drop_last() =~= ps.take(i as int));
            assert(ps.take(i + 1).last() == ps[i as int]);
            assert(out@ =~= pre_data + spec_data_of(ps.take(i + 1)));
        }
        i = i + 1;
    }
    proof {
        assert(ps.take(n as int) =~= ps);
        assert(out@ =~= spec_build(ps));
    }
    out
}

/// The layout `build` emits always satisfies the directory invariant.
pub proof fn lemma_entries_valid(ps: Seq<(u32, Seq<u8>)>)
    requires
        build_pre(ps),
    ensures
        spec_entries_valid(spec_entries_of(ps)),
{
    let es = spec_entries_of(ps);
    lemma_entries_len(ps);
    assert forall|i: int| 0 <= i < es.len() implies entry_sized_ok(#[trigger] es[i]) by {
        lemma_entries_index(ps, i);
        lemma_blob_sectors(ps[i].1.len() as int);
        lemma_total_sectors_prefix(ps, i);
        lemma_total_le(ps, i);
        lemma_total_nonneg(ps.take(i));
        assert(1 <= blob_sectors(ps[i].1.len() as int) <= 0x100000);
        assert(ps[i].1.len() as int <= 0x100000 * 0x800);
    }
    assert forall|i: int| 0 <= i && i + 1 < es.len()
        implies entry_pair_ok(#[trigger] es[i], es[i + 1]) by {
        lemma_entries_index(ps, i);
        lemma_entries_index(ps, i + 1);
        lemma_blob_sectors(ps[i].1.len() as int);
        lemma_total_sectors_prefix(ps, i);
        lemma_total_sectors_prefix(ps, i + 1);
        lemma_total_nonneg(ps.take(i));
    }
}

/// Archive round-trip: opening a built archive gives back exactly the
/// entries of the layout, and extracting any entry gives back exactly the
/// blob it was built from.
pub proof fn lemma_archive_round_trip(ps: Seq<(u32, Seq<u8>)>)
    requires
        build_pre(ps),
    ensures
        spec_open(spec_build(ps)) == Ok::<Seq<Entry>, Error>(spec_entries_of(ps)),
        spec_entries_of(ps).len() == ps.len(),
        forall|i: int| 0 <= i < ps.len()
            ==> #[trigger] spec_entries_of(ps)[i].id == ps[i].0,
        forall|i: int| 0 <= i < ps.len()
            ==> spec_extract(spec_build(ps), #[trigger] spec_entries_of(ps)[i])
                == Ok::<Seq<u8>, Error>(ps[i].1),
{
    vstd::bytes::lemma_auto_spec_u32_to_from_le_bytes();
    let b = spec_build(ps);
    let es = spec_entries_of(ps);
    let n = ps.len() as int;
    let tt = total_sectors(ps);
    lemma_entries_len(ps);
    lemma_table_len(es);
    lemma_data_len(ps);
    lemma_total_nonneg(ps);
    assert(b.len() == 0x1000 + 0x800 * tt);

    // header words
    assert(b.subrange(0, 8) =~= spec_uni2_magic());
    assert(b.subrange(8, 12) =~= w32(n as u32));
    assert(b.subrange(12, 16) =~= w32(1));
    assert(b.subrange(16, 20) =~= w32(2));
    lemma_word_at_of_w32(b, 8, n as u32);
    lemma_word_at_of_w32(b, 12, 1);
    lemma_word_at_of_w32(b, 16, 2);

    // the directory region of the built bytes is the table
    let table = spec_table_of(es);
    assert(b.subrange(0x800, 0x800 + 16 * n) =~= table);
    // the data region of the built bytes is the blobs
    let data = spec_data_of(ps);
    assert(b.subrange(0x1000, 0x1000 + 0x800 * tt) =~= data);

    // every directory record reads back as its entry
    let parsed = Seq::new(n as nat, |i: int| spec_entry_at(b, 0x800 + 16 * i));
    assert forall|i: int| 0 <= i < n implies parsed[i] == es[i] by {
        lemma_table_record_at(es, i);
        lemma_entries_index(ps, i);
        lemma_total_sectors_prefix(ps, i);
        lemma_blob_sectors(ps[i].1.len() as int);
        lemma_total_le(ps, i);
        let off = 0x800 + 16 * i;
        let rec = w32(es[i].id) + w32(es[i].start_sect as u32)
            + w32(es[i].size_sect as u32) + w32(es[i].size as u32);
        assert(b.subrange(off, off + 4) =~= rec.subrange(0, 4));
        assert(b.subrange(off + 4, off + 8) =~= rec.subrange(4, 8));
        assert(b.subrange(off + 8, off + 12) =~= rec.subrange(8, 12));
        assert(b.subrange(off + 12, off + 16) =~= rec.subrange(12, 16));
        assert(rec.subrange(0, 4) =~= w32(es[i].id));
        assert(rec.subrange(4, 8) =~= w32(es[i].start_sect as u32));
        assert(rec.subrange(8, 12) =~= w32(es[i].size_sect as u32));
        assert(rec.subrange(12, 16) =~= w32(es[i].size as u32));
        lemma_word_at_of_w32(b, off, es[i].id);
        lemma_word_at_of_w32(b, off + 4, es[i].start_sect as u32);
        lemma_word_at_of_w32(b, off + 8, es[i].size_sect as u32);
        lemma_word_at_of_w32(b, off + 12, es[i].size as u32);
    }
    assert(parsed =~= es);
    lemma_entries_valid(ps);
    assert(spec_open(b) == Ok::<Seq<Entry>, Error>(es));

    // extraction of each entry
    assert forall|i: int| 0 <= i < n
        implies spec_extract(b, #[trigger] es[i]) == Ok::<Seq<u8>, Error>(ps[i].1) by {
        lemma_entries_index(ps, i);
        lemma_total_sectors_prefix(ps, i);
        lemma_blob_sectors(ps[i].1.len() as int);
        lemma_total_le(ps, i);
        lemma_data_blob_at(ps, i);
        let start = (2 + es[i].start_sect as int) * 0x800;
        assert(start == 0x1000 + 0x800 * total_sectors(ps.take(i)));
        assert(start + es[i].size <= b.len());
        let inner = 0x800 * total_sectors(ps.take(i));
        assert(b.subrange(start, start + ps[i].1.len() as int)
            =~= data.subrange(inner, inner + ps[i].1.len() as int));
    }
    assert forall|i: int| 0 <= i < ps.len()
        implies #[trigger] spec_entries_of(ps)[i].id == ps[i].0 by {
        lemma_entries_index(ps, i);
    }
}

/// Validation rejects corruption: `open` never hands back a directory that
/// fails the invariant, so any corruption of a record — a flipped bit that
/// breaks the ascending-id, non-overlap or size bounds — turns the whole
/// open into an error rather than a silent misread.
pub proof fn lemma_validation_rejects_corruption(b: Seq<u8>)
    ensures
        spec_open(b) matches Ok(es) ==> spec_entries_valid(es),
{
}

} // verus!
