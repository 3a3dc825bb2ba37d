//! The records that the bulk attribute call of macOS fills a buffer with.
use crate::bytes::{le_value, read_le};
use crate::codec::{lossy, lossy_text};
use crate::paths::copy_range;
use crate::text;
use vstd::prelude::*;

verus! {

/// The size of the buffer for one call.
pub const BULK_BUF_SIZE: usize = 65_536;

/// How many bitmaps an attribute list holds.
pub const ATTR_BIT_MAP_COUNT: u16 = 5;

/// Asks for the bitmap of the attributes that are returned.
pub const ATTR_CMN_RETURNED_ATTRS: u32 = 0x8000_0000;

/// Asks for the name.
pub const ATTR_CMN_NAME: u32 = 0x0000_0001;

/// Asks for the object type.
pub const ATTR_CMN_OBJTYPE: u32 = 0x0000_0008;

/// Asks for the modification time.
pub const ATTR_CMN_MODTIME: u32 = 0x0000_0400;

/// Asks for the length of the data.
pub const ATTR_FILE_DATALENGTH: u32 = 0x0000_0200;

/// The type of a regular file.
pub const VREG: u32 = 1;

/// The type of a directory.
pub const VDIR: u32 = 2;

/// The attributes that a call asks for, in the layout of the kernel.
#[derive(Debug, Clone, Copy)]
pub struct AttrList {
    pub bitmapcount: u16,
    pub reserved: u16,
    pub commonattr: u32,
    pub volattr: u32,
    pub dirattr: u32,
    pub fileattr: u32,
    pub forkattr: u32,
}

impl AttrList {
    /// Asks for the name, the type, the modification time and the size.
    pub fn new() -> (r: AttrList)
        ensures
            r.bitmapcount == ATTR_BIT_MAP_COUNT,
            r.reserved == 0,
            r.commonattr == (ATTR_CMN_RETURNED_ATTRS | ATTR_CMN_NAME | ATTR_CMN_OBJTYPE
                | ATTR_CMN_MODTIME),
            r.volattr == 0,
            r.dirattr == 0,
            r.fileattr == ATTR_FILE_DATALENGTH,
            r.fileattr == 0x200 && r.bitmapcount == 5,
            r.commonattr == 0x8000_0409,
            r.forkattr == 0,
    {
        assert(0x8000_0000u32 | 0x0000_0001u32 | 0x0000_0008u32 | 0x0000_0400u32 == 0x8000_0409u32)
            by (bit_vector);
        AttrList {
            bitmapcount: ATTR_BIT_MAP_COUNT,
            reserved: 0,
            commonattr: ATTR_CMN_RETURNED_ATTRS | ATTR_CMN_NAME | ATTR_CMN_OBJTYPE
                | ATTR_CMN_MODTIME,
            volattr: 0,
            dirattr: 0,
            fileattr: ATTR_FILE_DATALENGTH,
            forkattr: 0,
        }
    }
}

/// The number of four bytes at `offset`.
pub open spec fn u32_at(buf: Seq<u8>, offset: int) -> u32 {
    le_value(buf.subrange(offset, offset + 4)) as u32
}

/// The number of eight bytes at `offset`.
pub open spec fn u64_at(buf: Seq<u8>, offset: int) -> u64 {
    le_value(buf.subrange(offset, offset + 8)) as u64
}

/// Reads four bytes at `offset` as an unsigned number, where they are there.
pub fn read_u32_le(buf: &[u8], offset: usize) -> (r: Option<u32>)
    ensures
        r == (if offset + 4 <= buf@.len() {
            Some(u32_at(buf@, offset as int))
        } else {
            None
        }),
        r is Some <==> offset + 4 <= buf@.len(),
        r matches Some(n) ==> n == le_value(buf@.subrange(offset as int, offset + 4)) as u32,
{
    if buf.len() >= 4 && offset <= buf.len() - 4 {
        let n: u64 = read_le(buf, offset, 4);
        proof {
            crate::bytes::le_value_bound(buf@.subrange(offset as int, offset + 4));
            reveal_with_fuel(crate::bytes::pow256, 5);
        }
        Some(n as u32)
    } else {
        None
    }
}

/// Reads four bytes at `offset` as a signed number, where they are there.
pub fn read_i32_le(buf: &[u8], offset: usize) -> (r: Option<i32>)
    ensures
        r == (if offset + 4 <= buf@.len() {
            Some(u32_at(buf@, offset as int) as i32)
        } else {
            None
        }),
{
    match read_u32_le(buf, offset) {
        Some(n) => Some(n as i32),
        None => None,
    }
}

/// Reads eight bytes at `offset` as a signed number, where they are there.
pub fn read_i64_le(buf: &[u8], offset: usize) -> (r: Option<i64>)
    ensures
        r == (if offset + 8 <= buf@.len() {
            Some(u64_at(buf@, offset as int) as i64)
        } else {
            None
        }),
        r is Some <==> offset + 8 <= buf@.len(),
        r matches Some(n) ==> n == le_value(buf@.subrange(offset as int, offset + 8)) as u64 as i64,
{
    if buf.len() >= 8 && offset <= buf.len() - 8 {
        Some(read_le(buf, offset, 8) as i64)
    } else {
        None
    }
}

/// What a record says of an entry.
#[derive(Debug)]
pub struct BulkEntry {
    pub name: String,
    pub is_dir: bool,
    /// The size in bytes, of regular files.
    pub size: Option<u64>,
}

/// What contracts say of a [`BulkEntry`].
#[verifier::ext_equal]
pub struct BulkView {
    pub name: Seq<char>,
    pub is_dir: bool,
    pub size: Option<u64>,
}

impl View for BulkEntry {
    type V = BulkView;

    open spec fn view(&self) -> BulkView {
        BulkView { name: self.name@, is_dir: self.is_dir, size: self.size }
    }
}

/// What is said of a record is what its fields hold.
pub proof fn records_are_seen_as_read(e: BulkEntry)
    ensures
        e@.name == e.name@,
        e@.is_dir == e.is_dir,
        e@.size == e.size,
{
}

/// Where the reference to the name stands in a record.
pub const NAME_REF: usize = 20;

/// Where the object type stands in a record.
pub const OBJ_TYPE: usize = 28;

/// Where the length of the data stands in a record.
pub const DATA_LENGTH: usize = 48;

/// Where the name starts: the reference counts from its own place.
pub open spec fn name_start(record: Seq<u8>) -> int {
    NAME_REF + (u32_at(record, NAME_REF as int) as i32)
}

/// Where the name ends, with the zero byte that closes it.
pub open spec fn name_end(record: Seq<u8>) -> int {
    name_start(record) + u32_at(record, NAME_REF + 4)
}

/// Whether a record is long enough and its name lies within it.
pub open spec fn well_formed(record: Seq<u8>) -> bool {
    &&& record.len() >= DATA_LENGTH
    &&& u32_at(record, NAME_REF + 4) > 0
    &&& 0 <= name_start(record)
    &&& name_end(record) <= record.len()
}

/// The name in a record, without the zero byte that closes it.
pub open spec fn record_name(record: Seq<u8>) -> Seq<char> {
    lossy_text(record.subrange(name_start(record), name_end(record) - 1))
}

/// What a record says of an entry: nothing where it is not well formed, and nothing
/// for the directory itself and its parent.
pub open spec fn parsed(record: Seq<u8>) -> Option<BulkView> {
    if !well_formed(record) {
        None
    } else {
        let name = record_name(record);
        let kind = u32_at(record, OBJ_TYPE as int);
        if name.len() == 0 || name == "."@ || name == ".."@ {
            None
        } else {
            Some(
                BulkView {
                    name,
                    is_dir: kind == VDIR,
                    size: if kind == VREG && record.len() >= DATA_LENGTH + 8 {
                        Some(u64_at(record, DATA_LENGTH as int))
                    } else {
                        None
                    },
                },
            )
        }
    }
}

/// The value of an optional entry.
pub open spec fn entry_view(e: Option<BulkEntry>) -> Option<BulkView> {
    match e {
        Some(x) => Some(x@),
        None => None,
    }
}

/// Reads a record, without the length that opens it.
pub fn parse_record(record: &[u8]) -> (r: Option<BulkEntry>)
    ensures
        entry_view(r) == parsed(record@),
        r matches Some(e) ==> {
            let at = 20 + (le_value(record@.subrange(20, 24)) as u32 as i32);
            let n = le_value(record@.subrange(24, 28)) as u32;
            let kind = le_value(record@.subrange(28, 32));
            &&& record@.len() >= 48
            &&& 0 <= at && 0 < n && at + n <= record@.len()
            &&& e.name@ == lossy_text(record@.subrange(at, at + n - 1))
            &&& e.is_dir <==> kind == 2
            &&& e.size is Some <==> kind == 1 && record@.len() >= 56
            &&& e.size matches Some(s) ==> s == le_value(record@.subrange(48, 56))
        },
        record@.len() >= 48 ==> {
            let at = 20 + (le_value(record@.subrange(20, 24)) as u32 as i32);
            let n = le_value(record@.subrange(24, 28)) as u32;
            let name = lossy_text(record@.subrange(at, at + n - 1));
            0 <= at && 0 < n && at + n <= record@.len() && name.len() > 0 && name != "."@ && name
                != ".."@ ==> r is Some
        },
{
    if record.len() < DATA_LENGTH {
        return None;
    }
    let offset: i32 = read_i32_le(record, NAME_REF)?;
    let length: u32 = read_u32_le(record, NAME_REF + 4)?;
    let kind: u32 = read_u32_le(record, OBJ_TYPE)?;
    let size: Option<u64> = if kind == VREG && record.len() >= DATA_LENGTH + 8 {
        Some(read_le(record, DATA_LENGTH, 8))
    } else {
        None
    };
    let start: i64 = NAME_REF as i64 + offset as i64;
    if length == 0 || start < 0 {
        return None;
    }
    let end: u64 = start as u64 + length as u64;
    if end > record.len() as u64 {
        return None;
    }
    let bytes = copy_range(record, start as usize, (end - 1) as usize);
    let name = lossy(&bytes);
    if name.as_str().is_empty() || text::same_text(name.as_str(), ".") || text::same_text(
        name.as_str(),
        "..",
    ) {
        return None;
    }
    proof {
        reveal_with_fuel(crate::bytes::pow256, 9);
        crate::bytes::le_value_bound(record@.subrange(28, 32));
        if record@.len() >= 56 {
            crate::bytes::le_value_bound(record@.subrange(48, 56));
        }
    }
    Some(BulkEntry { name, is_dir: kind == VDIR, size })
}

/// The length of the record at `pos`, with the length itself, where a whole record is
/// there.
pub open spec fn record_len(buf: Seq<u8>, pos: int) -> Option<int> {
    if pos + 4 > buf.len() {
        None
    } else {
        let n = u32_at(buf, pos) as int;
        if n < 4 || pos + n > buf.len() {
            None
        } else {
            Some(n)
        }
    }
}

/// The entries of at most `count` records from `pos` on. The first record that is not
/// whole ends the list; a record that says nothing is passed over.
pub open spec fn batch(buf: Seq<u8>, pos: int, count: nat) -> Seq<BulkView>
    decreases count,
{
    if count == 0 {
        Seq::empty()
    } else {
        match record_len(buf, pos) {
            None => Seq::empty(),
            Some(n) => {
                let rest = batch(buf, pos + n, (count - 1) as nat);
                match parsed(buf.subrange(pos + 4, pos + n)) {
                    Some(e) => seq![e] + rest,
                    None => rest,
                }
            },
        }
    }
}

/// The values of a list of entries.
pub open spec fn bulk_views(v: Seq<BulkEntry>) -> Seq<BulkView> {
    Seq::new(v.len(), |i: int| v[i]@)
}

/// The records of a list are its own, one by one.
pub proof fn records_are_seen_one_by_one(v: Seq<BulkEntry>)
    ensures
        bulk_views(v).len() == v.len(),
        forall|i: int| 0 <= i < v.len() ==> bulk_views(v)[i] == (#[trigger] v[i])@,
{
}

/// Reads the records of a buffer that the kernel says holds `count` of them.
pub fn parse_batch(buf: &[u8], count: usize) -> (r: Vec<BulkEntry>)
    ensures
        bulk_views(r@) == batch(buf@, 0, count as nat),
{
    let mut out: Vec<BulkEntry> = Vec::new();
    let mut pos: usize = 0;
    let mut left: usize = count;
    assert(bulk_views(out@) =~= Seq::<BulkView>::empty());
    assert(Seq::<BulkView>::empty() + batch(buf@, 0, count as nat) =~= batch(buf@, 0, count as nat));
    while left > 0
        invariant
            pos <= buf@.len(),
            bulk_views(out@) + batch(buf@, pos as int, left as nat) == batch(buf@, 0, count as nat),
        ensures
            bulk_views(out@) == batch(buf@, 0, count as nat),
        decreases left,
    {
        let ghost before = bulk_views(out@);
        let n: usize = match read_u32_le(buf, pos) {
            Some(n) => n as usize,
            None => {
                assert(before + Seq::<BulkView>::empty() =~= before);
                break;
            },
        };
        if n < 4 || n > buf.len() - pos {
            assert(before + Seq::<BulkView>::empty() =~= before);
            break;
        }
        let body = vstd::slice::slice_subrange(buf, pos + 4, pos + n);
        let ghost rest = batch(buf@, pos + n, (left - 1) as nat);
        match parse_record(body) {
            Some(e) => {
                let ghost v = e@;
                out.push(e);
                proof {
                    assert(bulk_views(out@) =~= before.push(v));
                    assert(before.push(v) + rest =~= before + (seq![v] + rest));
                }
            },
            None => {},
        }
        pos = pos + n;
        left = left - 1;
        proof {
            if left == 0 {
                assert(bulk_views(out@) + Seq::<BulkView>::empty() =~= bulk_views(out@));
            }
        }
    }
    out
}

proof fn lemma_batch_moved(front: Seq<u8>, buf: Seq<u8>, pos: int, count: nat)
    requires
        0 <= pos <= buf.len(),
    ensures
        batch(front + buf, front.len() + pos, count) == batch(buf, pos, count),
    decreases count,
{
    let all = front + buf;
    let at = front.len() + pos;
    if count > 0 {
        if pos + 4 <= buf.len() {
            assert(all.subrange(at, at + 4) =~= buf.subrange(pos, pos + 4));
        }
        assert(record_len(all, at) == record_len(buf, pos));
        match record_len(buf, pos) {
            Some(n) => {
                assert(all.subrange(at + 4, at + n) =~= buf.subrange(pos + 4, pos + n));
                lemma_batch_moved(front, buf, pos + n, (count - 1) as nat);
            },
            None => {},
        }
    }
}

/// A batch is read record by record: each record begins with its own length, what it holds comes
/// before what the rest holds, and a record that cannot be used is passed over. A batch whose
/// record does not fit ends there, and no more records are read than were announced.
pub proof fn batches_are_read_record_by_record(record: Seq<u8>, rest: Seq<u8>, count: nat)
    ensures
        record.len() >= 4 && record.len() < 0x1_0000_0000 && le_value(record.subrange(0, 4))
            == record.len() ==> batch(record + rest, 0, count + 1) == (match parsed(record.skip(4)) {
            Some(e) => seq![e],
            None => Seq::<BulkView>::empty(),
        }) + batch(rest, 0, count),
        rest.len() < 4 ==> batch(rest, 0, count) == Seq::<BulkView>::empty(),
        rest.len() >= 4 && rest.len() < 0x1_0000_0000 && (le_value(rest.subrange(0, 4)) < 4
            || le_value(rest.subrange(0, 4)) > rest.len()) && le_value(rest.subrange(0, 4))
            < 0x1_0000_0000 ==> batch(rest, 0, count) == Seq::<BulkView>::empty(),
        batch(rest, 0, 0) == Seq::<BulkView>::empty(),
{
    let all = record + rest;
    if record.len() >= 4 && record.len() < 0x1_0000_0000 && le_value(record.subrange(0, 4))
        == record.len() {
        assert(all.subrange(0, 4) =~= record.subrange(0, 4));
        assert(record_len(all, 0) == Some(record.len() as int));
        assert(all.subrange(4, record.len() as int) =~= record.skip(4));
        lemma_batch_moved(record, rest, 0, count);
        assert(Seq::<BulkView>::empty() + batch(rest, 0, count) =~= batch(rest, 0, count));
    }
}

} // verus!
