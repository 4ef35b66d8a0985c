//! Per-entry metadata of a directory listing: how an entry counts towards
//! the scan (a directory or hard-linked file met a second time is kept but
//! not counted again), and the decoding of the packed attribute records a
//! bulk directory read returns.

use dashmap::DashSet;
use vstd::prelude::*;

verus! {

/// Metadata for a single directory entry from the bulk path.
pub struct RawMeta {
    /// Allocated bytes on disk; 0 for directories.
    pub size: u64,
    /// Modification time, unix seconds.
    pub mtime: i64,
    pub is_dir: bool,
    pub dev: u64,
    pub ino: u64,
    /// Hard-link count (0 for directories).
    pub nlink: u32,
}

/// Size and modification time kept for a walked entry.
#[derive(Clone, Debug, Default)]
pub struct EntryMeta {
    pub size: u64,
    pub mtime: i64,
}

// ── Counting each file and directory once ────────────────────────────────────

/// `dashmap::DashSet`, a set shared between threads; opaque here.
#[verifier::external_type_specification]
#[verifier::external_body]
#[verifier::reject_recursive_types(K)]
#[verifier::reject_recursive_types(S)]
pub struct ExDashSet<K, S>(DashSet<K, S>);

/// How a listed entry counts towards the scan.
#[derive(PartialEq, Eq, Structural, Clone, Copy, Debug)]
pub enum EntryKind {
    /// A directory met for the first time: walk into it.
    NewDir,
    /// A directory already met: keep it as an empty leaf.
    SeenDir,
    /// A file counted with its size.
    NewFile,
    /// A hard-linked file already counted: keep it with size 0.
    SeenFile,
}

/// Only directories and files with more than one link can be met twice.
pub open spec fn needs_visit_check(is_dir: bool, nlink: u32) -> bool {
    is_dir || nlink > 1
}

/// How an entry counts, given whether its identity was met for the first time.
pub open spec fn kind_of(is_dir: bool, nlink: u32, first_visit: bool) -> EntryKind {
    if is_dir {
        if first_visit { EntryKind::NewDir } else { EntryKind::SeenDir }
    } else if nlink > 1 && !first_visit {
        EntryKind::SeenFile
    } else {
        EntryKind::NewFile
    }
}

pub fn entry_kind(is_dir: bool, nlink: u32, first_visit: bool) -> (r: EntryKind)
    ensures
        r == kind_of(is_dir, nlink, first_visit),
{
    if is_dir {
        if first_visit { EntryKind::NewDir } else { EntryKind::SeenDir }
    } else if nlink > 1 && !first_visit {
        EntryKind::SeenFile
    } else {
        EntryKind::NewFile
    }
}

/// `DashSet::insert` of the identity `(dev, ino)`: whether it was not yet in
/// the set.  The set is shared between threads, so nothing is promised of
/// the answer.
#[verifier::external_body]
fn first_visit(visited: &DashSet<(u64, u64)>, dev: u64, ino: u64) -> (r: bool) {
    visited.insert((dev, ino))
}

/// How an entry counts towards the scan.  Directories, and files with more
/// than one link, are looked up by `(dev, ino)` in `visited` and recorded
/// there; other files always count.
pub fn classify_entry(visited: &DashSet<(u64, u64)>, is_dir: bool, nlink: u32, dev: u64, ino: u64) -> (r: EntryKind)
    ensures
        !needs_visit_check(is_dir, nlink) ==> r == EntryKind::NewFile,
        needs_visit_check(is_dir, nlink) ==> exists|first: bool| r == #[trigger] kind_of(is_dir, nlink, first),
{
    if is_dir || nlink > 1 {
        let first = first_visit(visited, dev, ino);
        entry_kind(is_dir, nlink, first)
    } else {
        entry_kind(is_dir, nlink, true)
    }
}

/// The size and time kept for an entry of the given kind: repeats are kept
/// with size 0.
pub fn entry_meta(kind: EntryKind, size: u64, mtime: i64) -> (m: EntryMeta)
    ensures
        m.mtime == mtime,
        m.size == (if kind == EntryKind::NewFile || kind == EntryKind::NewDir { size } else { 0 }),
{
    match kind {
        EntryKind::NewFile | EntryKind::NewDir => EntryMeta { size, mtime },
        _ => EntryMeta { size: 0, mtime },
    }
}

// ── Packed attribute records ─────────────────────────────────────────────────

/// Bytes of the fixed part of a record, up to and including the allocated size.
pub const RECORD_FIXED_LEN: usize = 76;

/// Object type of a directory.
pub const VDIR: u32 = 2;

/// Little-endian `u32` at `p`.
pub open spec fn le_u32(b: Seq<u8>, p: int) -> int {
    b[p] + 256 * b[p + 1] + 65536 * b[p + 2] + 16777216 * b[p + 3]
}

/// Little-endian `u64` at `p`.
pub open spec fn le_u64(b: Seq<u8>, p: int) -> int {
    le_u32(b, p) + 4294967296 * le_u32(b, p + 4)
}

/// Two's-complement reading of a 32-bit pattern.
pub open spec fn signed32(v: int) -> int {
    if v < 0x8000_0000 { v } else { v - 0x1_0000_0000 }
}

/// Two's-complement reading of a 64-bit pattern.
pub open spec fn signed64(v: int) -> int {
    if v < 0x8000_0000_0000_0000 { v } else { v - 0x1_0000_0000_0000_0000 }
}

/// Where the name of the record at `p` starts: its reference field at
/// `p + 24` holds an offset from that field.
pub open spec fn name_start(b: Seq<u8>, p: int) -> int {
    p + 24 + signed32(le_u32(b, p + 24))
}

/// Bytes of the name, without its terminating zero.
pub open spec fn name_len(b: Seq<u8>, p: int) -> int {
    let l = le_u32(b, p + 28);
    if l > 0 { l - 1 } else { 0 }
}

/// The record at `p` and its name lie within the buffer.
pub open spec fn record_fits(b: Seq<u8>, p: int) -> bool {
    &&& 0 <= p
    &&& p + RECORD_FIXED_LEN <= b.len()
    &&& 0 <= name_start(b, p)
    &&& name_start(b, p) + name_len(b, p) <= b.len()
}

/// The metadata of the record at `p`: device, object type, modification
/// seconds, file id, link count and allocated size, in that order after the
/// name reference; directories report size 0, negative sizes read as 0.
pub open spec fn record_meta(b: Seq<u8>, p: int) -> RawMeta {
    let is_dir = le_u32(b, p + 36) == VDIR;
    let alloc = signed64(le_u64(b, p + 68));
    RawMeta {
        size: if is_dir || alloc < 0 { 0 } else { alloc as u64 },
        mtime: signed64(le_u64(b, p + 40)) as i64,
        is_dir,
        dev: le_u32(b, p + 32) as u64,
        ino: le_u64(b, p + 56) as u64,
        nlink: le_u32(b, p + 64) as u32,
    }
}

/// The named entries of the first `n` records from `p` on, each record
/// followed by the next at its own length further; decoding stops at the
/// first record that does not lie within the buffer.  Entries with an empty
/// name are skipped.
pub open spec fn parse_records(b: Seq<u8>, p: int, n: nat) -> Seq<(Seq<u8>, RawMeta)>
    decreases n,
{
    if n == 0 || !record_fits(b, p) {
        seq![]
    } else {
        let rest = parse_records(b, p + le_u32(b, p), (n - 1) as nat);
        let name = b.subrange(name_start(b, p), name_start(b, p) + name_len(b, p));
        if name.len() > 0 {
            seq![(name, record_meta(b, p))] + rest
        } else {
            rest
        }
    }
}

/// A record that stands alone: it fits, its name lies within it, and its
/// length field gives exactly its own length.
pub open spec fn self_contained(r: Seq<u8>) -> bool {
    record_fits(r, 0) && le_u32(r, 0) == r.len()
}

/// What a single record stands for: its name and metadata, or nothing when
/// its name is empty.
pub open spec fn record_entry(r: Seq<u8>) -> Seq<(Seq<u8>, RawMeta)> {
    let name = r.subrange(name_start(r, 0), name_start(r, 0) + name_len(r, 0));
    if name.len() > 0 { seq![(name, record_meta(r, 0))] } else { seq![] }
}

/// Records laid one after another.
pub open spec fn packed(rs: Seq<Seq<u8>>) -> Seq<u8>
    decreases rs.len(),
{
    if rs.len() == 0 { seq![] } else { rs[0] + packed(rs.drop_first()) }
}

/// The entries of the records, in order.
pub open spec fn entries_of(rs: Seq<Seq<u8>>) -> Seq<(Seq<u8>, RawMeta)>
    decreases rs.len(),
{
    if rs.len() == 0 { seq![] } else { record_entry(rs[0]) + entries_of(rs.drop_first()) }
}

/// A record laid at `p` in `b` reads there as it reads alone.
proof fn lemma_record_at(b: Seq<u8>, r: Seq<u8>, p: int)
    requires
        0 <= p,
        p + r.len() <= b.len(),
        forall|i: int| 0 <= i < r.len() ==> #[trigger] b[p + i] == r[i],
        self_contained(r),
    ensures
        record_fits(b, p),
        le_u32(b, p) == r.len(),
        name_start(b, p) == p + name_start(r, 0),
        name_len(b, p) == name_len(r, 0),
        record_meta(b, p) == record_meta(r, 0),
        b.subrange(name_start(b, p), name_start(b, p) + name_len(b, p))
            == r.subrange(name_start(r, 0), name_start(r, 0) + name_len(r, 0)),
{
    assert forall|k: int| 0 <= k && k + 4 <= r.len() implies #[trigger] le_u32(b, p + k) == le_u32(r, k) by {
        assert(b[p + k] == r[k]);
        assert(b[p + (k + 1)] == r[k + 1]);
        assert(b[p + (k + 2)] == r[k + 2]);
        assert(b[p + (k + 3)] == r[k + 3]);
    }
    assert(le_u32(b, p + 0) == le_u32(r, 0));
    assert(le_u32(b, p + 24) == le_u32(r, 24));
    assert(le_u32(b, p + 28) == le_u32(r, 28));
    assert(le_u32(b, p + 32) == le_u32(r, 32));
    assert(le_u32(b, p + 36) == le_u32(r, 36));
    assert(le_u32(b, p + 40) == le_u32(r, 40));
    assert(le_u32(b, p + 44) == le_u32(r, 44));
    assert(le_u32(b, p + 56) == le_u32(r, 56));
    assert(le_u32(b, p + 60) == le_u32(r, 60));
    assert(le_u32(b, p + 64) == le_u32(r, 64));
    assert(le_u32(b, p + 68) == le_u32(r, 68));
    assert(le_u32(b, p + 72) == le_u32(r, 72));
    assert(le_u32(b, p + 24 + 4) == le_u32(r, 28));
    assert(le_u32(b, p + 40 + 4) == le_u32(r, 44));
    assert(le_u32(b, p + 56 + 4) == le_u32(r, 60));
    assert(le_u32(b, p + 68 + 4) == le_u32(r, 72));
    let ns = name_start(r, 0);
    let nl = name_len(r, 0);
    assert(b.subrange(p + ns, p + ns + nl) =~= r.subrange(ns, ns + nl)) by {
        assert forall|i: int| 0 <= i < nl implies #[trigger] b.subrange(p + ns, p + ns + nl)[i] == r.subrange(ns, ns + nl)[i] by {
            assert(b[p + (ns + i)] == r[ns + i]);
        }
    }
}

/// Records laid back to back after `a` decode, from where they start, to
/// their entries in order, whatever follows them.
proof fn lemma_packed_from(a: Seq<u8>, rs: Seq<Seq<u8>>, tail: Seq<u8>)
    requires
        forall|i: int| 0 <= i < rs.len() ==> self_contained(#[trigger] rs[i]),
    ensures
        parse_records(a + packed(rs) + tail, a.len() as int, rs.len()) == entries_of(rs),
    decreases rs.len(),
{
    if rs.len() > 0 {
        let r0 = rs[0];
        let rest = rs.drop_first();
        let b = a + packed(rs) + tail;
        let a2 = a + r0;
        assert(b =~= a2 + packed(rest) + tail);
        assert(self_contained(r0));
        assert forall|i: int| 0 <= i < r0.len() implies #[trigger] b[a.len() + i] == r0[i] by {
            assert(b[a.len() + i] == (a2 + packed(rest) + tail)[a.len() + i]);
        }
        lemma_record_at(b, r0, a.len() as int);
        assert forall|i: int| 0 <= i < rest.len() implies self_contained(#[trigger] rest[i]) by {
            assert(rest[i] == rs[i + 1]);
        }
        lemma_packed_from(a2, rest, tail);
        assert(a.len() + le_u32(b, a.len() as int) == a2.len());
    }
}

/// Records packed back to back, each with its own length in its length
/// field and its name within it, decode to their entries in order: each
/// record after the first is read where the previous one's length field
/// says, whatever padding follows a name, and whatever comes after the last.
pub proof fn law_packed_records_decode_in_order(rs: Seq<Seq<u8>>, tail: Seq<u8>)
    requires
        forall|i: int| 0 <= i < rs.len() ==> self_contained(#[trigger] rs[i]),
    ensures
        parse_records(packed(rs) + tail, 0, rs.len()) == entries_of(rs),
{
    lemma_packed_from(seq![], rs, tail);
    assert(Seq::<u8>::empty() + packed(rs) + tail =~= packed(rs) + tail);
}

fn read_u32(b: &[u8], p: usize) -> (r: u32)
    requires
        p + 4 <= b@.len(),
    ensures
        r as int == le_u32(b@, p as int),
{
    b[p] as u32 + 256 * (b[p + 1] as u32) + 65536 * (b[p + 2] as u32) + 16777216 * (b[p + 3] as u32)
}

fn read_u64(b: &[u8], p: usize) -> (r: u64)
    requires
        p + 8 <= b@.len(),
    ensures
        r as int == le_u64(b@, p as int),
{
    let len = b.len();
    assert(p + 4 < len);
    let lo = read_u32(b, p) as u64;
    let hi = read_u32(b, p + 4) as u64;
    lo + 4294967296 * hi
}

fn to_i32(v: u32) -> (r: i32)
    ensures
        r as int == signed32(v as int),
{
    if v < 0x8000_0000 {
        v as i32
    } else {
        -((0xFFFF_FFFFu32 - v) as i32) - 1
    }
}

fn to_i64(v: u64) -> (r: i64)
    ensures
        r as int == signed64(v as int),
{
    if v < 0x8000_0000_0000_0000 {
        v as i64
    } else {
        -((0xFFFF_FFFF_FFFF_FFFFu64 - v) as i64) - 1
    }
}

/// Decodes up to `n` packed records from `buf`, as `parse_records` says:
/// each named entry with its metadata, in record order.
pub fn parse_attr_records(buf: &[u8], n: usize) -> (r: Vec<(Vec<u8>, RawMeta)>)
    ensures
        r@.len() == parse_records(buf@, 0, n as nat).len(),
        forall|i: int| 0 <= i < r@.len() ==> (#[trigger] r@[i]).0@ == parse_records(buf@, 0, n as nat)[i].0
            && r@[i].1 == parse_records(buf@, 0, n as nat)[i].1,
{
    let ghost b = buf@;
    let ghost whole = parse_records(b, 0, n as nat);
    let mut out: Vec<(Vec<u8>, RawMeta)> = Vec::new();
    let mut pos: usize = 0;
    let mut left: usize = n;
    loop
        invariant
            b == buf@,
            whole == parse_records(b, 0, n as nat),
            whole == Seq::new(out@.len(), |i: int| (out@[i].0@, out@[i].1)) + parse_records(b, pos as int, left as nat),
        ensures
            parse_records(b, pos as int, left as nat) == Seq::<(Seq<u8>, RawMeta)>::empty(),
        decreases left,
    {
        let ghost done = Seq::new(out@.len(), |i: int| (out@[i].0@, out@[i].1));
        if left == 0 {
            break;
        }
        if pos > buf.len() || buf.len() - pos < RECORD_FIXED_LEN {
            break;
        }
        let total_len = read_u32(buf, pos);
        let name_off = to_i32(read_u32(buf, pos + 24));
        let raw_len = read_u32(buf, pos + 28);
        let nlen: usize = if raw_len > 0 { (raw_len - 1) as usize } else { 0 };
        let base = pos + 24;
        let start: usize = if name_off >= 0 {
            let o = name_off as usize;
            if o > buf.len() || base > buf.len() - o {
                break;
            }
            base + o
        } else {
            let m = (-(name_off as i64)) as usize;
            if m > base {
                break;
            }
            base - m
        };
        if start > buf.len() || nlen > buf.len() - start {
            break;
        }
        let objtype = read_u32(buf, pos + 36);
        let tv_sec = to_i64(read_u64(buf, pos + 40));
        let fileid = read_u64(buf, pos + 56);
        let nlink = read_u32(buf, pos + 64);
        let alloc = to_i64(read_u64(buf, pos + 68));
        let devid = read_u32(buf, pos + 32);
        let is_dir = objtype == VDIR;
        let size: u64 = if is_dir || alloc < 0 { 0 } else { alloc as u64 };
        let meta = RawMeta { size, mtime: tv_sec, is_dir, dev: devid as u64, ino: fileid, nlink };
        let mut name: Vec<u8> = Vec::new();
        let mut k: usize = 0;
        let blen = buf.len();
        while k < nlen
            invariant
                b == buf@,
                blen == b.len(),
                start + nlen <= blen,
                k <= nlen,
                name@ == b.subrange(start as int, (start + k) as int),
            decreases nlen - k,
        {
            name.push(buf[start + k]);
            k = k + 1;
            assert(name@ =~= b.subrange(start as int, (start + k) as int));
        }
        proof {
            assert(record_fits(b, pos as int));
            assert(record_meta(b, pos as int) == meta);
        }
        let ghost rest = parse_records(b, pos as int + total_len, (left - 1) as nat);
        if nlen > 0 {
            out.push((name, meta));
            proof {
                let now_done = Seq::new(out@.len(), |i: int| (out@[i].0@, out@[i].1));
                assert(now_done =~= done.push((name@, meta)));
                assert(done + (seq![(name@, meta)] + rest) =~= now_done + rest);
            }
        } else {
            proof {
                let now_done = Seq::new(out@.len(), |i: int| (out@[i].0@, out@[i].1));
                assert(now_done =~= done);
            }
        }
        left = left - 1;
        if total_len as usize > buf.len() - pos {
            proof {
                if left > 0 {
                    assert(!record_fits(b, pos as int + total_len));
                }
                assert(rest =~= Seq::<(Seq<u8>, RawMeta)>::empty());
                let now_done = Seq::new(out@.len(), |i: int| (out@[i].0@, out@[i].1));
                assert(now_done + rest =~= now_done);
                assert(parse_records(b, buf.len() as int, left as nat) =~= Seq::<(Seq<u8>, RawMeta)>::empty());
            }
            pos = buf.len();
        } else {
            pos = pos + total_len as usize;
        }
    }
    proof {
        let fin = Seq::new(out@.len(), |i: int| (out@[i].0@, out@[i].1));
        assert(parse_records(b, pos as int, left as nat) =~= Seq::<(Seq<u8>, RawMeta)>::empty());
        assert(whole =~= fin);
    }
    out
}

} // verus!
