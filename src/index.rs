use vstd::prelude::*;
use vstd::utf8::{decode_utf8, encode_utf8, valid_utf8, encode_utf8_valid_utf8, encode_utf8_decode_utf8, decode_utf8_encode_utf8};
use crate::bytes::{
    be16, be32, read_be16, read_be32, lemma_be16_read, lemma_be32_read, push_be16, push_be32,
    push_all, get_be16, get_be32, copy_range, lex_lt, bytes_lt, bytes_eq, occurs_at, occurs_at_exec,
    contains_bytes, contains_slice, lemma_lex_total, lemma_lex_transitive, lemma_lex_irreflexive,
    lemma_lex_asymmetric, strictly_sorted_by, lemma_sorted_same_elements,
};
use crate::digest::{utf8_string, sha1, sha1_of};
use crate::error::Error;

verus! {

/// File-system metadata of a working file, as the index caches it.
#[derive(Clone, Copy, Debug, PartialEq, Eq, Structural)]
pub struct FileStat {
    pub ctime: u32,
    pub ctime_nsec: u32,
    pub mtime: u32,
    pub mtime_nsec: u32,
    pub dev: u32,
    pub ino: u32,
    /// The raw POSIX mode bits.
    pub mode: u32,
    pub uid: u32,
    pub gid: u32,
    pub size: u32,
}

/// Mode of a regular file.
pub const REGULAR_MODE: u32 = 0o100644;

/// Mode of an executable file.
pub const EXECUTABLE_MODE: u32 = 0o100755;

/// Longest path length that the flags field records.
pub const MAX_PATH_SIZE: u16 = 0xfff;

/// The mode that a file with the given POSIX mode bits is tracked under.
pub open spec fn tracked_mode(unix_mode: u32) -> u32 {
    if unix_mode & 1u32 != 0 {
        EXECUTABLE_MODE
    } else {
        REGULAR_MODE
    }
}

/// Tracked mode of a file from its POSIX mode bits: executable when the
/// execute bit for others is set, regular otherwise.
pub fn get_mode(unix_mode: u32) -> (r: u32)
    ensures
        r == tracked_mode(unix_mode),
{
    if unix_mode & 1u32 != 0 {
        EXECUTABLE_MODE
    } else {
        REGULAR_MODE
    }
}

/// One tracked path of the staging index, with its cached metadata.
#[derive(Debug)]
pub struct EntryAdd {
    pub ctime: u32,
    pub ctime_nsec: u32,
    pub mtime: u32,
    pub mtime_nsec: u32,
    pub dev: u32,
    pub ino: u32,
    pub mode: u32,
    pub uid: u32,
    pub gid: u32,
    pub size: u32,
    pub oid: Vec<u8>,
    pub flags: u16,
    pub path: String,
}

/// Mathematical value of an index entry.
pub struct EntryModel {
    pub ctime: u32,
    pub ctime_nsec: u32,
    pub mtime: u32,
    pub mtime_nsec: u32,
    pub dev: u32,
    pub ino: u32,
    pub mode: u32,
    pub uid: u32,
    pub gid: u32,
    pub size: u32,
    pub oid: Seq<u8>,
    pub flags: u16,
    pub path: Seq<char>,
}

impl View for EntryAdd {
    type V = EntryModel;

    open spec fn view(&self) -> EntryModel {
        EntryModel {
            ctime: self.ctime,
            ctime_nsec: self.ctime_nsec,
            mtime: self.mtime,
            mtime_nsec: self.mtime_nsec,
            dev: self.dev,
            ino: self.ino,
            mode: self.mode,
            uid: self.uid,
            gid: self.gid,
            size: self.size,
            oid: self.oid@,
            flags: self.flags,
            path: self.path@,
        }
    }
}

/// The UTF-8 bytes of an entry's path: the key that orders the index.
pub open spec fn path_key(m: EntryModel) -> Seq<u8> {
    encode_utf8(m.path)
}

/// Largest path length, in bytes, that an entry record can hold in memory.
pub const MAX_RECORD_PATH: usize = 0x7fff_ffff;

/// An entry that the index file can hold: a 20-byte object id and a path
/// without NUL bytes.
pub open spec fn model_wf(m: EntryModel) -> bool {
    &&& m.oid.len() == 20
    &&& !path_key(m).contains(0u8)
    &&& path_key(m).len() <= MAX_RECORD_PATH
}

/// The ten cached 32-bit fields, big-endian, in file order.
pub open spec fn stat_bytes(m: EntryModel) -> Seq<u8> {
    be32(m.ctime) + be32(m.ctime_nsec) + be32(m.mtime) + be32(m.mtime_nsec) + be32(m.dev)
        + be32(m.ino) + be32(m.mode) + be32(m.uid) + be32(m.gid) + be32(m.size)
}

/// The fixed fields, the object id, the flags and the path of a record.
pub open spec fn record_head(m: EntryModel) -> Seq<u8> {
    stat_bytes(m) + m.oid + be16(m.flags) + path_key(m)
}

/// Length of a record whose head is `n` bytes: at least one NUL, padded to
/// a multiple of 8.
pub open spec fn padded_len(n: nat) -> nat {
    (n + 8 - n % 8) as nat
}

/// `n` zero bytes.
pub open spec fn zeros(n: nat) -> Seq<u8> {
    Seq::new(n, |i: int| 0u8)
}

/// The on-disk record of one entry.
pub open spec fn entry_record(m: EntryModel) -> Seq<u8> {
    let h = record_head(m);
    h + zeros((padded_len(h.len()) - h.len()) as nat)
}

/// The record of `m` stands in `d` at `pos` and ends by `limit`.
pub open spec fn record_at(d: Seq<u8>, pos: int, limit: int, m: EntryModel) -> bool {
    &&& model_wf(m)
    &&& 0 <= pos
    &&& pos + entry_record(m).len() <= limit
    &&& limit <= d.len()
    &&& d.subrange(pos, pos + entry_record(m).len()) == entry_record(m)
}

proof fn lemma_head_len(m: EntryModel)
    requires
        m.oid.len() == 20,
    ensures
        record_head(m).len() == 62 + path_key(m).len(),
        stat_bytes(m).len() == 40,
{
}

/// Two records that both stand at one place hold the same entry.
pub proof fn lemma_record_unique(d: Seq<u8>, pos: int, limit: int, m1: EntryModel, m2: EntryModel)
    requires
        record_at(d, pos, limit, m1),
        record_at(d, pos, limit, m2),
    ensures
        m1 == m2,
{
    lemma_head_len(m1);
    lemma_head_len(m2);
    let r1 = entry_record(m1);
    let r2 = entry_record(m2);
    let p1 = path_key(m1);
    let p2 = path_key(m2);
    assert forall|k: int| 0 <= k < r1.len() implies d[pos + k] == r1[k] by {
        assert(d.subrange(pos, pos + r1.len())[k] == d[pos + k]);
    }
    assert forall|k: int| 0 <= k < r2.len() implies d[pos + k] == r2[k] by {
        assert(d.subrange(pos, pos + r2.len())[k] == d[pos + k]);
    }
    // the first NUL after the fixed part ends the path
    assert(r1[62 + p1.len() as int] == 0u8);
    assert(r2[62 + p2.len() as int] == 0u8);
    if p1.len() < p2.len() {
        assert(r2[62 + p1.len() as int] == p2[p1.len() as int]);
        assert(p2.contains(0u8));
    }
    if p2.len() < p1.len() {
        assert(r1[62 + p2.len() as int] == p1[p2.len() as int]);
        assert(p1.contains(0u8));
    }
    assert(p1.len() == p2.len());
    assert(r1.len() == r2.len());
    assert(r1 =~= r2);
    let h1 = record_head(m1);
    let h2 = record_head(m2);
    assert(h1 =~= r1.subrange(0, h1.len() as int));
    assert(h2 =~= r2.subrange(0, h2.len() as int));
    assert(p1 =~= h1.subrange(62, h1.len() as int));
    assert(p2 =~= h2.subrange(62, h2.len() as int));
    encode_utf8_decode_utf8(m1.path);
    encode_utf8_decode_utf8(m2.path);
    assert(m1.oid =~= h1.subrange(40, 60));
    assert(m2.oid =~= h2.subrange(40, 60));
    let s1 = stat_bytes(m1);
    let s2 = stat_bytes(m2);
    assert(s1 =~= h1.subrange(0, 40));
    assert(s2 =~= h2.subrange(0, 40));
    assert(be16(m1.flags) =~= h1.subrange(60, 62));
    assert(be16(m2.flags) =~= h2.subrange(60, 62));
    lemma_be16_read(m1.flags);
    lemma_be16_read(m2.flags);
    lemma_stat_fields(m1);
    lemma_stat_fields(m2);
    assert(read_be32(s1, 0) == read_be32(s2, 0));
    assert(read_be32(s1, 4) == read_be32(s2, 4));
    assert(read_be32(s1, 8) == read_be32(s2, 8));
    assert(read_be32(s1, 12) == read_be32(s2, 12));
    assert(read_be32(s1, 16) == read_be32(s2, 16));
    assert(read_be32(s1, 20) == read_be32(s2, 20));
    assert(read_be32(s1, 24) == read_be32(s2, 24));
    assert(read_be32(s1, 28) == read_be32(s2, 28));
    assert(read_be32(s1, 32) == read_be32(s2, 32));
    assert(read_be32(s1, 36) == read_be32(s2, 36));
}

proof fn lemma_be32_at(s: Seq<u8>, i: int, n: u32)
    requires
        0 <= i,
        i + 4 <= s.len(),
        s.subrange(i, i + 4) == be32(n),
    ensures
        read_be32(s, i) == n,
{
    lemma_be32_read(n);
    assert(s[i] == be32(n)[0] && s[i + 1] == be32(n)[1]);
    assert(s[i + 2] == be32(n)[2] && s[i + 3] == be32(n)[3]);
    assert(s.subrange(i, i + 4)[0] == s[i]);
}

/// Each cached field can be read back from its place in the record.
proof fn lemma_stat_fields(m: EntryModel)
    ensures
        read_be32(stat_bytes(m), 0) == m.ctime,
        read_be32(stat_bytes(m), 4) == m.ctime_nsec,
        read_be32(stat_bytes(m), 8) == m.mtime,
        read_be32(stat_bytes(m), 12) == m.mtime_nsec,
        read_be32(stat_bytes(m), 16) == m.dev,
        read_be32(stat_bytes(m), 20) == m.ino,
        read_be32(stat_bytes(m), 24) == m.mode,
        read_be32(stat_bytes(m), 28) == m.uid,
        read_be32(stat_bytes(m), 32) == m.gid,
        read_be32(stat_bytes(m), 36) == m.size,
{
    let s = stat_bytes(m);
    assert(s.subrange(0, 4) =~= be32(m.ctime));
    assert(s.subrange(4, 8) =~= be32(m.ctime_nsec));
    assert(s.subrange(8, 12) =~= be32(m.mtime));
    assert(s.subrange(12, 16) =~= be32(m.mtime_nsec));
    assert(s.subrange(16, 20) =~= be32(m.dev));
    assert(s.subrange(20, 24) =~= be32(m.ino));
    assert(s.subrange(24, 28) =~= be32(m.mode));
    assert(s.subrange(28, 32) =~= be32(m.uid));
    assert(s.subrange(32, 36) =~= be32(m.gid));
    assert(s.subrange(36, 40) =~= be32(m.size));
    lemma_be32_at(s, 0, m.ctime);
    lemma_be32_at(s, 4, m.ctime_nsec);
    lemma_be32_at(s, 8, m.mtime);
    lemma_be32_at(s, 12, m.mtime_nsec);
    lemma_be32_at(s, 16, m.dev);
    lemma_be32_at(s, 20, m.ino);
    lemma_be32_at(s, 24, m.mode);
    lemma_be32_at(s, 28, m.uid);
    lemma_be32_at(s, 32, m.gid);
    lemma_be32_at(s, 36, m.size);
}

proof fn lemma_be32_of_read(s: Seq<u8>, i: int)
    requires
        0 <= i,
        i + 4 <= s.len(),
    ensures
        be32(read_be32(s, i)) == s.subrange(i, i + 4),
{
    let (b0, b1, b2, b3) = (s[i], s[i + 1], s[i + 2], s[i + 3]);
    let n = read_be32(s, i);
    assert(n == ((b0 as u32) << 24u32) | ((b1 as u32) << 16u32) | ((b2 as u32) << 8u32) | (b3 as u32));
    assert((((((b0 as u32) << 24u32) | ((b1 as u32) << 16u32) | ((b2 as u32) << 8u32) | (b3 as u32)) >> 24u32) as u8) == b0
        && (((((b0 as u32) << 24u32) | ((b1 as u32) << 16u32) | ((b2 as u32) << 8u32) | (b3 as u32)) >> 16u32) as u8) == b1
        && (((((b0 as u32) << 24u32) | ((b1 as u32) << 16u32) | ((b2 as u32) << 8u32) | (b3 as u32)) >> 8u32) as u8) == b2
        && ((((b0 as u32) << 24u32) | ((b1 as u32) << 16u32) | ((b2 as u32) << 8u32) | (b3 as u32)) as u8) == b3)
        by (bit_vector);
    assert(be32(n) =~= s.subrange(i, i + 4));
}

proof fn lemma_be16_of_read(s: Seq<u8>, i: int)
    requires
        0 <= i,
        i + 2 <= s.len(),
    ensures
        be16(read_be16(s, i)) == s.subrange(i, i + 2),
{
    let (b0, b1) = (s[i], s[i + 1]);
    assert((((((b0 as u16) << 8u16) | (b1 as u16)) >> 8u16) as u8) == b0
        && ((((b0 as u16) << 8u16) | (b1 as u16)) as u8) == b1) by (bit_vector);
    assert(be16(read_be16(s, i)) =~= s.subrange(i, i + 2));
}

/// What a record standing at `pos` says of the bytes there.
proof fn lemma_record_facts(d: Seq<u8>, pos: int, limit: int, m: EntryModel)
    requires
        record_at(d, pos, limit, m),
    ensures
        d[pos + 62 + path_key(m).len()] == 0u8,
        forall|k: int| pos + 62 <= k < pos + 62 + path_key(m).len() ==> d[k] != 0u8,
        forall|k: int|
            pos + 62 + path_key(m).len() <= k < pos + padded_len(62 + path_key(m).len()) ==> d[k] == 0u8,
        pos + padded_len(62 + path_key(m).len()) <= limit,
        entry_record(m).len() == padded_len(62 + path_key(m).len()),
        d.subrange(pos + 62, pos + 62 + path_key(m).len()) == path_key(m),
{
    lemma_head_len(m);
    let r = entry_record(m);
    let p = path_key(m);
    let h = record_head(m);
    assert(h.len() == 62 + p.len());
    assert(r.len() == padded_len(h.len()));
    assert forall|k: int| 0 <= k < r.len() implies d[pos + k] == r[k] by {
        assert(d.subrange(pos, pos + r.len())[k] == d[pos + k]);
    }
    assert forall|j: int| 0 <= j < p.len() implies r[62 + j] == p[j] by {
        assert(r[62 + j] == h[62 + j]);
    }
    assert(r[h.len() as int] == 0u8);
    assert(d[pos + h.len()] == 0u8);
    assert forall|k: int| pos + 62 <= k < pos + 62 + p.len() implies d[k] != 0u8 by {
        assert(d[k] == r[k - pos]);
        assert(r[k - pos] == p[k - pos - 62]);
        if d[k] == 0u8 {
            assert(p.contains(0u8));
        }
    }
    assert forall|k: int| pos + h.len() <= k < pos + r.len() implies d[k] == 0u8 by {
        assert(d[k] == r[k - pos]);
    }
    assert forall|j: int| 0 <= j < p.len() implies d.subrange(pos + 62, pos + 62 + p.len())[j] == p[j] by {
        assert(d[pos + 62 + j] == r[62 + j]);
    }
    assert(d.subrange(pos + 62, pos + 62 + p.len()) =~= p);
}

/// The first NUL after the fixed part of a record ends its path.
proof fn lemma_first_nul(d: Seq<u8>, pos: int, limit: int, m: EntryModel, q: int)
    requires
        record_at(d, pos, limit, m),
        pos + 62 <= q <= limit,
        forall|k: int| pos + 62 <= k < q ==> d[k] != 0u8,
        q == limit || d[q] == 0u8,
    ensures
        q == pos + 62 + path_key(m).len(),
        entry_record(m).len() == padded_len(62 + path_key(m).len()),
{
    lemma_record_facts(d, pos, limit, m);
    let e = pos + 62 + path_key(m).len();
    if q > e {
        assert(d[e] != 0u8);
    }
    if q < e {
        assert(d[q] != 0u8);
    }
}

/// Bytes that pass the checks of `EntryAdd::parse` hold the record of the
/// entry read from them.
proof fn lemma_parsed(d: Seq<u8>, pos: int, limit: int, q: int, next: int, m: EntryModel)
    requires
        0 <= pos,
        pos + 62 <= q < next <= limit <= d.len(),
        q - pos - 62 <= MAX_RECORD_PATH,
        next == q + 8 - (q - pos) % 8,
        forall|k: int| pos + 62 <= k < q ==> d[k] != 0u8,
        forall|k: int| q <= k < next ==> d[k] == 0u8,
        valid_utf8(d.subrange(pos + 62, q)),
        m.path == decode_utf8(d.subrange(pos + 62, q)),
        m.oid == d.subrange(pos + 40, pos + 60),
        m.ctime == read_be32(d, pos),
        m.ctime_nsec == read_be32(d, pos + 4),
        m.mtime == read_be32(d, pos + 8),
        m.mtime_nsec == read_be32(d, pos + 12),
        m.dev == read_be32(d, pos + 16),
        m.ino == read_be32(d, pos + 20),
        m.mode == read_be32(d, pos + 24),
        m.uid == read_be32(d, pos + 28),
        m.gid == read_be32(d, pos + 32),
        m.size == read_be32(d, pos + 36),
        m.flags == read_be16(d, pos + 60),
    ensures
        model_wf(m),
        record_at(d, pos, limit, m),
        next == pos + entry_record(m).len(),
{
    let pb = d.subrange(pos + 62, q);
    decode_utf8_encode_utf8(pb);
    assert(path_key(m) == pb);
    assert forall|j: int| 0 <= j < pb.len() implies pb[j] != 0u8 by {
        assert(pb[j] == d[pos + 62 + j]);
    }
    lemma_head_len(m);
    lemma_be32_of_read(d, pos);
    lemma_be32_of_read(d, pos + 4);
    lemma_be32_of_read(d, pos + 8);
    lemma_be32_of_read(d, pos + 12);
    lemma_be32_of_read(d, pos + 16);
    lemma_be32_of_read(d, pos + 20);
    lemma_be32_of_read(d, pos + 24);
    lemma_be32_of_read(d, pos + 28);
    lemma_be32_of_read(d, pos + 32);
    lemma_be32_of_read(d, pos + 36);
    lemma_be16_of_read(d, pos + 60);
    assert(stat_bytes(m) =~= d.subrange(pos, pos + 40));
    assert(record_head(m) =~= d.subrange(pos, q));
    assert(entry_record(m) =~= d.subrange(pos, next));
}

impl EntryAdd {
    /// The entry can be written to the index file.
    pub open spec fn wf(&self) -> bool {
        model_wf(self@)
    }

    /// The on-disk record of this entry.
    pub fn get_data(&self) -> (r: Vec<u8>)
        requires
            self.wf(),
        ensures
            r@ == entry_record(self@),
    {
        let mut data: Vec<u8> = Vec::new();
        push_be32(&mut data, self.ctime);
        push_be32(&mut data, self.ctime_nsec);
        push_be32(&mut data, self.mtime);
        push_be32(&mut data, self.mtime_nsec);
        push_be32(&mut data, self.dev);
        push_be32(&mut data, self.ino);
        push_be32(&mut data, self.mode);
        push_be32(&mut data, self.uid);
        push_be32(&mut data, self.gid);
        push_be32(&mut data, self.size);
        push_all(&mut data, self.oid.as_slice());
        push_be16(&mut data, self.flags);
        push_all(&mut data, self.path.as_str().as_bytes());
        let ghost h = data@;
        proof {
            lemma_head_len(self@);
            assert(h =~= record_head(self@));
        }
        data.push(0u8);
        while data.len() % 8 != 0
            invariant
                h == record_head(self@),
                h.len() + 1 <= data@.len() <= padded_len(h.len()),
                data@ == h + zeros((data@.len() - h.len()) as nat),
            decreases padded_len(h.len()) - data@.len(),
        {
            data.push(0u8);
            assert(data@ =~= h + zeros((data@.len() - h.len()) as nat));
        }
        data
    }

    /// Reads the record that starts at `pos` of `d` and ends by `limit`.
    pub fn parse(d: &[u8], pos: usize, limit: usize) -> (r: Option<(EntryAdd, usize)>)
        requires
            pos <= limit <= d@.len(),
        ensures
            r matches Some((e, next)) ==> {
                &&& e.wf()
                &&& record_at(d@, pos as int, limit as int, e@)
                &&& next == pos + entry_record(e@).len()
            },
            (exists|m: EntryModel| record_at(d@, pos as int, limit as int, m)) ==> r is Some,
    {
        let ghost found = exists|m: EntryModel| record_at(d@, pos as int, limit as int, m);
        if limit - pos < 64 {
            proof {
                if found {
                    let m = choose|m: EntryModel| record_at(d@, pos as int, limit as int, m);
                    lemma_record_facts(d@, pos as int, limit as int, m);
                }
            }
            return None;
        }
        let start: usize = pos + 62;
        let mut q: usize = start;
        while q < limit && d[q] != 0
            invariant
                start == pos + 62,
                start <= q <= limit,
                limit <= d@.len(),
                forall|k: int| start <= k < q ==> d@[k] != 0u8,
            decreases limit - q,
        {
            q = q + 1;
        }
        let ghost m0 = if found {
            choose|m: EntryModel| record_at(d@, pos as int, limit as int, m)
        } else {
            arbitrary()
        };
        proof {
            if found {
                lemma_first_nul(d@, pos as int, limit as int, m0, q as int);
                lemma_record_facts(d@, pos as int, limit as int, m0);
            }
        }
        if q == limit || q - start > MAX_RECORD_PATH {
            return None;
        }
        let pad: usize = 8 - (q - pos) % 8;
        if limit - q < pad {
            return None;
        }
        let next: usize = q + pad;
        let mut k: usize = q;
        proof {
            if found {
                assert(next == pos + padded_len(62 + path_key(m0).len()));
            }
        }
        while k < next
            invariant
                found == exists|m: EntryModel| record_at(d@, pos as int, limit as int, m),
                found ==> forall|j: int| q <= j < next ==> d@[j] == 0u8,
                q <= k <= next,
                next <= limit,
                limit <= d@.len(),
                forall|j: int| q <= j < k ==> d@[j] == 0u8,
            decreases next - k,
        {
            if d[k] != 0 {
                return None;
            }
            k = k + 1;
        }
        let path_bytes = copy_range(d, start, q);
        let path = match utf8_string(path_bytes.as_slice()) {
            Some(s) => s,
            None => {
                proof {
                    if found {
                        encode_utf8_valid_utf8(m0.path);
                    }
                }
                return None;
            },
        };
        let oid = copy_range(d, pos + 40, pos + 60);
        let e = EntryAdd {
            ctime: get_be32(d, pos),
            ctime_nsec: get_be32(d, pos + 4),
            mtime: get_be32(d, pos + 8),
            mtime_nsec: get_be32(d, pos + 12),
            dev: get_be32(d, pos + 16),
            ino: get_be32(d, pos + 20),
            mode: get_be32(d, pos + 24),
            uid: get_be32(d, pos + 28),
            gid: get_be32(d, pos + 32),
            size: get_be32(d, pos + 36),
            oid,
            flags: get_be16(d, pos + 60),
            path,
        };
        proof {
            lemma_parsed(d@, pos as int, limit as int, q as int, next as int, e@);
        }
        Some((e, next))
    }
}

/// `a` names a directory that holds `p`.
pub open spec fn is_ancestor(a: Seq<u8>, p: Seq<u8>) -> bool {
    &&& a.len() < p.len()
    &&& p.subrange(0, a.len() as int) == a
    &&& p[a.len() as int] == 47u8
}

/// Two tracked paths cannot stand together: one is a directory of the other.
pub open spec fn conflicts(k: Seq<u8>, p: Seq<u8>) -> bool {
    is_ancestor(k, p) || is_ancestor(p, k)
}

/// Tells whether `a` names a directory that holds `p`.
pub fn is_ancestor_path(a: &[u8], p: &[u8]) -> (r: bool)
    ensures
        r == is_ancestor(a@, p@),
{
    if a.len() >= p.len() {
        return false;
    }
    occurs_at_exec(p, a, 0) && p[a.len()] == 47u8
}

/// Entries in strictly increasing order of their paths' bytes.
pub open spec fn sorted_by_path(s: Seq<EntryModel>) -> bool {
    forall|i: int, j: int| 0 <= i < j < s.len() ==> lex_lt(path_key(s[i]), path_key(s[j]))
}

/// The order of paths as a key function.
pub open spec fn path_order() -> spec_fn(EntryModel) -> Seq<u8> {
    |m: EntryModel| path_key(m)
}

/// Two indexes in path order that hold the same entries are equal.
pub proof fn lemma_sorted_entries_equal(x: Seq<EntryModel>, y: Seq<EntryModel>)
    requires
        sorted_by_path(x),
        sorted_by_path(y),
        forall|m: EntryModel| x.contains(m) <==> y.contains(m),
    ensures
        x == y,
{
    assert(strictly_sorted_by(x, path_order()));
    assert(strictly_sorted_by(y, path_order()));
    lemma_sorted_same_elements(x, y, path_order());
}

/// The entry that `add` makes of a path, its object id and its metadata.
pub open spec fn created(path: Seq<char>, oid: Seq<u8>, stat: FileStat) -> EntryModel {
    EntryModel {
        ctime: stat.ctime,
        ctime_nsec: stat.ctime_nsec,
        mtime: stat.mtime,
        mtime_nsec: stat.mtime_nsec,
        dev: stat.dev,
        ino: stat.ino,
        mode: tracked_mode(stat.mode),
        uid: stat.uid,
        gid: stat.gid,
        size: stat.size,
        oid: oid,
        flags: if encode_utf8(path).len() < MAX_PATH_SIZE as nat {
            encode_utf8(path).len() as u16
        } else {
            MAX_PATH_SIZE
        },
        path: path,
    }
}

/// `m` with its cached metadata taken from `stat`.
pub open spec fn with_stat(m: EntryModel, stat: FileStat) -> EntryModel {
    EntryModel { oid: m.oid, flags: m.flags, path: m.path, ..created(m.path, m.oid, stat) }
}

/// A path that an index entry can hold.
pub open spec fn valid_entry_path(path: Seq<char>) -> bool {
    &&& !encode_utf8(path).contains(0u8)
    &&& encode_utf8(path).len() <= MAX_RECORD_PATH
}

/// The entry stays when `p` is added: it is not `p` itself, nor a directory
/// of `p`, nor inside `p`.
pub open spec fn survives_add(m: EntryModel, p: Seq<u8>) -> bool {
    !conflicts(path_key(m), p) && path_key(m) != p
}

/// The signature that opens an index file.
pub open spec fn signature() -> Seq<u8> {
    seq![68u8, 73u8, 82u8, 67u8]
}

/// The 12-byte header of an index file: signature, version 2, entry count.
pub open spec fn index_header(count: u32) -> Seq<u8> {
    signature() + be32(2) + be32(count)
}

/// The records of a sequence of entries, one after the other.
pub open spec fn records(s: Seq<EntryModel>) -> Seq<u8>
    decreases s.len(),
{
    if s.len() == 0 {
        Seq::empty()
    } else {
        records(s.drop_last()) + entry_record(s.last())
    }
}

/// Everything an index file holds before its checksum.
pub open spec fn index_body(s: Seq<EntryModel>) -> Seq<u8> {
    index_header(s.len() as u32) + records(s)
}

/// The index file of a sequence of entries: body and SHA-1 of the body.
pub open spec fn index_file(s: Seq<EntryModel>) -> Seq<u8> {
    index_body(s) + sha1_of(index_body(s))
}

/// The last 20 bytes are the SHA-1 digest of the ones before.
pub open spec fn checksum_ok(d: Seq<u8>) -> bool {
    &&& d.len() >= 20
    &&& sha1_of(d.subrange(0, d.len() - 20)) == d.subrange(d.len() - 20, d.len() as int)
}

/// `d` is a well-formed index file whose entries, in file order, are `es`.
pub open spec fn parsed_as(d: Seq<u8>, es: Seq<EntryModel>) -> bool {
    &&& d.len() >= 32
    &&& checksum_ok(d)
    &&& d.subrange(0, 4) == signature()
    &&& read_be32(d, 4) == 2
    &&& es.len() == read_be32(d, 8)
    &&& d.subrange(12, d.len() - 20) == records(es)
    &&& forall|k: int| 0 <= k < es.len() ==> model_wf(#[trigger] es[k])
}

/// Some entry of `v` has the path `key`.
pub open spec fn has_path(v: Seq<EntryModel>, key: Seq<u8>) -> bool {
    exists|j: int| 0 <= j < v.len() && path_key(v[j]) == key
}

/// `v` holds, for each path of `es`, one entry of `es` with that path, and
/// nothing else.
pub open spec fn holds_latest(v: Seq<EntryModel>, es: Seq<EntryModel>) -> bool {
    &&& forall|m: EntryModel| v.contains(m) ==> es.contains(m)
    &&& forall|k: int| 0 <= k < es.len() ==> has_path(v, path_key(#[trigger] es[k]))
}

/// `d` is the index file of `es`, with a 20-byte checksum.
pub open spec fn written_file(d: Seq<u8>, es: Seq<EntryModel>) -> bool {
    &&& d == index_file(es)
    &&& sha1_of(index_body(es)).len() == 20
}

/// `es` is what an index in a valid state writes.
pub open spec fn writable(es: Seq<EntryModel>) -> bool {
    &&& sorted_by_path(es)
    &&& forall|k: int| 0 <= k < es.len() ==> model_wf(#[trigger] es[k])
    &&& es.len() <= u32::MAX
}

proof fn lemma_records_step(s: Seq<EntryModel>, i: int)
    requires
        0 <= i < s.len(),
    ensures
        records(s.take(i + 1)) == records(s.take(i)) + entry_record(s[i]),
{
    assert(s.take(i + 1).drop_last() =~= s.take(i));
}

proof fn lemma_records_prefix(s: Seq<EntryModel>, j: int)
    requires
        0 <= j <= s.len(),
    ensures
        records(s.take(j)).len() <= records(s).len(),
        records(s).subrange(0, records(s.take(j)).len() as int) == records(s.take(j)),
    decreases s.len(),
{
    if j == s.len() {
        assert(s.take(j) =~= s);
        assert(records(s).subrange(0, records(s).len() as int) =~= records(s));
    } else {
        let t = s.drop_last();
        lemma_records_prefix(t, j);
        assert(t.take(j) =~= s.take(j));
        let a = records(t);
        let b = records(s.take(j));
        assert(records(s) == a + entry_record(s.last()));
        assert((a + entry_record(s.last())).subrange(0, b.len() as int) =~= a.subrange(0, b.len() as int));
    }
}

/// The record of entry `i` of `es` stands right after the records before it.
proof fn lemma_record_in_records(d: Seq<u8>, es: Seq<EntryModel>, i: int)
    requires
        parsed_as(d, es),
        0 <= i < es.len(),
    ensures
        record_at(d, 12 + records(es.take(i)).len() as int, d.len() - 20, es[i]),
        12 + records(es.take(i + 1)).len() == 12 + records(es.take(i)).len() + entry_record(es[i]).len(),
{
    lemma_records_step(es, i);
    lemma_records_prefix(es, i + 1);
    let pos: int = 12 + records(es.take(i)).len() as int;
    let r = entry_record(es[i]);
    let all = records(es);
    let pre = records(es.take(i + 1));
    assert(d.subrange(12, d.len() - 20) == all);
    assert forall|k: int| 0 <= k < r.len() implies d.subrange(pos, pos + r.len())[k] == r[k] by {
        assert(pre[pos - 12 + k] == r[k]);
        assert(all[pos - 12 + k] == pre[pos - 12 + k]);
        assert(d[pos + k] == all[pos - 12 + k]);
    }
    assert(d.subrange(pos, pos + r.len()) =~= r);
}

/// An index file written from `es` reads back as `es`: its checksum,
/// signature, version and count hold, and its records are those of `es`.
#[verifier::rlimit(40)]
pub proof fn lemma_written_parses(d: Seq<u8>, es: Seq<EntryModel>)
    requires
        writable(es),
        written_file(d, es),
    ensures
        parsed_as(d, es),
{
    let b = index_body(es);
    assert(d.subrange(0, d.len() - 20) =~= b);
    assert(d.subrange(d.len() - 20, d.len() as int) =~= sha1_of(b));
    assert(d.subrange(0, 4) =~= signature());
    assert(d.subrange(4, 8) =~= be32(2));
    assert(d.subrange(8, 12) =~= be32(es.len() as u32));
    lemma_be32_read(2);
    lemma_be32_read(es.len() as u32);
    assert(read_be32(d, 4) == read_be32(be32(2), 0));
    assert(read_be32(d, 8) == read_be32(be32(es.len() as u32), 0));
    assert(d.subrange(12, d.len() - 20) =~= records(es));
}

/// The entry read at step `i` of `Index::load` is entry `i` of every
/// reading of the file.
proof fn lemma_load_prefix(
    d: Seq<u8>,
    pos: int,
    body_end: int,
    i: int,
    parsed: Seq<EntryModel>,
    em: EntryModel,
)
    requires
        body_end == d.len() - 20,
        12 <= pos <= body_end,
        i < read_be32(d, 8),
        parsed.len() == i,
        record_at(d, pos, body_end, em),
        d.subrange(12, pos) == records(parsed),
        forall|es: Seq<EntryModel>| parsed_as(d, es) ==> parsed == es.take(i),
    ensures
        forall|es: Seq<EntryModel>| parsed_as(d, es) ==> parsed.push(em) == es.take(i + 1),
{
    assert forall|es: Seq<EntryModel>| parsed_as(d, es) implies parsed.push(em) == es.take(i + 1) by {
        lemma_record_in_records(d, es, i);
        assert(d.subrange(12, pos).len() == pos - 12);
        lemma_record_unique(d, pos, body_end, em, es[i]);
        assert(es.take(i + 1) =~= es.take(i).push(es[i]));
    }
}

/// Storing the entry read at step `i` into an index that holds the first
/// `i` entries of a sorted reading gives the first `i + 1`.
#[verifier::rlimit(40)]
proof fn lemma_load_sorted(
    d: Seq<u8>,
    i: int,
    parsed: Seq<EntryModel>,
    em: EntryModel,
    old_self: Seq<EntryModel>,
    new_self: Seq<EntryModel>,
)
    requires
        parsed.len() == i,
        0 <= i < read_be32(d, 8),
        sorted_by_path(new_self),
        forall|es: Seq<EntryModel>| parsed_as(d, es) ==> parsed.push(em) == es.take(i + 1),
        forall|es: Seq<EntryModel>| writable(es) && parsed_as(d, es) ==> old_self == es.take(i),
        forall|m: EntryModel| #[trigger] new_self.contains(m) <==> (m == em || (old_self.contains(m) && path_key(m)
            != path_key(em))),
    ensures
        forall|es: Seq<EntryModel>| writable(es) && parsed_as(d, es) ==> new_self == es.take(i + 1),
{
    assert forall|es: Seq<EntryModel>| writable(es) && parsed_as(d, es) implies new_self == es.take(i + 1) by {
        let t = es.take(i + 1);
        assert(parsed.push(em) == t);
        assert(t[i] == em);
        assert(old_self == es.take(i));
        assert forall|a: int, b: int| 0 <= a < b < t.len() implies lex_lt(path_key(t[a]), path_key(t[b])) by {
            assert(t[a] == es[a] && t[b] == es[b]);
        }
        assert forall|m: EntryModel| new_self.contains(m) <==> t.contains(m) by {
            if old_self.contains(m) {
                let k = choose|k: int| 0 <= k < old_self.len() && old_self[k] == m;
                assert(t[k] == m);
                assert(lex_lt(path_key(t[k]), path_key(t[i])));
                lemma_lex_irreflexive(path_key(m));
                assert(t.contains(m));
            }
            if t.contains(m) && m != em {
                let k = choose|k: int| 0 <= k < t.len() && t[k] == m;
                assert(k != i);
                assert(old_self[k] == m);
                assert(old_self.contains(m));
                assert(lex_lt(path_key(t[k]), path_key(t[i])));
                lemma_lex_irreflexive(path_key(m));
            }
            if m == em {
                assert(t[i] == m);
            }
        }
        lemma_sorted_entries_equal(new_self, t);
    }
}

/// After step `i` of `Index::load` the index holds only entries read so
/// far, and one for each path read so far.
proof fn lemma_load_contents(
    parsed: Seq<EntryModel>,
    em: EntryModel,
    old_self: Seq<EntryModel>,
    new_self: Seq<EntryModel>,
)
    requires
        forall|m: EntryModel| old_self.contains(m) ==> parsed.contains(m),
        forall|k: int| 0 <= k < parsed.len() ==> has_path(old_self, path_key(#[trigger] parsed[k])),
        forall|m: EntryModel| #[trigger] new_self.contains(m) <==> (m == em || (old_self.contains(m) && path_key(m)
            != path_key(em))),
    ensures
        forall|m: EntryModel| new_self.contains(m) ==> parsed.push(em).contains(m),
        forall|k: int| 0 <= k < parsed.len() + 1 ==> has_path(new_self, path_key(#[trigger] parsed.push(em)[k])),
{
    let np = parsed.push(em);
    let i = parsed.len() as int;
    assert forall|m: EntryModel| new_self.contains(m) implies np.contains(m) by {
        if m == em {
            assert(np[i] == m);
        } else {
            let k = choose|k: int| 0 <= k < parsed.len() && parsed[k] == m;
            assert(np[k] == m);
        }
    }
    assert forall|k: int| 0 <= k < parsed.len() + 1 implies has_path(new_self, path_key(#[trigger] parsed.push(em)[k])) by {
        if k == i || path_key(np[k]) == path_key(em) {
            assert(new_self.contains(em));
            let j = choose|j: int| 0 <= j < new_self.len() && new_self[j] == em;
            assert(path_key(new_self[j]) == path_key(np[k]));
        } else {
            assert(np[k] == parsed[k]);
            let j = choose|j: int| 0 <= j < old_self.len() && path_key(old_self[j]) == path_key(parsed[k]);
            assert(old_self.contains(old_self[j]));
            assert(new_self.contains(old_self[j]));
            let j2 = choose|j2: int| 0 <= j2 < new_self.len() && new_self[j2] == old_self[j];
            assert(path_key(new_self[j2]) == path_key(np[k]));
        }
    }
}

/// The bytes read so far are the records of the entries read so far.
proof fn lemma_load_bytes(d: Seq<u8>, pos: int, body_end: int, parsed: Seq<EntryModel>, em: EntryModel, next: int)
    requires
        12 <= pos,
        d.subrange(12, pos) == records(parsed),
        forall|k: int| 0 <= k < parsed.len() ==> model_wf(#[trigger] parsed[k]),
        model_wf(em),
        record_at(d, pos, body_end, em),
        next == pos + entry_record(em).len(),
    ensures
        d.subrange(12, next) == records(parsed.push(em)),
        forall|k: int| 0 <= k < parsed.len() + 1 ==> model_wf(#[trigger] parsed.push(em)[k]),
{
    let np = parsed.push(em);
    assert(np.drop_last() =~= parsed);
    assert(d.subrange(pos, next) == entry_record(em));
    assert(d.subrange(12, next) =~= d.subrange(12, pos) + d.subrange(pos, next));
    assert forall|k: int| 0 <= k < np.len() implies model_wf(#[trigger] np[k]) by {
        if k < parsed.len() {
            assert(np[k] == parsed[k]);
        }
    }
}

/// Changing any one byte of a written index file breaks its checksum,
/// unless the changed body has the same SHA-1 digest as the written one.
pub proof fn lemma_corruption_detected(es: Seq<EntryModel>, k: int, b: u8)
    requires
        writable(es),
        sha1_of(index_body(es)).len() == 20,
        0 <= k < index_file(es).len(),
        b != index_file(es)[k],
    ensures
        ({
            let c = index_file(es).update(k, b);
            let body = c.subrange(0, c.len() - 20);
            &&& c.len() >= 32
            &&& !checksum_ok(c) || (body != index_body(es) && sha1_of(body) == sha1_of(index_body(es)))
        }),
{
    let d = index_file(es);
    let c = d.update(k, b);
    let n = d.len();
    let body = index_body(es);
    assert(body.len() >= 12);
    let cb = c.subrange(0, n - 20);
    let ct = c.subrange(n - 20, n as int);
    if k < n - 20 {
        assert(cb[k] == b);
        assert(body[k] == d[k]);
        assert(ct =~= sha1_of(body));
    } else {
        assert(cb =~= body);
        assert(ct[k - (n - 20)] == b);
        assert(sha1_of(body)[k - (n - 20)] == d[k]);
    }
}

/// Adding a path and then a path that conflicts with it (one is a directory
/// of the other) leaves the second tracked and the first gone: starting
/// from any index, what remains besides the second entry is what survives
/// both adds; starting from an empty index, only the second entry.
pub proof fn lemma_conflicting_adds(
    v0: Seq<EntryModel>,
    v1: Seq<EntryModel>,
    v2: Seq<EntryModel>,
    first: EntryModel,
    second: EntryModel,
)
    requires
        conflicts(path_key(first), path_key(second)),
        forall|m: EntryModel| #[trigger] v1.contains(m) <==> (m == first || (v0.contains(m) && survives_add(m, path_key(first)))),
        forall|m: EntryModel| #[trigger] v2.contains(m) <==> (m == second || (v1.contains(m) && survives_add(m, path_key(second)))),
    ensures
        v2.contains(second),
        forall|m: EntryModel| v2.contains(m) ==> path_key(m) != path_key(first) || m == second,
        forall|m: EntryModel| #[trigger] v2.contains(m) ==> m == second || (v0.contains(m) && survives_add(m, path_key(first))
            && survives_add(m, path_key(second))),
        v0.len() == 0 ==> forall|m: EntryModel| #[trigger] v2.contains(m) <==> m == second,
{
    let ka = path_key(first);
    let kb = path_key(second);
    if is_ancestor(ka, kb) {
        assert(ka != kb);
    } else {
        assert(ka != kb);
    }
    assert(!survives_add(first, kb));
}

/// The staging index: the tracked paths with their object ids and cached
/// metadata, kept in path order with one entry per path.
pub struct Index {
    pathname: String,
    entries: Vec<EntryAdd>,
    changed: bool,
}

impl View for Index {
    type V = Seq<EntryModel>;

    closed spec fn view(&self) -> Seq<EntryModel> {
        self.entries@.map_values(|e: EntryAdd| e@)
    }
}

impl Index {
    /// Entries in path order, each writable to the index file.
    pub open spec fn wf(&self) -> bool {
        &&& sorted_by_path(self@)
        &&& forall|i: int| 0 <= i < self@.len() ==> model_wf(#[trigger] self@[i])
    }

    /// Where the index file lives.
    pub closed spec fn location(&self) -> Seq<char> {
        self.pathname@
    }

    /// Where the index file lives.
    pub fn pathname(&self) -> (r: &String)
        ensures
            r@ == self.location(),
    {
        &self.pathname
    }

    /// The index has changes that are not on disk yet.
    pub closed spec fn is_dirty(&self) -> bool {
        self.changed
    }

    /// An empty index for the file at `pathname`.
    pub fn new(pathname: &String) -> (r: Index)
        ensures
            r.wf(),
            r@ == Seq::<EntryModel>::empty(),
            r.location() == pathname@,
            !r.is_dirty(),
    {
        let r = Index { pathname: pathname.clone(), entries: Vec::new(), changed: false };
        assert(r@ =~= Seq::<EntryModel>::empty());
        r
    }

    /// Forgets every entry.
    pub fn clear(&mut self)
        ensures
            final(self).wf(),
            final(self)@ == Seq::<EntryModel>::empty(),
            final(self).location() == old(self).location(),
            !final(self).is_dirty(),
    {
        self.entries = Vec::new();
        self.changed = false;
        assert(self@ =~= Seq::<EntryModel>::empty());
    }

    /// Tells whether there are changes to write.
    pub fn is_changed(&self) -> (r: bool)
        ensures
            r == self.is_dirty(),
    {
        self.changed
    }

    /// The entries, in path order.
    pub fn each_entry(&self) -> (r: &Vec<EntryAdd>)
        ensures
            r@.map_values(|e: EntryAdd| e@) == self@,
    {
        &self.entries
    }

    #[verifier::rlimit(60)]
    /// Inserts `entry`, replacing the entry of the same path if there is one.
    pub fn store_entry(&mut self, entry: EntryAdd)
        requires
            old(self).wf(),
            entry.wf(),
        ensures
            final(self).wf(),
            final(self).location() == old(self).location(),
            final(self).is_dirty() == old(self).is_dirty(),
            forall|m: EntryModel| #[trigger] final(self)@.contains(m) <==> (m == entry@ || (old(self)@.contains(m)
                && path_key(m) != path_key(entry@))),
    {
        let ghost old_v = self@;
        let ghost key = path_key(entry@);
        let mut i: usize = 0;
        while i < self.entries.len() && bytes_lt(self.entries[i].path.as_str().as_bytes(), entry.path.as_str().as_bytes())
            invariant
                self@ == old_v,
                key == path_key(entry@),
                i <= self@.len(),
                forall|k: int| 0 <= k < i ==> lex_lt(path_key(#[trigger] self@[k]), key),
            decreases self@.len() - i,
        {
            assert(self.entries@[i as int]@ == self@[i as int]);
            i = i + 1;
        }
        proof {
            if i < self@.len() {
                assert(self.entries@[i as int]@ == self@[i as int]);
                lemma_lex_total(path_key(self@[i as int]), key);
            }
        }
        let replace = i < self.entries.len() && bytes_eq(self.entries[i].path.as_str().as_bytes(), entry.path.as_str().as_bytes());
        proof {
            if i < self@.len() {
                assert(self.entries@[i as int]@ == self@[i as int]);
                assert(replace == (path_key(old_v[i as int]) == key));
                assert(!lex_lt(path_key(old_v[i as int]), key));
            }
        }
        if replace {
            self.entries.remove(i);
        }
        let ghost mid = self@;
        proof {
            if replace {
                assert(mid =~= old_v.remove(i as int));
            } else {
                assert(mid =~= old_v);
            }
        }
        self.entries.insert(i, entry);
        proof {
            let n = self@;
            assert(n =~= mid.insert(i as int, entry@));
            // entries after position i are greater than the new key
            assert forall|k: int| i <= k < mid.len() implies lex_lt(key, path_key(#[trigger] mid[k])) by {
                let ko = if replace { k + 1 } else { k };
                assert(mid[k] == old_v[ko]);
                if replace {
                    assert(path_key(old_v[i as int]) == key);
                    assert(lex_lt(path_key(old_v[i as int]), path_key(old_v[ko])));
                } else {
                    assert(path_key(old_v[i as int]) != key);
                    lemma_lex_total(path_key(old_v[i as int]), key);
                    if ko > i {
                        lemma_lex_transitive(key, path_key(old_v[i as int]), path_key(old_v[ko]));
                    }
                }
            }
            assert forall|a: int, b: int| 0 <= a < b < n.len() implies lex_lt(path_key(n[a]), path_key(n[b])) by {
                if a < i && b == i {
                } else if a == i {
                } else if a < i && b > i {
                    lemma_lex_transitive(path_key(n[a]), key, path_key(n[b]));
                } else {
                    let ao = if a < i { a } else { a - 1 };
                    let bo = b - 1;
                    let ao2 = if replace && ao >= i { ao + 1 } else { ao };
                    let bo2 = if replace && bo >= i { bo + 1 } else { bo };
                    assert(mid[ao] == old_v[ao2]);
                    assert(mid[bo] == old_v[bo2]);
                }
            }
            assert forall|k: int| 0 <= k < n.len() implies model_wf(#[trigger] n[k]) by {
                if k != i {
                    let ko = if k < i { k } else { k - 1 };
                    let ko2 = if replace && ko >= i { ko + 1 } else { ko };
                    assert(mid[ko] == old_v[ko2]);
                }
            }
            assert forall|m: EntryModel| n.contains(m) && m != entry@ implies old_v.contains(m) && path_key(m) != key by {
                let k = choose|k: int| 0 <= k < n.len() && n[k] == m;
                assert(k != i);
                let ko = if k < i { k } else { k - 1 };
                let ko2 = if replace && ko >= i { ko + 1 } else { ko };
                assert(mid[ko] == old_v[ko2]);
                assert(old_v[ko2] == m);
                if k > i {
                    assert(lex_lt(key, path_key(mid[ko])));
                    lemma_lex_irreflexive(key);
                } else {
                    assert(lex_lt(path_key(self@[k]), key));
                    lemma_lex_irreflexive(key);
                }
            }
            assert forall|m: EntryModel| old_v.contains(m) && path_key(m) != key implies n.contains(m) by {
                let k = choose|k: int| 0 <= k < old_v.len() && old_v[k] == m;
                if replace && k == i {
                    assert(false);
                } else {
                    let km = if replace && k > i { k - 1 } else { k };
                    assert(mid[km] == m);
                    let kn = if km < i { km } else { km + 1 };
                    assert(n[kn] == m);
                }
            }
            assert(n[i as int] == entry@);
            assert(n.contains(entry@));
        }
    }

    /// Removes every entry that cannot stay beside `entry`: the entry's own
    /// path, the directories above it, and the paths beneath it.
    pub fn discard_conflicts(&mut self, entry: &EntryAdd)
        requires
            old(self).wf(),
        ensures
            final(self).wf(),
            final(self).location() == old(self).location(),
            final(self).is_dirty() == old(self).is_dirty(),
            forall|m: EntryModel| #[trigger] final(self)@.contains(m) <==> (old(self)@.contains(m)
                && survives_add(m, path_key(entry@))),
    {
        let ghost old_v = self@;
        let ghost p = path_key(entry@);
        let mut i: usize = 0;
        while i < self.entries.len()
            invariant
                p == path_key(entry@),
                self.wf(),
                self.location() == old(self).location(),
                self.is_dirty() == old(self).is_dirty(),
                i <= self@.len(),
                forall|m: EntryModel| self@.contains(m) ==> old_v.contains(m),
                forall|k: int| 0 <= k < i ==> survives_add(#[trigger] self@[k], p),
                forall|m: EntryModel| old_v.contains(m) && survives_add(m, p) ==> self@.contains(m),
            decreases self@.len() - i,
        {
            let ghost cur = self@;
            assert(self.entries@[i as int]@ == cur[i as int]);
            let k = self.entries[i].path.as_str().as_bytes();
            let q = entry.path.as_str().as_bytes();
            if is_ancestor_path(k, q) || is_ancestor_path(q, k) || bytes_eq(k, q) {
                self.entries.remove(i);
                proof {
                    let n = self@;
                    assert(n =~= cur.remove(i as int));
                    assert forall|a: int, b: int| 0 <= a < b < n.len() implies lex_lt(path_key(n[a]), path_key(n[b])) by {
                        let a2 = if a < i { a } else { a + 1 };
                        let b2 = if b < i { b } else { b + 1 };
                        assert(n[a] == cur[a2] && n[b] == cur[b2]);
                    }
                    assert forall|k2: int| 0 <= k2 < n.len() implies model_wf(#[trigger] n[k2]) by {
                        let a2 = if k2 < i { k2 } else { k2 + 1 };
                        assert(n[k2] == cur[a2]);
                    }
                    assert forall|m: EntryModel| n.contains(m) implies old_v.contains(m) by {
                        let k2 = choose|k2: int| 0 <= k2 < n.len() && n[k2] == m;
                        let a2 = if k2 < i { k2 } else { k2 + 1 };
                        assert(cur[a2] == m);
                    }
                    assert forall|m: EntryModel| old_v.contains(m) && survives_add(m, p) implies n.contains(m) by {
                        assert(cur.contains(m));
                        let k2 = choose|k2: int| 0 <= k2 < cur.len() && cur[k2] == m;
                        assert(k2 != i);
                        let a2 = if k2 < i { k2 } else { k2 - 1 };
                        assert(n[a2] == m);
                    }
                }
            } else {
                i = i + 1;
            }
        }
    }

    /// Tracks `pathname` with object id `oid` and metadata `stat`, after
    /// discarding the entries that conflict with it.
    pub fn add(&mut self, pathname: String, oid: Vec<u8>, stat: FileStat)
        requires
            old(self).wf(),
            oid@.len() == 20,
            valid_entry_path(pathname@),
        ensures
            final(self).wf(),
            final(self).location() == old(self).location(),
            final(self).is_dirty(),
            forall|m: EntryModel| #[trigger] final(self)@.contains(m) <==> (m == created(pathname@, oid@, stat)
                || (old(self)@.contains(m) && survives_add(m, encode_utf8(pathname@)))),
            crate::builder::comps_free(old(self)@) ==> crate::builder::comps_free(final(self)@),
    {
        let entry = EntryAdd::create(pathname, oid, stat);
        self.discard_conflicts(&entry);
        self.store_entry(entry);
        self.changed = true;
        proof {
            if crate::builder::comps_free(old(self)@) {
                crate::builder::lemma_add_keeps_free(old(self)@, self@, entry@);
            }
        }
    }

    /// Tells whether `path` occurs, as text, in the path of some entry.
    pub fn is_tracked(&self, path: &str) -> (r: bool)
        ensures
            r == exists|i: int| 0 <= i < self@.len() && contains_bytes(path_key(#[trigger] self@[i]), encode_utf8(path@)),
    {
        self.is_tracked_bytes(path.as_bytes())
    }

    /// Tells whether the bytes `q` occur in the path of some entry.
    pub fn is_tracked_bytes(&self, q: &[u8]) -> (r: bool)
        ensures
            r == exists|i: int| 0 <= i < self@.len() && contains_bytes(path_key(#[trigger] self@[i]), q@),
    {
        let mut i: usize = 0;
        while i < self.entries.len()
            invariant
                i <= self@.len(),
                forall|k: int| 0 <= k < i ==> !contains_bytes(path_key(#[trigger] self@[k]), q@),
            decreases self@.len() - i,
        {
            assert(self.entries@[i as int]@ == self@[i as int]);
            if contains_slice(self.entries[i].path.as_str().as_bytes(), q) {
                return true;
            }
            i = i + 1;
        }
        false
    }

    /// Tells whether some entry has exactly the path `path`.
    pub fn is_tracked_file(&self, path: &str) -> (r: bool)
        ensures
            r == exists|i: int| 0 <= i < self@.len() && path_key(#[trigger] self@[i]) == encode_utf8(path@),
    {
        let q = path.as_bytes();
        let mut i: usize = 0;
        while i < self.entries.len()
            invariant
                q@ == encode_utf8(path@),
                i <= self@.len(),
                forall|k: int| 0 <= k < i ==> path_key(#[trigger] self@[k]) != q@,
            decreases self@.len() - i,
        {
            assert(self.entries@[i as int]@ == self@[i as int]);
            if bytes_eq(self.entries[i].path.as_str().as_bytes(), q) {
                return true;
            }
            i = i + 1;
        }
        false
    }

    /// Refreshes the cached metadata of the entry at `path` from `stat`,
    /// keeping its object id, and marks the index for writing.
    pub fn update_entry_stat(&mut self, path: &str, stat: FileStat)
        requires
            old(self).wf(),
        ensures
            final(self).wf(),
            final(self).location() == old(self).location(),
            final(self)@.len() == old(self)@.len(),
            forall|k: int| 0 <= k < old(self)@.len() ==> #[trigger] final(self)@[k] == if path_key(old(self)@[k])
                == encode_utf8(path@) {
                with_stat(old(self)@[k], stat)
            } else {
                old(self)@[k]
            },
            final(self).is_dirty() == (old(self).is_dirty() || exists|k: int| 0 <= k < old(self)@.len()
                && path_key(#[trigger] old(self)@[k]) == encode_utf8(path@)),
    {
        let ghost old_v = self@;
        let q = path.as_bytes();
        let mut i: usize = 0;
        while i < self.entries.len()
            invariant
                q@ == encode_utf8(path@),
                self@ == old_v,
                old_v == old(self)@,
                old(self).wf(),
                self.changed == old(self).changed,
                self.pathname == old(self).pathname,
                i <= self@.len(),
                forall|k: int| 0 <= k < i ==> path_key(#[trigger] self@[k]) != q@,
            decreases self@.len() - i,
        {
            assert(self.entries@[i as int]@ == self@[i as int]);
            if bytes_eq(self.entries[i].path.as_str().as_bytes(), q) {
                let mut e = self.entries.remove(i);
                e.ctime = stat.ctime;
                e.ctime_nsec = stat.ctime_nsec;
                e.mtime = stat.mtime;
                e.mtime_nsec = stat.mtime_nsec;
                e.dev = stat.dev;
                e.ino = stat.ino;
                e.mode = get_mode(stat.mode);
                e.uid = stat.uid;
                e.gid = stat.gid;
                e.size = stat.size;
                self.entries.insert(i, e);
                self.changed = true;
                proof {
                    let n = self@;
                    assert(n =~= old_v.update(i as int, with_stat(old_v[i as int], stat)));
                    assert forall|a: int, b: int| 0 <= a < b < n.len() implies lex_lt(path_key(n[a]), path_key(n[b])) by {
                        assert(path_key(n[a]) == path_key(old_v[a]));
                        assert(path_key(n[b]) == path_key(old_v[b]));
                    }
                    assert forall|k: int| 0 <= k < n.len() implies model_wf(#[trigger] n[k]) by {
                        assert(path_key(n[k]) == path_key(old_v[k]));
                    }
                    assert forall|k: int| 0 <= k < old_v.len() && k != i implies path_key(#[trigger] old_v[k]) != q@ by {
                        if k > i {
                            assert(lex_lt(path_key(old_v[i as int]), path_key(old_v[k])));
                            lemma_lex_irreflexive(q@);
                        }
                    }
                }
                return;
            }
            i = i + 1;
        }
    }

    /// The index file of the current entries: header, records in path
    /// order, and the SHA-1 checksum of all of it.
    pub fn write_updates(&self) -> (r: Vec<u8>)
        requires
            self.wf(),
        ensures
            written_file(r@, self@),
    {
        let mut data: Vec<u8> = vec![68u8, 73u8, 82u8, 67u8];
        push_be32(&mut data, 2);
        push_be32(&mut data, self.entries.len() as u32);
        let mut i: usize = 0;
        assert(data@ =~= index_header(self@.len() as u32) + records(self@.take(0)));
        while i < self.entries.len()
            invariant
                self.wf(),
                i <= self@.len(),
                data@ == index_header(self@.len() as u32) + records(self@.take(i as int)),
            decreases self@.len() - i,
        {
            assert(self.entries@[i as int]@ == self@[i as int]);
            let rec = self.entries[i].get_data();
            push_all(&mut data, rec.as_slice());
            assert(self@.take(i + 1).drop_last() =~= self@.take(i as int));
            assert(data@ =~= index_header(self@.len() as u32) + records(self@.take(i + 1)));
            i = i + 1;
        }
        assert(self@.take(self@.len() as int) =~= self@);
        let digest = sha1(data.as_slice());
        push_all(&mut data, digest.as_slice());
        data
    }

    /// Replaces the entries with those of the index file `data`. The
    /// checksum is verified first, then the signature, the version and the
    /// records; on any failure the index is left empty.
    #[verifier::rlimit(80)]
    pub fn load(&mut self, data: &[u8]) -> (r: Result<(), Error>)
        ensures
            final(self).wf(),
            final(self).location() == old(self).location(),
            !final(self).is_dirty(),
            data@.len() < 32 ==> r == Err::<(), Error>(Error::IndexTruncated),
            data@.len() >= 32 && !checksum_ok(data@) ==> r == Err::<(), Error>(Error::ChecksumMismatch),
            data@.len() >= 32 && checksum_ok(data@) && data@.subrange(0, 4) != signature() ==> r == Err::<(), Error>(
                Error::BadSignature,
            ),
            data@.len() >= 32 && checksum_ok(data@) && data@.subrange(0, 4) == signature() && read_be32(data@, 4)
                != 2 ==> r == Err::<(), Error>(Error::BadVersion),
            r is Err ==> final(self)@ == Seq::<EntryModel>::empty(),
            r is Err ==> r == Err::<(), Error>(Error::IndexTruncated) || r == Err::<(), Error>(Error::ChecksumMismatch)
                || r == Err::<(), Error>(Error::BadSignature) || r == Err::<(), Error>(Error::BadVersion)
                || r == Err::<(), Error>(Error::MalformedIndex),
            r is Ok ==> exists|es: Seq<EntryModel>| parsed_as(data@, es) && holds_latest(final(self)@, es),
            (exists|es: Seq<EntryModel>| parsed_as(data@, es)) ==> r is Ok,
            forall|es: Seq<EntryModel>| writable(es) && written_file(data@, es) ==> r is Ok && final(self)@ == es,
    {
        self.clear();
        proof {
            assert forall|es: Seq<EntryModel>| writable(es) && written_file(data@, es) implies parsed_as(data@, es) by {
                lemma_written_parses(data@, es);
            }
        }
        let n = data.len();
        if n < 32 {
            return Err(Error::IndexTruncated);
        }
        let body_end: usize = n - 20;
        let body = copy_range(data, 0, body_end);
        let digest = sha1(body.as_slice());
        if !occurs_at_exec(data, digest.as_slice(), body_end) {
            proof {
                assert(!(data@.subrange(body_end as int, n as int) == digest@));
            }
            return Err(Error::ChecksumMismatch);
        }
        proof {
            assert(checksum_ok(data@));
        }
        if !(data[0] == 68u8 && data[1] == 73u8 && data[2] == 82u8 && data[3] == 67u8) {
            proof {
                if data@.subrange(0, 4) == signature() {
                    assert(data@[0] == data@.subrange(0, 4)[0]);
                    assert(data@[1] == data@.subrange(0, 4)[1]);
                    assert(data@[2] == data@.subrange(0, 4)[2]);
                    assert(data@[3] == data@.subrange(0, 4)[3]);
                }
            }
            return Err(Error::BadSignature);
        }
        proof {
            assert(data@.subrange(0, 4) =~= signature());
        }
        if get_be32(data, 4) != 2 {
            return Err(Error::BadVersion);
        }
        let count = get_be32(data, 8);
        let mut pos: usize = 12;
        let mut i: u32 = 0;
        let ghost mut parsed: Seq<EntryModel> = Seq::empty();
        proof {
            assert(data@.subrange(12, 12) =~= records(parsed));
            assert forall|es: Seq<EntryModel>| parsed_as(data@, es) implies parsed == es.take(0) by {
                assert(es.take(0) =~= parsed);
            }
            assert(self@ =~= parsed);
        }
        while i < count
            invariant
                n == data@.len(),
                body_end == n - 20,
                n >= 32,
                checksum_ok(data@),
                data@.subrange(0, 4) == signature(),
                read_be32(data@, 4) == 2,
                count == read_be32(data@, 8),
                12 <= pos <= body_end,
                i <= count,
                parsed.len() == i,
                data@.subrange(12, pos as int) == records(parsed),
                forall|k: int| 0 <= k < parsed.len() ==> model_wf(#[trigger] parsed[k]),
                self.wf(),
                self.location() == old(self).location(),
                !self.is_dirty(),
                forall|m: EntryModel| self@.contains(m) ==> parsed.contains(m),
                forall|k: int| 0 <= k < parsed.len() ==> has_path(self@, path_key(#[trigger] parsed[k])),
                forall|es: Seq<EntryModel>| parsed_as(data@, es) ==> parsed == es.take(i as int),
                forall|es: Seq<EntryModel>| writable(es) && parsed_as(data@, es) ==> self@ == es.take(i as int),
                forall|es: Seq<EntryModel>| writable(es) && written_file(data@, es) ==> parsed_as(data@, es),
            decreases count - i,
        {
            let ghost any = exists|es: Seq<EntryModel>| parsed_as(data@, es);
            let ghost es0 = if any {
                choose|es: Seq<EntryModel>| parsed_as(data@, es)
            } else {
                arbitrary()
            };
            proof {
                if any {
                    lemma_record_in_records(data@, es0, i as int);
                    assert(es0.take(i as int) == parsed);
                    assert(data@.subrange(12, pos as int).len() == pos - 12);
                    assert(record_at(data@, pos as int, body_end as int, es0[i as int]));
                }
            }
            match EntryAdd::parse(data, pos, body_end) {
                None => {
                    self.clear();
                    return Err(Error::MalformedIndex);
                },
                Some((e, next)) => {
                    let ghost old_self = self@;
                    let ghost em = e@;
                    self.store_entry(e);
                    proof {
                        lemma_load_bytes(data@, pos as int, body_end as int, parsed, em, next as int);
                        lemma_load_prefix(data@, pos as int, body_end as int, i as int, parsed, em);
                        lemma_load_sorted(data@, i as int, parsed, em, old_self, self@);
                        assert(parsed.push(em).len() == i + 1);
                        lemma_load_contents(parsed, em, old_self, self@);
                        parsed = parsed.push(em);
                    }
                    pos = next;
                    i = i + 1;
                },
            }
        }
        if pos != body_end {
            proof {
                assert forall|es: Seq<EntryModel>| !parsed_as(data@, es) by {
                    if parsed_as(data@, es) {
                        assert(parsed == es.take(i as int));
                        assert(es.take(i as int) =~= es);
                    }
                }
            }
            self.clear();
            return Err(Error::MalformedIndex);
        }
        proof {
            assert(parsed_as(data@, parsed));
            assert forall|es: Seq<EntryModel>| writable(es) && written_file(data@, es) implies self@ == es by {
                lemma_written_parses(data@, es);
                assert(es.take(i as int) =~= es);
            }
        }
        Ok(())
    }


    /// Refreshes the cached metadata of entry `k` from `stat`, keeping its
    /// path and object id, and marks the index for writing.
    pub fn refresh_stat_at(&mut self, k: usize, stat: FileStat)
        requires
            old(self).wf(),
            k < old(self)@.len(),
        ensures
            final(self).wf(),
            final(self).location() == old(self).location(),
            final(self).is_dirty(),
            final(self)@ == old(self)@.update(k as int, with_stat(old(self)@[k as int], stat)),
    {
        let ghost old_v = self@;
        let mut e = self.entries.remove(k);
        e.ctime = stat.ctime;
        e.ctime_nsec = stat.ctime_nsec;
        e.mtime = stat.mtime;
        e.mtime_nsec = stat.mtime_nsec;
        e.dev = stat.dev;
        e.ino = stat.ino;
        e.mode = get_mode(stat.mode);
        e.uid = stat.uid;
        e.gid = stat.gid;
        e.size = stat.size;
        self.entries.insert(k, e);
        self.changed = true;
        proof {
            let n = self@;
            assert(n =~= old_v.update(k as int, with_stat(old_v[k as int], stat)));
            assert forall|a: int, b: int| 0 <= a < b < n.len() implies lex_lt(path_key(n[a]), path_key(n[b])) by {
                assert(path_key(n[a]) == path_key(old_v[a]));
                assert(path_key(n[b]) == path_key(old_v[b]));
            }
            assert forall|j: int| 0 <= j < n.len() implies model_wf(#[trigger] n[j]) by {
                assert(path_key(n[j]) == path_key(old_v[j]));
            }
        }
    }

    /// The entry at position `k`.
    pub fn entry_at(&self, k: usize) -> (r: &EntryAdd)
        requires
            k < self@.len(),
        ensures
            r@ == self@[k as int],
    {
        &self.entries[k]
    }

    /// The number of entries.
    pub fn len(&self) -> (r: usize)
        ensures
            r == self@.len(),
    {
        self.entries.len()
    }

}

impl EntryAdd {
    /// The entry for `pathname` with object id `oid` and metadata `stat`.
    pub fn create(pathname: String, oid: Vec<u8>, stat: FileStat) -> (r: EntryAdd)
        ensures
            r@ == created(pathname@, oid@, stat),
    {
        let n = pathname.as_str().as_bytes().len();
        let flags: u16 = if n < MAX_PATH_SIZE as usize {
            n as u16
        } else {
            MAX_PATH_SIZE
        };
        EntryAdd {
            ctime: stat.ctime,
            ctime_nsec: stat.ctime_nsec,
            mtime: stat.mtime,
            mtime_nsec: stat.mtime_nsec,
            dev: stat.dev,
            ino: stat.ino,
            mode: get_mode(stat.mode),
            uid: stat.uid,
            gid: stat.gid,
            size: stat.size,
            oid,
            flags,
            path: pathname,
        }
    }

}

/// Where the last component of a path starts: after its last `/`.
pub open spec fn name_start(b: Seq<u8>) -> int
    decreases b.len(),
{
    if b.len() == 0 {
        0
    } else if b.last() == 47u8 {
        b.len() as int
    } else {
        name_start(b.drop_last())
    }
}

fn find_name_start(b: &[u8]) -> (r: usize)
    ensures
        r == name_start(b@),
        r <= b@.len(),
{
    let mut i: usize = b.len();
    proof {
        assert(b@.take(i as int) =~= b@);
    }
    while i > 0 && b[i - 1] != 47u8
        invariant
            i <= b@.len(),
            name_start(b@) == name_start(b@.take(i as int)),
        decreases i,
    {
        assert(b@.take(i as int).drop_last() =~= b@.take(i - 1));
        i = i - 1;
    }
    proof {
        if i == 0 {
            assert(b@.take(0) =~= Seq::<u8>::empty());
        }
    }
    i
}

impl EntryAdd {
    /// The last component of the path: the file's name.
    pub fn get_name(&self) -> (r: Option<String>)
        ensures
            r matches Some(s) ==> encode_utf8(s@) == path_key(self@).skip(name_start(path_key(self@))),
            r is None <==> !vstd::utf8::is_char_boundary(path_key(self@), name_start(path_key(self@))),
    {
        let p = self.path.as_str();
        let mid = find_name_start(p.as_bytes());
        if p.is_char_boundary(mid) {
            let (_, name) = p.split_at(mid);
            let r = name.to_owned();
            assert(path_key(self@).skip(mid as int) =~= path_key(self@).subrange(mid as int, path_key(self@).len() as int));
            Some(r)
        } else {
            None
        }
    }

    /// The path.
    pub fn get_path(&self) -> (r: String)
        ensures
            r@ == self.path@,
    {
        self.path.clone()
    }

    /// The key that orders the index: the path.
    pub fn key(&self) -> (r: String)
        ensures
            r@ == self.path@,
    {
        self.path.clone()
    }

    /// The tracked mode.
    pub fn get_mode(&self) -> (r: u32)
        ensures
            r == self.mode,
    {
        self.mode
    }

    /// The entry as a tree would list it: the mode as octal text, a space,
    /// the file's name, a NUL and the object id.
    pub fn get_data_to_tree(&self) -> (r: Vec<u8>)
        ensures
            r@ == encode_utf8(crate::status::mode_text(self.mode)) + seq![32u8] + path_key(self@).skip(
                name_start(path_key(self@)),
            ) + seq![0u8] + self.oid@,
    {
        let b = self.path.as_str().as_bytes();
        let mid = find_name_start(b);
        let name = copy_range(b, mid, b.len());
        let mode = crate::status::get_mode_u(self.mode);
        let mut data: Vec<u8> = Vec::new();
        push_all(&mut data, mode.as_str().as_bytes());
        data.push(32u8);
        push_all(&mut data, name.as_slice());
        data.push(0u8);
        push_all(&mut data, self.oid.as_slice());
        assert(b@.skip(mid as int) =~= name@);
        assert(data@ =~= encode_utf8(crate::status::mode_text(self.mode)) + seq![32u8] + path_key(self@).skip(
            name_start(path_key(self@)),
        ) + seq![0u8] + self.oid@);
        data
    }
}

} // verus!
