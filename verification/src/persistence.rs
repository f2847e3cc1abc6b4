//! Durable layouts: the command journal's checksummed frames and the snapshot
//! file, with the rules that read them back.
//!
//! Journal frame: `[u32 len][payload][u32 crc32(payload)]`, little-endian.
//! Snapshot file: `[u64 sequence][u32 len][data][u32 crc32(data)]`.
use std::time::Duration;

use vstd::prelude::*;

use crate::text::{dec, push_dec_padded, zero_padded};
use crate::wire::{copy_range, get_u32, get_u64, le32, le64, put_bytes, put_u32, put_u64, u32_le, u64_le};

verus! {

// ------------------------------------------------------------------
// Outside calls.
// ------------------------------------------------------------------

/// The CRC-32 (IEEE) checksum of `data`, as `crc32fast::hash` computes it.
pub uninterp spec fn crc32(data: Seq<u8>) -> u32;

/// `crc32fast::hash`: the CRC-32 checksum of the bytes; it depends on the bytes alone.
#[verifier::external_body]
fn crc32_of(data: &[u8]) -> (r: u32)
    ensures
        r == crc32(data@),
{
    crc32fast::hash(data)
}

/// The duration of `ms` milliseconds, as `Duration::from_millis` builds it.
pub uninterp spec fn duration_ms(ms: u64) -> Duration;

/// `Duration::from_millis`: the duration of that many milliseconds.
#[verifier::external_body]
pub(crate) fn duration_from_millis(ms: u64) -> (r: Duration)
    ensures
        r == duration_ms(ms),
{
    Duration::from_millis(ms)
}

// ------------------------------------------------------------------
// Configuration and counters.
// ------------------------------------------------------------------

/// How the journal batches its writes and when it rotates.
#[derive(Clone, Copy, Debug)]
pub struct JournalConfig {
    /// Number of commands buffered before an fsync (0: sync every command).
    pub batch_size: usize,
    /// Longest time between two fsyncs.
    pub sync_interval: Duration,
    /// Rotate the journal after this many commands (0: never).
    pub rotation_threshold: u64,
}

impl Default for JournalConfig {
    fn default() -> (c: Self)
        ensures
            c.batch_size == 100,
            c.sync_interval == duration_ms(100),
            c.rotation_threshold == 1_000_000,
    {
        JournalConfig {
            batch_size: 100,
            sync_interval: duration_from_millis(100),
            rotation_threshold: 1_000_000,
        }
    }
}

/// Counters of a journal.
#[derive(Clone, Copy, Debug)]
pub struct JournalStats {
    pub commands_written: u64,
    pub commands_since_rotation: u64,
    pub pending_batch_size: usize,
}

/// Whether a journal that took `commands_since_rotation` commands since it was
/// last rotated is due for rotation (a threshold of zero never rotates).
pub fn should_rotate(commands_since_rotation: u64, rotation_threshold: u64) -> (r: bool)
    ensures
        r == (rotation_threshold > 0 && commands_since_rotation >= rotation_threshold),
{
    rotation_threshold > 0 && commands_since_rotation >= rotation_threshold
}

/// Whether buffered commands must be flushed: the batch is full, or the sync
/// interval has run out since the last flush.
pub fn should_flush(pending: usize, batch_size: usize, interval_elapsed: bool) -> (r: bool)
    ensures
        r == (pending >= batch_size || interval_elapsed),
{
    pending >= batch_size || interval_elapsed
}

// ------------------------------------------------------------------
// Journal frames.
// ------------------------------------------------------------------

/// Largest payload a journal frame may announce.
pub const MAX_FRAME_LEN: usize = 10485760;

/// Why a journal could not be read.
#[derive(Clone, Copy, Debug, PartialEq, Eq, Structural)]
pub enum JournalError {
    /// A frame announces more than `MAX_FRAME_LEN` bytes; `offset` is just past its header.
    FrameTooLarge { len: usize, offset: u64 },
    /// The journal ends inside a payload; `offset` is just past its header.
    Truncated { offset: u64 },
}

/// The frame that carries `p`.
pub open spec fn frame_bytes(p: Seq<u8>) -> Seq<u8> {
    le32(p.len() as u32) + p + le32(crc32(p))
}

/// The frames of `ps`, one after the other.
pub open spec fn journal_bytes(ps: Seq<Seq<u8>>) -> Seq<u8>
    decreases ps.len(),
{
    if ps.len() == 0 {
        Seq::empty()
    } else {
        frame_bytes(ps[0]) + journal_bytes(ps.drop_first())
    }
}

/// `ps` followed by what `r` read, or the error of `r`.
pub open spec fn prepend_all(
    ps: Seq<Seq<u8>>,
    r: Result<Seq<Seq<u8>>, JournalError>,
) -> Result<Seq<Seq<u8>>, JournalError> {
    match r {
        Ok(x) => Ok(ps + x),
        Err(e) => Err(e),
    }
}

/// The payloads read from journal bytes `rest`, which start at `off` in the
/// file: frames are read in order and a frame whose checksum does not match is
/// skipped; reading stops without error at the end, at a header cut short or
/// at a missing checksum; an oversized or cut-off payload is an error.
pub open spec fn read_journal(rest: Seq<u8>, off: int) -> Result<Seq<Seq<u8>>, JournalError>
    decreases rest.len(),
{
    if rest.len() < 4 {
        Ok(Seq::empty())
    } else {
        let len = u32_le(rest) as int;
        if len > MAX_FRAME_LEN {
            Err(JournalError::FrameTooLarge { len: len as usize, offset: (off + 4) as u64 })
        } else if rest.len() < len + 4 {
            Err(JournalError::Truncated { offset: (off + 4) as u64 })
        } else if rest.len() < len + 8 {
            Ok(Seq::empty())
        } else {
            let payload = rest.subrange(4, len + 4);
            if u32_le(rest.subrange(len + 4, len + 8)) != crc32(payload) {
                read_journal(rest.subrange(len + 8, rest.len() as int), off + len + 8)
            } else {
                prepend_all(seq![payload], read_journal(rest.subrange(len + 8, rest.len() as int), off + len + 8))
            }
        }
    }
}

/// The byte contents of a list of buffers.
pub open spec fn byte_seqs(v: Seq<Vec<u8>>) -> Seq<Seq<u8>> {
    v.map_values(|x: Vec<u8>| x@)
}

/// Frames `payload`: its length, its bytes, its checksum.
pub fn encode_frame(payload: &[u8]) -> (r: Vec<u8>)
    requires
        payload.len() <= u32::MAX,
    ensures
        r@ == frame_bytes(payload@),
{
    let mut out: Vec<u8> = Vec::new();
    put_u32(&mut out, payload.len() as u32);
    put_bytes(&mut out, payload);
    let c = crc32_of(payload);
    put_u32(&mut out, c);
    proof {
        assert(out@ =~= frame_bytes(payload@));
    }
    out
}

/// Reads the payloads of the frames of a journal file, as `read_journal` says.
pub fn read_frames(data: &[u8]) -> (r: Result<Vec<Vec<u8>>, JournalError>)
    ensures
        match (r, read_journal(data@, 0)) {
            (Ok(v), Ok(ps)) => byte_seqs(v@) == ps,
            (Err(a), Err(b)) => a == b,
            _ => false,
        },
{
    let mut out: Vec<Vec<u8>> = Vec::new();
    let mut pos: usize = 0;
    proof {
        assert(data@.subrange(0, data@.len() as int) =~= data@);
        assert(byte_seqs(out@) =~= Seq::<Seq<u8>>::empty());
        assert(forall|x: Seq<Seq<u8>>| Seq::<Seq<u8>>::empty() + x =~= x);
    }
    while pos < data.len()
        invariant
            pos <= data.len(),
            read_journal(data@, 0) == prepend_all(
                byte_seqs(out@),
                read_journal(data@.subrange(pos as int, data@.len() as int), pos as int),
            ),
        decreases data.len() - pos,
    {
        let ghost rest = data@.subrange(pos as int, data@.len() as int);
        let ghost ps = byte_seqs(out@);
        if data.len() - pos < 4 {
            proof {
                assert(ps + Seq::<Seq<u8>>::empty() =~= ps);
            }
            return Ok(out);
        }
        let len32 = get_u32(data, pos);
        proof {
            assert(rest.subrange(0, 4) =~= data@.subrange(pos as int, pos + 4).subrange(0, 4));
            crate::wire::lemma_u32_le_prefix(rest, data@.subrange(pos as int, pos + 4));
        }
        if len32 as usize > MAX_FRAME_LEN {
            return Err(JournalError::FrameTooLarge { len: len32 as usize, offset: pos as u64 + 4 });
        }
        let len = len32 as usize;
        if data.len() - pos - 4 < len {
            return Err(JournalError::Truncated { offset: pos as u64 + 4 });
        }
        if data.len() - pos - 4 - len < 4 {
            proof {
                assert(ps + Seq::<Seq<u8>>::empty() =~= ps);
            }
            return Ok(out);
        }
        let payload = copy_range(data, pos + 4, pos + 4 + len);
        let stored = get_u32(data, pos + 4 + len);
        let actual = crc32_of(payload.as_slice());
        proof {
            assert(payload@ =~= rest.subrange(4, len + 4));
            assert(rest.subrange(len + 4, len + 8) =~= data@.subrange(pos + 4 + len, pos + 4 + len + 4));
        }
        if stored != actual {
            pos = pos + 4 + len + 4;
            proof {
                assert(rest.subrange(len + 8, rest.len() as int) =~= data@.subrange(pos as int, data@.len() as int));
            }
            continue;
        }
        let ghost p = payload@;
        out.push(payload);
        pos = pos + 4 + len + 4;
        proof {
            assert(rest.subrange(len + 8, rest.len() as int) =~= data@.subrange(pos as int, data@.len() as int));
            assert(byte_seqs(out@) =~= ps.push(p));
            let tail = read_journal(data@.subrange(pos as int, data@.len() as int), pos as int);
            match tail {
                Ok(x) => {
                    assert(ps + (seq![p] + x) =~= ps.push(p) + x);
                },
                Err(_) => {},
            }
        }
    }
    proof {
        assert(data@.subrange(pos as int, data@.len() as int) =~= Seq::<u8>::empty());
        assert(byte_seqs(out@) + Seq::<Seq<u8>>::empty() =~= byte_seqs(out@));
    }
    Ok(out)
}

/// Reading frames written one after the other, followed by any bytes `tail`,
/// gives their payloads, then whatever `tail` reads as.
pub proof fn lemma_journal_prefix(ps: Seq<Seq<u8>>, tail: Seq<u8>, off: int)
    requires
        forall|i: int| 0 <= i < ps.len() ==> #[trigger] ps[i].len() <= MAX_FRAME_LEN,
    ensures
        read_journal(journal_bytes(ps) + tail, off) == prepend_all(
            ps,
            read_journal(tail, off + journal_bytes(ps).len()),
        ),
    decreases ps.len(),
{
    if ps.len() == 0 {
        assert(journal_bytes(ps) + tail =~= tail);
        match read_journal(tail, off) {
            Ok(x) => {
                assert(ps + x =~= x);
            },
            Err(_) => {},
        }
    } else {
        let p = ps[0];
        let rest = ps.drop_first();
        assert forall|i: int| 0 <= i < rest.len() implies #[trigger] rest[i].len() <= MAX_FRAME_LEN by {
            assert(rest[i] == ps[i + 1]);
        }
        lemma_journal_prefix(rest, tail, off + frame_bytes(p).len());
        let b = journal_bytes(ps) + tail;
        let len = p.len() as int;
        crate::wire::lemma_le32_roundtrip(p.len() as u32);
        crate::wire::lemma_le32_roundtrip(crc32(p));
        assert(b =~= le32(p.len() as u32) + p + le32(crc32(p)) + (journal_bytes(rest) + tail));
        assert(b.subrange(0, 4) =~= le32(p.len() as u32).subrange(0, 4));
        crate::wire::lemma_u32_le_prefix(b, le32(p.len() as u32));
        assert(b.subrange(4, len + 4) =~= p);
        assert(b.subrange(len + 4, len + 8) =~= le32(crc32(p)));
        assert(b.subrange(len + 8, b.len() as int) =~= journal_bytes(rest) + tail);
        match read_journal(tail, off + journal_bytes(ps).len()) {
            Ok(x) => {
                assert(seq![p] + (rest + x) =~= ps + x);
            },
            Err(_) => {},
        }
    }
}

/// A journal written frame by frame reads back as the payloads written.
pub proof fn lemma_journal_roundtrip(ps: Seq<Seq<u8>>)
    requires
        forall|i: int| 0 <= i < ps.len() ==> #[trigger] ps[i].len() <= MAX_FRAME_LEN,
    ensures
        read_journal(journal_bytes(ps), 0) == Ok::<Seq<Seq<u8>>, JournalError>(ps),
{
    lemma_journal_prefix(ps, Seq::empty(), 0);
    assert(journal_bytes(ps) + Seq::<u8>::empty() =~= journal_bytes(ps));
    assert(ps + Seq::<Seq<u8>>::empty() =~= ps);
}

/// A frame whose checksum does not match is skipped: the frames written before
/// it and after it are all read back, in order.
pub proof fn lemma_journal_skips_corruption(ps: Seq<Seq<u8>>, p: Seq<u8>, bad_crc: u32, qs: Seq<Seq<u8>>)
    requires
        forall|i: int| 0 <= i < ps.len() ==> #[trigger] ps[i].len() <= MAX_FRAME_LEN,
        forall|i: int| 0 <= i < qs.len() ==> #[trigger] qs[i].len() <= MAX_FRAME_LEN,
        p.len() <= MAX_FRAME_LEN,
        bad_crc != crc32(p),
    ensures
        read_journal(journal_bytes(ps) + (le32(p.len() as u32) + p + le32(bad_crc) + journal_bytes(qs)), 0) == Ok::<
            Seq<Seq<u8>>,
            JournalError,
        >(ps + qs),
{
    let bad = le32(p.len() as u32) + p + le32(bad_crc) + journal_bytes(qs);
    lemma_journal_prefix(ps, bad, 0);
    let len = p.len() as int;
    let off = journal_bytes(ps).len() as int;
    crate::wire::lemma_le32_roundtrip(p.len() as u32);
    crate::wire::lemma_le32_roundtrip(bad_crc);
    assert(bad.subrange(0, 4) =~= le32(p.len() as u32).subrange(0, 4));
    crate::wire::lemma_u32_le_prefix(bad, le32(p.len() as u32));
    assert(bad.subrange(4, len + 4) =~= p);
    assert(bad.subrange(len + 4, len + 8) =~= le32(bad_crc));
    assert(bad.subrange(len + 8, bad.len() as int) =~= journal_bytes(qs));
    assert(read_journal(bad, off) == read_journal(journal_bytes(qs), off + len + 8));
    lemma_journal_prefix(qs, Seq::empty(), off + len + 8);
    assert(journal_bytes(qs) + Seq::<u8>::empty() =~= journal_bytes(qs));
    assert(qs + Seq::<Seq<u8>>::empty() =~= qs);
}

// ------------------------------------------------------------------
// Snapshot files.
// ------------------------------------------------------------------

/// The order book state taken after `sequence` commands, as opaque bytes.
#[derive(Clone, Debug)]
pub struct Snapshot {
    pub sequence: u64,
    pub data: Vec<u8>,
}

/// Why a snapshot file could not be read.
#[derive(Clone, Copy, Debug, PartialEq, Eq, Structural)]
pub enum SnapshotError {
    /// The file ends before its header or its data.
    Truncated,
    /// The stored checksum is not that of the data.
    ChecksumMismatch { expected: u32, actual: u32 },
}

/// The bytes of the snapshot file of `data` taken after `sequence` commands.
pub open spec fn snapshot_file(sequence: u64, data: Seq<u8>) -> Seq<u8> {
    le64(sequence) + le32(data.len() as u32) + data + le32(crc32(data))
}

/// What a snapshot file reads as: its sequence and data; a file without a
/// checksum is accepted; a wrong checksum or a file cut short is an error.
pub open spec fn read_snapshot(b: Seq<u8>) -> Result<(u64, Seq<u8>), SnapshotError> {
    if b.len() < 12 {
        Err(SnapshotError::Truncated)
    } else {
        let len = u32_le(b.subrange(8, 12)) as int;
        if b.len() < len + 12 {
            Err(SnapshotError::Truncated)
        } else {
            let data = b.subrange(12, len + 12);
            if b.len() < len + 16 {
                Ok((u64_le(b), data))
            } else {
                let stored = u32_le(b.subrange(len + 12, len + 16));
                if stored != crc32(data) {
                    Err(SnapshotError::ChecksumMismatch { expected: stored, actual: crc32(data) })
                } else {
                    Ok((u64_le(b), data))
                }
            }
        }
    }
}

impl Snapshot {
    /// The bytes of this snapshot's file.
    pub fn to_file_bytes(&self) -> (r: Vec<u8>)
        requires
            self.data.len() <= u32::MAX,
        ensures
            r@ == snapshot_file(self.sequence, self.data@),
    {
        let mut out: Vec<u8> = Vec::new();
        put_u64(&mut out, self.sequence);
        put_u32(&mut out, self.data.len() as u32);
        put_bytes(&mut out, self.data.as_slice());
        let c = crc32_of(self.data.as_slice());
        put_u32(&mut out, c);
        proof {
            assert(out@ =~= snapshot_file(self.sequence, self.data@));
        }
        out
    }

    /// Reads a snapshot file, as `read_snapshot` says.
    pub fn from_file_bytes(b: &[u8]) -> (r: Result<Snapshot, SnapshotError>)
        ensures
            match (r, read_snapshot(b@)) {
                (Ok(s), Ok((q, d))) => s.sequence == q && s.data@ == d,
                (Err(a), Err(e)) => a == e,
                _ => false,
            },
    {
        if b.len() < 12 {
            return Err(SnapshotError::Truncated);
        }
        let sequence = get_u64(b, 0);
        let len32 = get_u32(b, 8);
        proof {
            assert(b@.subrange(0, 8).subrange(0, 8) =~= b@.subrange(0, 8));
            assert(b@.subrange(0, 8) =~= b@.subrange(0, 8).subrange(0, 8));
            assert(b@.subrange(0, 8) =~= b@.subrange(0, 8));
            crate::wire::lemma_u64_le_prefix(b@, b@.subrange(0, 8));
        }
        let len = len32 as usize;
        if b.len() - 12 < len {
            return Err(SnapshotError::Truncated);
        }
        let data = copy_range(b, 12, 12 + len);
        if b.len() - 12 - len < 4 {
            return Ok(Snapshot { sequence, data });
        }
        let stored = get_u32(b, 12 + len);
        let actual = crc32_of(data.as_slice());
        if stored != actual {
            return Err(SnapshotError::ChecksumMismatch { expected: stored, actual });
        }
        Ok(Snapshot { sequence, data })
    }
}

/// The file name of the snapshot taken after `sequence` commands: the sequence
/// in twelve or more decimal digits, so that names sort as sequences do.
pub open spec fn snapshot_name(sequence: u64) -> Seq<char> {
    "snapshot_"@ + zero_padded(dec(sequence as nat), 12) + ".bin"@
}

/// The file name under which the snapshot taken after `sequence` commands is saved.
pub fn snapshot_file_name(sequence: u64) -> (r: String)
    ensures
        r@ == snapshot_name(sequence),
{
    let mut out = String::from_str("snapshot_");
    push_dec_padded(&mut out, sequence, 12);
    out.append(".bin");
    out
}

/// The file name of the gateway's account snapshot numbered `sequence`, in the
/// same twelve-or-more-digit form.
pub open spec fn account_snapshot_name(sequence: u64) -> Seq<char> {
    "account_snapshot_"@ + zero_padded(dec(sequence as nat), 12) + ".bin"@
}

/// The file name under which the account snapshot numbered `sequence` is saved.
pub fn account_snapshot_file_name(sequence: u64) -> (r: String)
    ensures
        r@ == account_snapshot_name(sequence),
{
    let mut out = String::from_str("account_snapshot_");
    push_dec_padded(&mut out, sequence, 12);
    out.append(".bin");
    out
}

/// How many of `count` snapshot files a cleanup that keeps the latest `keep`
/// removes: the oldest beyond `keep`, none when there are no more than `keep`.
pub fn snapshots_to_remove(count: usize, keep: usize) -> (r: usize)
    ensures
        r == if count <= keep {
            0
        } else {
            (count - keep) as usize
        },
{
    if count <= keep {
        0
    } else {
        count - keep
    }
}

/// A snapshot file reads back as the sequence and data it was written with.
pub proof fn lemma_snapshot_roundtrip(sequence: u64, data: Seq<u8>)
    requires
        data.len() <= u32::MAX,
    ensures
        read_snapshot(snapshot_file(sequence, data)) == Ok::<(u64, Seq<u8>), SnapshotError>((sequence, data)),
{
    let b = snapshot_file(sequence, data);
    let len = data.len() as int;
    crate::wire::lemma_le64_roundtrip(sequence);
    crate::wire::lemma_le32_roundtrip(data.len() as u32);
    crate::wire::lemma_le32_roundtrip(crc32(data));
    assert(b.subrange(0, 8) =~= le64(sequence).subrange(0, 8));
    crate::wire::lemma_u64_le_prefix(b, le64(sequence));
    assert(b.subrange(8, 12) =~= le32(data.len() as u32));
    assert(b.subrange(12, len + 12) =~= data);
    assert(b.subrange(len + 12, len + 16) =~= le32(crc32(data)));
}

} // verus!
