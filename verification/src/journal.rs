//! The write-ahead journal: an append-only log of byte records.
//!
//! Each logical record is split into one or more physical fragments, each
//! carrying a masked, seeded checksum, a payload length and a type byte.
//! Fragments never cross a block boundary; when fewer bytes than a header
//! remain in a block, the tail is zero-padded and writing continues in the
//! next block.

use vstd::prelude::*;
use vstd::arithmetic::div_mod::{lemma_add_mod_noop, lemma_fundamental_div_mod, lemma_mod_self_0,
    lemma_small_mod};
use crate::checksum::{crc32_of, crc32_seeded, mask_crc, mask_crc_spec, unmask_crc,
    unmask_crc_spec, lemma_unmask_mask};
use crate::coding::{le16_bytes, le16_val, le32_bytes, le32_val, lemma_le16_round_trip,
    lemma_le32_round_trip, put_u16, put_u32};
use crate::errors::FileError;
use crate::{BLOCK_SIZE, HEADER_SIZE};

verus! {

/// The type byte of a physical fragment.
#[derive(Clone, Copy, Debug, PartialEq, Eq, Structural)]
pub enum RecordType {
    /// Reserved for preallocated, never-written space.
    Zero,
    /// A whole logical record in one fragment.
    Full,
    /// The opening fragment of a multi-fragment record.
    First,
    /// A continuation fragment of a multi-fragment record.
    Middle,
    /// The closing fragment of a multi-fragment record.
    Last,
}

/// The stable numeric encoding of a fragment type.
pub open spec fn rt_tag(t: RecordType) -> u8 {
    match t {
        RecordType::Zero => 0,
        RecordType::Full => 1,
        RecordType::First => 2,
        RecordType::Middle => 3,
        RecordType::Last => 4,
    }
}

impl RecordType {
    /// The numeric tag stored in the fragment header.
    pub fn tag(self) -> (r: u8)
        ensures
            r == rt_tag(self),
    {
        match self {
            RecordType::Zero => 0,
            RecordType::Full => 1,
            RecordType::First => 2,
            RecordType::Middle => 3,
            RecordType::Last => 4,
        }
    }
}

/// The tag of the fragment that begins at the start of a record iff `begin`
/// and ends at the end of the record iff `end`.
pub open spec fn tag_for(begin: bool, end: bool) -> u8 {
    if begin && end {
        1
    } else if begin {
        2
    } else if end {
        4
    } else {
        3
    }
}

/// `n` zero bytes.
pub open spec fn zeros(n: int) -> Seq<u8> {
    Seq::new(n as nat, |i: int| 0u8)
}

/// The seven header bytes of a fragment: the masked checksum of the type
/// byte and payload, the payload length, and the type byte, the integers
/// little-endian.
pub open spec fn header_bytes(tag: u8, payload: Seq<u8>) -> Seq<u8>
    recommends
        payload.len() <= 0xffff,
{
    le32_bytes(mask_crc_spec(crc32_of(tag as u32, payload))) + le16_bytes(payload.len() as u16)
        + seq![tag]
}

/// The on-disk bytes of one physical fragment: its header, then its
/// payload.
pub open spec fn fragment_bytes(tag: u8, payload: Seq<u8>) -> Seq<u8>
    recommends
        payload.len() <= 0xffff,
{
    header_bytes(tag, payload) + payload
}

/// Zero padding emitted at offset `off`: the rest of the block when fewer
/// bytes than a header remain there, nothing otherwise.
pub open spec fn pad_len(off: int) -> int {
    if off + HEADER_SIZE > BLOCK_SIZE {
        BLOCK_SIZE - off
    } else {
        0
    }
}

/// The offset at which the next fragment is laid down, once any padding at
/// `off` has been written.
pub open spec fn padded_off(off: int) -> int {
    if off + HEADER_SIZE > BLOCK_SIZE {
        0
    } else {
        off
    }
}

/// Everything the writer appends for one logical record `data`, starting at
/// offset `off` within the current block: alternating padding and fragments,
/// exactly as the block-packing loop lays them down. `begin` says whether
/// the record's opening fragment is still to be written.
#[verifier::opaque]
pub open spec fn fragments_from(data: Seq<u8>, off: int, begin: bool) -> Seq<u8>
    recommends
        0 <= off <= BLOCK_SIZE,
    decreases data.len(), (if BLOCK_SIZE - padded_off(off) - HEADER_SIZE <= 0 { 1int } else { 0int }),
{
    let p = padded_off(off);
    let avail = BLOCK_SIZE - p - HEADER_SIZE;
    let flen = if data.len() <= avail { data.len() as int } else { avail };
    let end = flen == data.len();
    let frag = zeros(pad_len(off)) + fragment_bytes(tag_for(begin, end), data.take(flen));
    if end {
        frag
    } else if flen == 0 {
        frag + fragments_from(data, 0, false)
    } else {
        frag + fragments_from(data.skip(flen), p + HEADER_SIZE + flen, false)
    }
}

/// The block offset at which the writer stands after appending `data` from
/// offset `off`.
#[verifier::opaque]
pub open spec fn off_after(data: Seq<u8>, off: int, begin: bool) -> int
    recommends
        0 <= off <= BLOCK_SIZE,
    decreases data.len(), (if BLOCK_SIZE - padded_off(off) - HEADER_SIZE <= 0 { 1int } else { 0int }),
{
    let p = padded_off(off);
    let avail = BLOCK_SIZE - p - HEADER_SIZE;
    let flen = if data.len() <= avail { data.len() as int } else { avail };
    let end = flen == data.len();
    if end {
        p + HEADER_SIZE + flen
    } else if flen == 0 {
        off_after(data, 0, false)
    } else {
        off_after(data.skip(flen), p + HEADER_SIZE + flen, false)
    }
}

/// One step of the block-packing recursion, spelled out: what the writer
/// appends for `data` at offset `off` is the padding and fragment of the
/// first iteration followed by the encoding of whatever remains.
proof fn lemma_fragments_step(data: Seq<u8>, off: int, begin: bool)
    requires
        0 <= off <= BLOCK_SIZE,
    ensures
        ({
            let p = padded_off(off);
            let avail = BLOCK_SIZE - p - HEADER_SIZE;
            let flen = if data.len() <= avail {
                data.len() as int
            } else {
                avail
            };
            let end = flen == data.len();
            let frag = zeros(pad_len(off)) + fragment_bytes(tag_for(begin, end), data.take(flen));
            &&& (end ==> fragments_from(data, off, begin) == frag && off_after(data, off, begin)
                == p + HEADER_SIZE + flen)
            &&& ((!end && flen == 0) ==> fragments_from(data, off, begin) == frag
                + fragments_from(data, BLOCK_SIZE as int, false) && off_after(data, off, begin)
                == off_after(data, BLOCK_SIZE as int, false))
            &&& ((!end && flen > 0) ==> fragments_from(data, off, begin) == frag
                + fragments_from(data.skip(flen), p + HEADER_SIZE + flen, false) && off_after(
                data,
                off,
                begin,
            ) == off_after(data.skip(flen), p + HEADER_SIZE + flen, false))
        }),
{
    reveal_with_fuel(fragments_from, 2);
    reveal_with_fuel(off_after, 2);
    let p = padded_off(off);
    let avail = BLOCK_SIZE - p - HEADER_SIZE;
    let flen = if data.len() <= avail {
        data.len() as int
    } else {
        avail
    };
    let end = flen == data.len();
    if !end && flen == 0 {
        assert(fragments_from(data, BLOCK_SIZE as int, false) == fragments_from(data, 0, false));
        assert(off_after(data, BLOCK_SIZE as int, false) == off_after(data, 0, false));
    }
}

/// Append every byte of `src` to `dest`.
fn push_all(dest: &mut Vec<u8>, src: &[u8])
    ensures
        final(dest)@ == old(dest)@ + src@,
{
    let ghost dest0 = dest@;
    let mut i: usize = 0;
    while i < src.len()
        invariant
            i <= src@.len(),
            dest@ == dest0 + src@.take(i as int),
        decreases src@.len() - i,
    {
        dest.push(src[i]);
        assert(dest@ =~= dest0 + src@.take(i + 1));
        i = i + 1;
    }
    assert(dest@ =~= dest0 + src@);
}

/// Append `n` zero bytes to `dest`.
fn push_zeros(dest: &mut Vec<u8>, n: usize)
    ensures
        final(dest)@ == old(dest)@ + zeros(n as int),
{
    let ghost dest0 = dest@;
    let mut i: usize = 0;
    while i < n
        invariant
            i <= n,
            dest@ == dest0 + zeros(i as int),
        decreases n - i,
    {
        dest.push(0u8);
        assert(dest@ =~= dest0 + zeros(i + 1));
        i = i + 1;
    }
}

/// Appends logical records to an in-memory journal file, packing their
/// fragments into fixed-size blocks. The accumulated bytes are handed to
/// the caller to persist.
pub struct Writer {
    dest: Vec<u8>,
    block_offset: usize,
}

impl Writer {
    /// The journal file contents appended so far.
    pub closed spec fn bytes(self) -> Seq<u8> {
        self.dest@
    }

    /// The writer's position within the current block.
    pub closed spec fn offset(self) -> int {
        self.block_offset as int
    }

    /// The block offset never exceeds a block and always agrees with the
    /// file length, so fragments land where the reader's block arithmetic
    /// expects them.
    pub closed spec fn wf(self) -> bool {
        &&& self.block_offset <= BLOCK_SIZE
        &&& (self.block_offset as int == self.dest@.len() as int % (BLOCK_SIZE as int) || (
        self.block_offset == BLOCK_SIZE && self.dest@.len() as int % (BLOCK_SIZE as int) == 0))
    }

    /// A fresh writer with an empty journal file.
    pub fn new() -> (w: Writer)
        ensures
            w.wf(),
            w.bytes() == Seq::<u8>::empty(),
            w.offset() == 0,
    {
        proof {
            lemma_small_mod(0nat, BLOCK_SIZE as nat);
        }
        Writer { dest: Vec::new(), block_offset: 0 }
    }

    /// The bytes appended so far, for the caller to persist.
    pub fn contents(&self) -> (r: &Vec<u8>)
        ensures
            r@ == self.bytes(),
    {
        &self.dest
    }

    /// The fragment type for a fragment that opens its record iff `begin`
    /// and closes it iff `end`.
    fn record_type(begin: bool, end: bool) -> (t: RecordType)
        ensures
            rt_tag(t) == tag_for(begin, end),
    {
        if begin && end {
            RecordType::Full
        } else if begin {
            RecordType::First
        } else if end {
            RecordType::Last
        } else {
            RecordType::Middle
        }
    }

    /// Lay down one fragment: header, then payload. The fragment must fit
    /// in the current block.
    fn emit_physical_record(&mut self, t: RecordType, payload: &[u8])
        requires
            payload@.len() <= 0xffff,
            old(self).block_offset + HEADER_SIZE + payload@.len() <= BLOCK_SIZE,
        ensures
            final(self).dest@ == old(self).dest@ + fragment_bytes(rt_tag(t), payload@),
            final(self).block_offset == old(self).block_offset + HEADER_SIZE + payload@.len(),
    {
        self.emit_header(t, payload);
        push_all(&mut self.dest, payload);
        self.block_offset = self.block_offset + HEADER_SIZE + payload.len();
        assert(self.dest@ =~= old(self).dest@ + fragment_bytes(rt_tag(t), payload@));
    }

    /// Checksum the fragment and lay down its seven header bytes.
    fn emit_header(&mut self, t: RecordType, payload: &[u8])
        requires
            payload@.len() <= 0xffff,
        ensures
            final(self).dest@ == old(self).dest@ + header_bytes(rt_tag(t), payload@),
            final(self).block_offset == old(self).block_offset,
    {
        let tag = t.tag();
        let crc = crc32_seeded(tag as u32, payload);
        let masked = mask_crc(crc);

        let mut word = vec![0u8; 4];
        put_u32(masked, &mut word);
        push_all(&mut self.dest, word.as_slice());

        let mut half = vec![0u8; 2];
        put_u16(payload.len() as u16, &mut half);
        push_all(&mut self.dest, half.as_slice());

        self.dest.push(tag);
        assert(self.dest@ =~= old(self).dest@ + header_bytes(rt_tag(t), payload@));
    }

    /// Append one logical record.
    ///
    /// The record is split into fragments that never cross a block
    /// boundary; a block tail too short for a header is zero-padded first.
    /// An empty record still becomes one zero-length full fragment, so it
    /// round-trips. Appending to the in-memory file cannot fail, so the
    /// result is always success; a file-backed caller reports its own
    /// write or flush failures as `FileError::IoFailure`.
    #[verifier::rlimit(100)]
    pub fn add_record(&mut self, data: &[u8]) -> (r: Result<(), FileError>)
        requires
            old(self).wf(),
        ensures
            final(self).wf(),
            r is Ok,
            final(self).bytes() == old(self).bytes() + fragments_from(
                data@,
                old(self).offset(),
                true,
            ),
            final(self).offset() == off_after(data@, old(self).offset(), true),
    {
        let ghost dest0 = self.dest@;
        let ghost off0 = self.block_offset as int;
        let mut consumed: usize = 0;
        let mut begin = true;
        let mut done = false;
        proof {
            assert(data@.skip(0) =~= data@);
        }
        while !done
            invariant
                self.wf(),
                consumed <= data@.len(),
                !done ==> {
                    &&& dest0 + fragments_from(data@, off0, true) == self.dest@ + fragments_from(
                        data@.skip(consumed as int),
                        self.block_offset as int,
                        begin,
                    )
                    &&& off_after(data@, off0, true) == off_after(
                        data@.skip(consumed as int),
                        self.block_offset as int,
                        begin,
                    )
                },
                done ==> {
                    &&& self.dest@ == dest0 + fragments_from(data@, off0, true)
                    &&& self.block_offset as int == off_after(data@, off0, true)
                },
            decreases
                data@.len() - consumed,
                (if done { 0int } else { 1int }),
                (if BLOCK_SIZE - padded_off(self.block_offset as int) - HEADER_SIZE <= 0 { 1int } else { 0int }),
        {
            let ghost rem = data@.skip(consumed as int);
            let ghost off = self.block_offset as int;
            let ghost pre_dest = self.dest@;
            let ghost b0 = begin;

            // Too little room for a header: zero-pad the block tail.
            if BLOCK_SIZE - self.block_offset < HEADER_SIZE {
                let pad = BLOCK_SIZE - self.block_offset;
                push_zeros(&mut self.dest, pad);
                self.block_offset = 0;
                proof {
                    if off < BLOCK_SIZE {
                        lemma_add_mod_noop(pre_dest.len() as int, pad as int, BLOCK_SIZE as int);
                        lemma_small_mod(pad as nat, BLOCK_SIZE as nat);
                        lemma_mod_self_0(BLOCK_SIZE as int);
                    }
                    lemma_small_mod(0nat, BLOCK_SIZE as nat);
                    assert(self.dest@.len() as int % (BLOCK_SIZE as int) == 0);
                }
            }
            let ghost p = self.block_offset as int;
            proof {
                assert(p == padded_off(off));
                assert(p == self.dest@.len() as int % (BLOCK_SIZE as int));
                assert(self.dest@ =~= pre_dest + zeros(pad_len(off)));
            }

            let avail = BLOCK_SIZE - self.block_offset - HEADER_SIZE;
            let left = data.len() - consumed;
            let flen = if left < avail {
                left
            } else {
                avail
            };
            let end = flen == left;
            let t = Self::record_type(begin, end);
            let payload = &data[consumed..consumed + flen];
            proof {
                assert(payload@ =~= rem.take(flen as int));
            }
            self.emit_physical_record(t, payload);
            let ghost mid_dest = pre_dest + zeros(pad_len(off));
            proof {
                // the new length and offset still agree modulo the block size
                let hl = (HEADER_SIZE + flen) as int;
                lemma_add_mod_noop(mid_dest.len() as int, hl, BLOCK_SIZE as int);
                lemma_mod_self_0(BLOCK_SIZE as int);
                lemma_small_mod(0nat, BLOCK_SIZE as nat);
                if hl < BLOCK_SIZE {
                    lemma_small_mod(hl as nat, BLOCK_SIZE as nat);
                }
                if p + hl < BLOCK_SIZE {
                    lemma_small_mod((p + hl) as nat, BLOCK_SIZE as nat);
                }
            }
            consumed = consumed + flen;
            done = end;
            begin = false;
            proof {
                let flen_i = flen as int;
                let tag = tag_for(b0, end);
                let frag = zeros(pad_len(off)) + fragment_bytes(tag, rem.take(flen_i));
                lemma_fragments_step(rem, off, b0);
                assert(self.dest@ =~= pre_dest + frag);
                assert(data@.skip(consumed as int) =~= rem.skip(flen_i));
                if end {
                } else if flen == 0 {
                    assert(pre_dest + (frag + fragments_from(rem, BLOCK_SIZE as int, false)) =~= (
                    pre_dest + frag) + fragments_from(rem, BLOCK_SIZE as int, false));
                } else {
                    assert(pre_dest + (frag + fragments_from(
                        rem.skip(flen_i),
                        p + HEADER_SIZE + flen_i,
                        false,
                    )) =~= (pre_dest + frag) + fragments_from(
                        rem.skip(flen_i),
                        p + HEADER_SIZE + flen_i,
                        false,
                    ));
                }
            }
        }
        Ok(())
    }
}


/// What one call to `read_record` produces.
pub enum ReadOutcome {
    /// The next logical record, reassembled from its fragments.
    Record(Seq<u8>),
    /// A clean end of the log: no bytes remain to read.
    End,
    /// A corrupt region was found and skipped.
    Corrupt(FileError),
}

/// The reader's state after one call: the outcome, the new cursor and the
/// remaining partial-record accumulator.
pub struct ReadState {
    pub outcome: ReadOutcome,
    pub pos: int,
    pub acc: Option<Seq<u8>>,
}

/// The last position of the block holding `pos` that the file has bytes
/// for: the block's end, or the end of a short final block.
pub open spec fn block_data_end(file: Seq<u8>, pos: int) -> int {
    let bstart = pos - pos % (BLOCK_SIZE as int);
    if bstart + BLOCK_SIZE <= file.len() {
        bstart + BLOCK_SIZE
    } else {
        file.len() as int
    }
}

/// One call of the reader on `file` at cursor `pos` with partial-record
/// accumulator `acc`: scan forward over padding, reserved space and
/// continuation fragments until a record is complete, the log ends, or
/// corruption is found.
///
/// Corruption discards the accumulator; after a bad checksum or a
/// truncated fragment the rest of the block is skipped, while a fragment
/// whose checksum is sound but whose type breaks the framing grammar is
/// skipped by itself.
pub open spec fn read_step(file: Seq<u8>, pos: int, acc: Option<Seq<u8>>) -> ReadState
    recommends
        0 <= pos <= file.len(),
    decreases file.len() - pos,
{
    if pos >= file.len() {
        ReadState { outcome: ReadOutcome::End, pos, acc }
    } else {
        let bend = block_data_end(file, pos);
        let rem = bend - pos;
        if rem < HEADER_SIZE {
            if bend - (pos - pos % (BLOCK_SIZE as int)) == BLOCK_SIZE {
                // a full block's tail too short for a header: padding
                read_step(file, bend, acc)
            } else {
                // the file ends inside what should be a header
                ReadState {
                    outcome: ReadOutcome::Corrupt(FileError::TruncatedFragment),
                    pos: bend,
                    acc: None,
                }
            }
        } else {
            let stored = le32_val(file.subrange(pos, pos + 4));
            let length = le16_val(file.subrange(pos + 4, pos + 6)) as int;
            let tag = file[pos + 6];
            if tag == 0 {
                // reserved: the rest of the block was never written
                read_step(file, bend, acc)
            } else if pos + HEADER_SIZE + length > bend {
                ReadState {
                    outcome: ReadOutcome::Corrupt(FileError::TruncatedFragment),
                    pos: bend,
                    acc: None,
                }
            } else {
                let payload = file.subrange(pos + HEADER_SIZE, pos + HEADER_SIZE + length);
                let next = pos + HEADER_SIZE + length;
                if unmask_crc_spec(stored) != crc32_of(tag as u32, payload) {
                    ReadState {
                        outcome: ReadOutcome::Corrupt(FileError::ChecksumMismatch),
                        pos: bend,
                        acc: None,
                    }
                } else if tag == 1 {
                    if acc is None {
                        ReadState { outcome: ReadOutcome::Record(payload), pos: next, acc: None }
                    } else {
                        ReadState {
                            outcome: ReadOutcome::Corrupt(FileError::ProtocolViolation),
                            pos: next,
                            acc: None,
                        }
                    }
                } else if tag == 2 {
                    if acc is None {
                        read_step(file, next, Some(payload))
                    } else {
                        ReadState {
                            outcome: ReadOutcome::Corrupt(FileError::ProtocolViolation),
                            pos: next,
                            acc: None,
                        }
                    }
                } else if tag == 3 {
                    if acc is Some {
                        read_step(file, next, Some(acc->0 + payload))
                    } else {
                        ReadState {
                            outcome: ReadOutcome::Corrupt(FileError::ProtocolViolation),
                            pos: next,
                            acc: None,
                        }
                    }
                } else if tag == 4 {
                    if acc is Some {
                        ReadState {
                            outcome: ReadOutcome::Record(acc->0 + payload),
                            pos: next,
                            acc: None,
                        }
                    } else {
                        ReadState {
                            outcome: ReadOutcome::Corrupt(FileError::ProtocolViolation),
                            pos: next,
                            acc: None,
                        }
                    }
                } else {
                    ReadState {
                        outcome: ReadOutcome::Corrupt(FileError::ProtocolViolation),
                        pos: next,
                        acc: None,
                    }
                }
            }
        }
    }
}

/// Read four little-endian bytes of `v` starting at `i`.
fn read_le32_at(v: &Vec<u8>, i: usize) -> (r: u32)
    requires
        i + 4 <= v@.len(),
    ensures
        r == le32_val(v@.subrange(i as int, i as int + 4)),
{
    let n = v.len();
    assert(i + 4 <= n);
    let r = v[i] as u32 | ((v[i + 1] as u32) << 8) | ((v[i + 2] as u32) << 16) | ((v[i + 3]
        as u32) << 24);
    proof {
        let s = v@.subrange(i as int, i as int + 4);
        assert(s[0] == v@[i as int] && s[1] == v@[i as int + 1] && s[2] == v@[i as int + 2] && s[3]
            == v@[i as int + 3]);
    }
    r
}

/// Read two little-endian bytes of `v` starting at `i`.
fn read_le16_at(v: &Vec<u8>, i: usize) -> (r: u16)
    requires
        i + 2 <= v@.len(),
    ensures
        r == le16_val(v@.subrange(i as int, i as int + 2)),
{
    let n = v.len();
    assert(i + 2 <= n);
    let r = v[i] as u16 | ((v[i + 1] as u16) << 8);
    proof {
        let s = v@.subrange(i as int, i as int + 2);
        assert(s[0] == v@[i as int] && s[1] == v@[i as int + 1]);
    }
    r
}

/// Copy the bytes of `v` from `start` (inclusive) to `end` (exclusive).
fn copy_range(v: &Vec<u8>, start: usize, end: usize) -> (r: Vec<u8>)
    requires
        start <= end,
        end <= v@.len(),
    ensures
        r@ == v@.subrange(start as int, end as int),
{
    let mut r: Vec<u8> = Vec::new();
    let mut i: usize = start;
    while i < end
        invariant
            start <= i <= end,
            end <= v@.len(),
            r@ == v@.subrange(start as int, i as int),
        decreases end - i,
    {
        r.push(v[i]);
        assert(r@ =~= v@.subrange(start as int, i + 1));
        i = i + 1;
    }
    r
}

/// Replays a journal file from memory, reassembling logical records from
/// their fragments and reporting damage as recoverable errors.
pub struct Reader {
    file: Vec<u8>,
    pos: usize,
    acc: Vec<u8>,
    acc_open: bool,
}

impl Reader {
    /// The journal file being replayed.
    pub closed spec fn file_bytes(self) -> Seq<u8> {
        self.file@
    }

    /// How far the reader has scanned.
    pub closed spec fn cursor(self) -> int {
        self.pos as int
    }

    /// The partial record accumulated from fragments read so far, if a
    /// multi-fragment record is open.
    pub closed spec fn pending(self) -> Option<Seq<u8>> {
        if self.acc_open {
            Some(self.acc@)
        } else {
            None
        }
    }

    /// The cursor never passes the end of the file.
    pub closed spec fn wf(self) -> bool {
        self.pos <= self.file@.len()
    }

    /// A reader positioned at the start of journal file `data`.
    pub fn new(data: Vec<u8>) -> (r: Reader)
        ensures
            r.wf(),
            r.file_bytes() == data@,
            r.cursor() == 0,
            r.pending() is None,
    {
        Reader { file: data, pos: 0, acc: Vec::new(), acc_open: false }
    }

    /// The next logical record, `None` at the clean end of the log, or the
    /// error describing the corruption that was skipped. The cursor, the
    /// accumulator and the outcome are exactly those of `read_step`.
    #[verifier::loop_isolation(false)]
    #[verifier::rlimit(100)]
    pub fn read_record(&mut self) -> (r: Result<Option<Vec<u8>>, FileError>)
        requires
            old(self).wf(),
        ensures
            final(self).wf(),
            final(self).file_bytes() == old(self).file_bytes(),
            ({
                let st = read_step(
                    old(self).file_bytes(),
                    old(self).cursor(),
                    old(self).pending(),
                );
                &&& final(self).cursor() == st.pos
                &&& final(self).pending() == st.acc
                &&& match r {
                    Ok(Some(rec)) => st.outcome == ReadOutcome::Record(rec@),
                    Ok(None) => st.outcome is End,
                    Err(e) => st.outcome == ReadOutcome::Corrupt(e),
                }
            }),
    {
        let ghost st0 = read_step(old(self).file@, old(self).pos as int, old(self).pending());
        loop
            invariant
                self.wf(),
                self.file@ == old(self).file@,
                st0 == read_step(self.file@, self.pos as int, self.pending()),
            decreases self.file@.len() - self.pos,
        {
            let n = self.file.len();
            if self.pos >= n {
                return Ok(None);
            }
            let bstart = self.pos - self.pos % BLOCK_SIZE;
            let bend = if n - bstart >= BLOCK_SIZE {
                bstart + BLOCK_SIZE
            } else {
                n
            };
            let rem = bend - self.pos;
            proof {
                assert(bend == block_data_end(self.file@, self.pos as int));
            }
            if rem < HEADER_SIZE {
                if n - bstart >= BLOCK_SIZE {
                    // block tail shorter than a header: padding, keep going
                    self.pos = bend;
                } else {
                    // torn tail: the file ends inside a header
                    self.pos = bend;
                    self.acc_open = false;
                    return Err(FileError::TruncatedFragment);
                }
            } else {
                let stored = read_le32_at(&self.file, self.pos);
                let length = read_le16_at(&self.file, self.pos + 4) as usize;
                let tag = self.file[self.pos + 6];
                if tag == 0 {
                    // reserved space: nothing was ever written here
                    self.pos = bend;
                } else if length > rem - HEADER_SIZE {
                    self.pos = bend;
                    self.acc_open = false;
                    return Err(FileError::TruncatedFragment);
                } else {
                    let payload = copy_range(
                        &self.file,
                        self.pos + HEADER_SIZE,
                        self.pos + HEADER_SIZE + length,
                    );
                    let crc = crc32_seeded(tag as u32, payload.as_slice());
                    let next = self.pos + HEADER_SIZE + length;
                    if unmask_crc(stored) != crc {
                        self.pos = bend;
                        self.acc_open = false;
                        return Err(FileError::ChecksumMismatch);
                    } else if tag == 1 {
                        if !self.acc_open {
                            self.pos = next;
                            return Ok(Some(payload));
                        } else {
                            self.pos = next;
                            self.acc_open = false;
                            return Err(FileError::ProtocolViolation);
                        }
                    } else if tag == 2 {
                        if !self.acc_open {
                            self.acc = payload;
                            self.acc_open = true;
                            self.pos = next;
                        } else {
                            self.pos = next;
                            self.acc_open = false;
                            return Err(FileError::ProtocolViolation);
                        }
                    } else if tag == 3 {
                        if self.acc_open {
                            push_all(&mut self.acc, payload.as_slice());
                            self.pos = next;
                        } else {
                            self.pos = next;
                            return Err(FileError::ProtocolViolation);
                        }
                    } else if tag == 4 {
                        if self.acc_open {
                            push_all(&mut self.acc, payload.as_slice());
                            let mut rec: Vec<u8> = Vec::new();
                            core::mem::swap(&mut rec, &mut self.acc);
                            self.acc_open = false;
                            self.pos = next;
                            return Ok(Some(rec));
                        } else {
                            self.pos = next;
                            return Err(FileError::ProtocolViolation);
                        }
                    } else {
                        self.pos = next;
                        self.acc_open = false;
                        return Err(FileError::ProtocolViolation);
                    }
                }
            }
        }
    }
}


/// Subranges of a region of `file` known byte-for-byte equal `enc` can be
/// read off `enc` directly.
proof fn lemma_subrange_within(file: Seq<u8>, pos: int, enc: Seq<u8>, a: int, b: int)
    requires
        0 <= pos,
        pos + enc.len() <= file.len(),
        file.subrange(pos, pos + enc.len()) == enc,
        0 <= a <= b <= enc.len(),
    ensures
        file.subrange(pos + a, pos + b) == enc.subrange(a, b),
{
    assert forall|k: int| 0 <= k < b - a implies file.subrange(pos + a, pos + b)[k] == enc.subrange(
        a,
        b,
    )[k] by {
        assert(enc[a + k] == file.subrange(pos, pos + enc.len())[a + k]);
    }
    assert(file.subrange(pos + a, pos + b) =~= enc.subrange(a, b));
}

/// Reading at an offset-aligned position whose bytes hold the writer's
/// encoding of `data` yields exactly the expected logical record, leaves
/// the cursor at the first byte after the encoding, and closes the
/// accumulator — whatever bytes follow. `acc` holds the payloads of the
/// record's fragments already consumed, so the expected record is `data`
/// prefixed by them.
#[verifier::rlimit(100)]
#[verifier::spinoff_prover]
pub proof fn lemma_read_encoding(
    file: Seq<u8>,
    pos: int,
    off: int,
    data: Seq<u8>,
    begin: bool,
    acc: Option<Seq<u8>>,
)
    requires
        0 <= pos,
        0 <= off <= BLOCK_SIZE,
        pos % (BLOCK_SIZE as int) == off % (BLOCK_SIZE as int),
        pos + fragments_from(data, off, begin).len() <= file.len(),
        file.subrange(pos, pos + fragments_from(data, off, begin).len()) == fragments_from(
            data,
            off,
            begin,
        ),
        begin <==> acc is None,
    ensures
        read_step(file, pos, acc) == (ReadState {
            outcome: ReadOutcome::Record(
                if begin {
                    data
                } else {
                    acc->0 + data
                },
            ),
            pos: pos + fragments_from(data, off, begin).len(),
            acc: None,
        }),
    decreases data.len(), (if BLOCK_SIZE - padded_off(off) - HEADER_SIZE <= 0 { 1int } else { 0int }),
{
    lemma_fragments_step(data, off, begin);
    let enc = fragments_from(data, off, begin);
    let p = padded_off(off);
    let avail = BLOCK_SIZE - p - HEADER_SIZE;
    let flen = if data.len() <= avail {
        data.len() as int
    } else {
        avail
    };
    let end = flen == data.len();
    let tag = tag_for(begin, end);
    let pl = data.take(flen);
    let crc = mask_crc_spec(crc32_of(tag as u32, pl));
    let fb = fragment_bytes(tag, pl);
    let pad = pad_len(off);
    let frag = zeros(pad) + fb;
    let tail = if end {
        Seq::<u8>::empty()
    } else if flen == 0 {
        fragments_from(data, BLOCK_SIZE as int, false)
    } else {
        fragments_from(data.skip(flen), p + HEADER_SIZE + flen, false)
    };
    assert(enc =~= frag + tail);
    assert(fb.len() == HEADER_SIZE + flen);

    vstd::arithmetic::div_mod::lemma_mod_bound(pos, BLOCK_SIZE as int);
    lemma_fundamental_div_mod(pos, BLOCK_SIZE as int);

    // Step over the zero padding, if there is any.
    let pos1 = pos + pad;
    if pad > 0 {
        // `off` is within seven bytes of the block's end, so the reader
        // sees a tail too short for a header and skips to the next block.
        assert(off < BLOCK_SIZE && off % (BLOCK_SIZE as int) == off) by {
            lemma_small_mod(off as nat, BLOCK_SIZE as nat);
        }
        let bstart = pos - pos % (BLOCK_SIZE as int);
        assert(bstart + BLOCK_SIZE == pos1);
        assert(pos1 % (BLOCK_SIZE as int) == 0) by {
            vstd::arithmetic::div_mod::lemma_mod_multiples_basic(
                pos / (BLOCK_SIZE as int) + 1,
                BLOCK_SIZE as int,
            );
        }
        assert(block_data_end(file, pos) == pos1);
        assert(read_step(file, pos, acc) == read_step(file, pos1, acc));
    } else {
        if off == BLOCK_SIZE {
            lemma_mod_self_0(BLOCK_SIZE as int);
        } else {
            lemma_small_mod(off as nat, BLOCK_SIZE as nat);
        }
    }
    assert(pos1 % (BLOCK_SIZE as int) == p) by {
        if pad > 0 {
        } else {
            lemma_small_mod(p as nat, BLOCK_SIZE as nat);
        }
    }

    // The fragment's bytes, read off the encoding.
    assert(file.subrange(pos1, pos1 + fb.len()) == fb) by {
        lemma_subrange_within(file, pos, enc, pad, pad + fb.len());
        assert(enc.subrange(pad, pad + fb.len()) =~= fb);
    }
    assert(file.subrange(pos1, pos1 + 4) == le32_bytes(crc)) by {
        lemma_subrange_within(file, pos1, fb, 0, 4);
        assert(fb.subrange(0, 4) =~= le32_bytes(crc));
    }
    assert(file.subrange(pos1 + 4, pos1 + 6) == le16_bytes(flen as u16)) by {
        lemma_subrange_within(file, pos1, fb, 4, 6);
        assert(fb.subrange(4, 6) =~= le16_bytes(flen as u16));
    }
    assert(file[pos1 + 6] == tag) by {
        assert(fb[6] == file.subrange(pos1, pos1 + fb.len())[6]);
    }
    assert(file.subrange(pos1 + HEADER_SIZE, pos1 + HEADER_SIZE + flen) == pl) by {
        lemma_subrange_within(file, pos1, fb, HEADER_SIZE as int, HEADER_SIZE + flen);
        assert(fb.subrange(HEADER_SIZE as int, HEADER_SIZE + flen) =~= pl);
    }

    // Parse the header at `pos1`.
    let bstart1 = pos1 - pos1 % (BLOCK_SIZE as int);
    let bend1 = block_data_end(file, pos1);
    assert(bstart1 == pos1 - p);
    assert(pos1 + HEADER_SIZE + flen <= bend1);
    lemma_le32_round_trip(crc);
    lemma_le16_round_trip(flen as u16);
    lemma_unmask_mask(crc32_of(tag as u32, pl));
    assert(le32_val(file.subrange(pos1, pos1 + 4)) == crc);
    assert(le16_val(file.subrange(pos1 + 4, pos1 + 6)) as int == flen);

    if end {
        // A full or last fragment: the record is complete here.
        if begin {
            assert(pl =~= data);
            assert(read_step(file, pos1, acc) == ReadState {
                outcome: ReadOutcome::Record(data),
                pos: pos1 + HEADER_SIZE + flen,
                acc: None,
            });
        } else {
            assert(pl =~= data);
            assert(read_step(file, pos1, acc) == ReadState {
                outcome: ReadOutcome::Record(acc->0 + data),
                pos: pos1 + HEADER_SIZE + flen,
                acc: None,
            });
        }
        assert(pos1 + HEADER_SIZE + flen == pos + enc.len());
    } else {
        // An opening or continuation fragment: recurse over the rest.
        let next = pos1 + HEADER_SIZE + flen;
        let acc2 = if begin {
            Some(pl)
        } else {
            Some(acc->0 + pl)
        };
        let off2 = if flen == 0 {
            BLOCK_SIZE as int
        } else {
            p + HEADER_SIZE + flen
        };
        let data2 = if flen == 0 {
            data
        } else {
            data.skip(flen)
        };
        assert(tail == fragments_from(data2, off2, false));
        assert(next + tail.len() == pos + enc.len());
        assert(file.subrange(next, next + tail.len()) == tail) by {
            lemma_subrange_within(file, pos, enc, pad + fb.len(), enc.len() as int);
            assert(enc.subrange(pad + fb.len(), enc.len() as int) =~= tail);
        }
        assert(next % (BLOCK_SIZE as int) == off2 % (BLOCK_SIZE as int)) by {
            lemma_add_mod_noop(pos1, HEADER_SIZE + flen, BLOCK_SIZE as int);
            lemma_add_mod_noop(p, HEADER_SIZE + flen, BLOCK_SIZE as int);
            lemma_small_mod(p as nat, BLOCK_SIZE as nat);
            if flen == 0 {
                lemma_mod_self_0(BLOCK_SIZE as int);
                assert(p + HEADER_SIZE == BLOCK_SIZE);
            }
        }
        lemma_read_encoding(file, next, off2, data2, false, acc2);
        assert(acc2->0 + data2 =~= (if begin {
            data
        } else {
            acc->0 + data
        })) by {
            assert(data.take(flen) + data.skip(flen) =~= data);
        }
        assert(read_step(file, pos1, acc) == read_step(file, next, acc2));
    }
}


/// Round trip: a journal file holding exactly the encoding of one
/// appended record replays that record — byte for byte, whatever its
/// length (zero included, and lengths spanning many blocks) — and ends
/// with the cursor at the end of the file and no record open.
pub proof fn lemma_round_trip(file: Seq<u8>, data: Seq<u8>)
    requires
        file == fragments_from(data, 0, true),
    ensures
        read_step(file, 0, None) == (ReadState {
            outcome: ReadOutcome::Record(data),
            pos: file.len() as int,
            acc: None,
        }),
{
    assert(file.subrange(0, file.len() as int) =~= file);
    lemma_read_encoding(file, 0, 0, data, true, None);
}

/// When fewer bytes than a header remain in a block, the writer pads the
/// whole tail with zero bytes and the record starts at the next block
/// boundary: the encoding from `off` is the zero padding followed by the
/// encoding from a fresh block.
pub proof fn lemma_padding(data: Seq<u8>, off: int, begin: bool)
    requires
        0 <= off <= BLOCK_SIZE,
        off + HEADER_SIZE > BLOCK_SIZE,
    ensures
        fragments_from(data, off, begin) == zeros(BLOCK_SIZE - off) + fragments_from(
            data,
            0,
            begin,
        ),
        forall|i: int|
            0 <= i < BLOCK_SIZE - off ==> #[trigger] fragments_from(data, off, begin)[i] == 0,
{
    reveal_with_fuel(fragments_from, 2);
    assert(fragments_from(data, off, begin) =~= zeros(BLOCK_SIZE - off) + fragments_from(
        data,
        0,
        begin,
    ));
}

/// The writer's offset after a record stays within one block and agrees,
/// modulo the block size, with the offset before plus the bytes appended.
pub proof fn lemma_off_after_bounds(data: Seq<u8>, off: int, begin: bool)
    requires
        0 <= off <= BLOCK_SIZE,
    ensures
        HEADER_SIZE <= off_after(data, off, begin) <= BLOCK_SIZE,
        off_after(data, off, begin) % (BLOCK_SIZE as int) == (off + fragments_from(
            data,
            off,
            begin,
        ).len()) % (BLOCK_SIZE as int),
    decreases data.len(), (if BLOCK_SIZE - padded_off(off) - HEADER_SIZE <= 0 { 1int } else { 0int }),
{
    lemma_fragments_step(data, off, begin);
    let p = padded_off(off);
    let avail = BLOCK_SIZE - p - HEADER_SIZE;
    let flen = if data.len() <= avail {
        data.len() as int
    } else {
        avail
    };
    let end = flen == data.len();
    let fb = fragment_bytes(tag_for(begin, end), data.take(flen));
    assert(fb.len() == HEADER_SIZE + flen);
    let pad = pad_len(off);
    lemma_mod_self_0(BLOCK_SIZE as int);
    lemma_small_mod(0nat, BLOCK_SIZE as nat);
    // off plus the padding lands on the laying-down offset, modulo a block
    assert((off + pad) % (BLOCK_SIZE as int) == p % (BLOCK_SIZE as int)) by {
        lemma_small_mod(p as nat, BLOCK_SIZE as nat);
    }
    if end {
        assert(off_after(data, off, begin) == p + HEADER_SIZE + flen);
        assert((off + (pad + fb.len())) % (BLOCK_SIZE as int) == (p + HEADER_SIZE + flen) % (
        BLOCK_SIZE as int)) by {
            lemma_small_mod(p as nat, BLOCK_SIZE as nat);
            lemma_add_mod_noop(off + pad, HEADER_SIZE + flen, BLOCK_SIZE as int);
            lemma_add_mod_noop(p, HEADER_SIZE + flen, BLOCK_SIZE as int);
        }
        assert((p + HEADER_SIZE + flen) % (BLOCK_SIZE as int) == off_after(data, off, begin) % (
        BLOCK_SIZE as int)) by {
            if p + HEADER_SIZE + flen < BLOCK_SIZE {
                lemma_small_mod((p + HEADER_SIZE + flen) as nat, BLOCK_SIZE as nat);
            }
        }
    } else {
        let off2 = if flen == 0 {
            BLOCK_SIZE as int
        } else {
            p + HEADER_SIZE + flen
        };
        let data2 = if flen == 0 {
            data
        } else {
            data.skip(flen)
        };
        lemma_off_after_bounds(data2, off2, false);
        assert(off_after(data, off, begin) == off_after(data2, off2, false));
        let tail = fragments_from(data2, off2, false);
        assert(fragments_from(data, off, begin).len() == pad + fb.len() + tail.len());
        // chain the modular equalities through the recursive call
        assert((off2 + tail.len()) % (BLOCK_SIZE as int) == (off + pad + fb.len() + tail.len()) % (
        BLOCK_SIZE as int)) by {
            lemma_small_mod(p as nat, BLOCK_SIZE as nat);
            if flen == 0 {
                assert(p + HEADER_SIZE == BLOCK_SIZE);
            }
            lemma_add_mod_noop(off + pad, HEADER_SIZE + flen, BLOCK_SIZE as int);
            lemma_add_mod_noop(p, HEADER_SIZE + flen, BLOCK_SIZE as int);
            assert((off + pad + fb.len()) % (BLOCK_SIZE as int) == off2 % (BLOCK_SIZE as int));
            lemma_add_mod_noop(off + pad + fb.len(), tail.len() as int, BLOCK_SIZE as int);
            lemma_add_mod_noop(off2, tail.len() as int, BLOCK_SIZE as int);
        }
    }
}

/// Records are replayed in the order they were appended: reading a file
/// that holds the encodings of `r1`, `r2` and `r3`, laid down by three
/// consecutive appends, yields `r1`, then `r2`, then `r3`.
pub proof fn lemma_order_preserved(file: Seq<u8>, pos: int, off: int, r1: Seq<u8>, r2: Seq<u8>, r3: Seq<u8>)
    requires
        0 <= pos,
        0 <= off <= BLOCK_SIZE,
        pos % (BLOCK_SIZE as int) == off % (BLOCK_SIZE as int),
        ({
            let e1 = fragments_from(r1, off, true);
            let e2 = fragments_from(r2, off_after(r1, off, true), true);
            let e3 = fragments_from(
                r3,
                off_after(r2, off_after(r1, off, true), true),
                true,
            );
            &&& pos + e1.len() + e2.len() + e3.len() <= file.len()
            &&& file.subrange(pos, pos + e1.len() + e2.len() + e3.len()) == e1 + e2 + e3
        }),
    ensures
        ({
            let e1 = fragments_from(r1, off, true);
            let off1 = off_after(r1, off, true);
            let e2 = fragments_from(r2, off1, true);
            let off2 = off_after(r2, off1, true);
            let e3 = fragments_from(r3, off2, true);
            let s1 = read_step(file, pos, None);
            let s2 = read_step(file, s1.pos, s1.acc);
            let s3 = read_step(file, s2.pos, s2.acc);
            &&& s1.outcome == ReadOutcome::Record(r1)
            &&& s2.outcome == ReadOutcome::Record(r2)
            &&& s3.outcome == ReadOutcome::Record(r3)
            &&& s3.pos == pos + e1.len() + e2.len() + e3.len()
            &&& s3.acc is None
        }),
{
    let e1 = fragments_from(r1, off, true);
    let off1 = off_after(r1, off, true);
    let e2 = fragments_from(r2, off1, true);
    let off2 = off_after(r2, off1, true);
    let e3 = fragments_from(r3, off2, true);
    let all = e1 + e2 + e3;
    let mid1 = pos + e1.len();
    let mid2 = mid1 + e2.len();

    assert(file.subrange(pos, pos + e1.len()) == e1) by {
        lemma_subrange_within(file, pos, all, 0, e1.len() as int);
        assert(all.subrange(0, e1.len() as int) =~= e1);
    }
    assert(file.subrange(mid1, mid1 + e2.len()) == e2) by {
        lemma_subrange_within(file, pos, all, e1.len() as int, e1.len() + e2.len() as int);
        assert(all.subrange(e1.len() as int, e1.len() + e2.len() as int) =~= e2);
    }
    assert(file.subrange(mid2, mid2 + e3.len()) == e3) by {
        lemma_subrange_within(file, pos, all, e1.len() + e2.len() as int, all.len() as int);
        assert(all.subrange(e1.len() + e2.len() as int, all.len() as int) =~= e3);
    }

    lemma_off_after_bounds(r1, off, true);
    lemma_off_after_bounds(r2, off1, true);
    assert(mid1 % (BLOCK_SIZE as int) == off1 % (BLOCK_SIZE as int)) by {
        lemma_add_mod_noop(pos, e1.len() as int, BLOCK_SIZE as int);
        lemma_add_mod_noop(off, e1.len() as int, BLOCK_SIZE as int);
    }
    assert(mid2 % (BLOCK_SIZE as int) == off2 % (BLOCK_SIZE as int)) by {
        lemma_add_mod_noop(mid1, e2.len() as int, BLOCK_SIZE as int);
        lemma_add_mod_noop(off1, e2.len() as int, BLOCK_SIZE as int);
    }

    lemma_read_encoding(file, pos, off, r1, true, None);
    lemma_read_encoding(file, mid1, off1, r2, true, None);
    lemma_read_encoding(file, mid2, off2, r3, true, None);
}


/// A file that ends inside what should be a fragment header — fewer than
/// `HEADER_SIZE` bytes remain — never yields a record or a panic: the
/// reader reports a clean end of the log or a truncated fragment.
pub proof fn lemma_torn_header_tail(file: Seq<u8>, pos: int, acc: Option<Seq<u8>>)
    requires
        0 <= pos <= file.len(),
        file.len() < pos + HEADER_SIZE,
    ensures
        read_step(file, pos, acc).outcome is End || read_step(file, pos, acc).outcome
            == ReadOutcome::Corrupt(FileError::TruncatedFragment),
    decreases file.len() - pos,
{
    if pos >= file.len() {
    } else {
        let bstart = pos - pos % (BLOCK_SIZE as int);
        vstd::arithmetic::div_mod::lemma_mod_bound(pos, BLOCK_SIZE as int);
        if bstart + BLOCK_SIZE <= file.len() {
            lemma_torn_header_tail(file, bstart + BLOCK_SIZE, acc);
        }
    }
}

/// A file that ends inside a fragment's payload — the header is intact,
/// names a fragment that fits its block, but the file stops short — makes
/// the reader report a truncated fragment, discard any partial record and
/// consume the torn tail.
pub proof fn lemma_torn_payload_tail(file: Seq<u8>, pos: int, acc: Option<Seq<u8>>)
    requires
        0 <= pos,
        pos + HEADER_SIZE <= file.len(),
        file[pos + 6] != 0,
        pos + HEADER_SIZE + le16_val(file.subrange(pos + 4, pos + 6)) > file.len(),
        pos + HEADER_SIZE + le16_val(file.subrange(pos + 4, pos + 6)) <= pos - pos % (
        BLOCK_SIZE as int) + BLOCK_SIZE,
    ensures
        read_step(file, pos, acc) == (ReadState {
            outcome: ReadOutcome::Corrupt(FileError::TruncatedFragment),
            pos: file.len() as int,
            acc: None,
        }),
{
    vstd::arithmetic::div_mod::lemma_mod_bound(pos, BLOCK_SIZE as int);
}

} // verus!
