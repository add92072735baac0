//! Cells, fragments and onions.
//!
//! A cell is what a link carries: 1280 bytes, whatever it holds, so that its
//! size tells nothing.

use crate::bytes::{
    append, copy_arr, get_u16, get_u32, le_bytes, le_value, lemma_le_bytes_len,
    lemma_le_value_of_bytes, lemma_pow256, put_u16, put_u32, put_zeros, zeros,
};
use crate::kdf::{open, opened, relay_nonce, relay_nonce_spec, seal, sealed};
use crate::primitives::{AEAD_MAX, AEAD_TAG};
use crate::{NetError, DIR_BWD, DIR_FWD};
use std::collections::HashMap;
use vstd::prelude::*;
use vstd::slice::slice_subrange;

verus! {

/// The length of a cell.
pub const CELL: usize = 1280;

/// The length of a cell's head: circuit (4), command (1), flags (1) and payload length (2).
pub const CELL_HDR: usize = 8;

/// The longest payload of a cell.
pub const CELL_DATA: usize = CELL - CELL_HDR;

/// The longest message of a user.
pub const MSG_MAX: usize = 1024;

/// The longest payload of a padding cell.
pub const FILLER_MAX: usize = CELL_DATA - 8;

/// The part of a payload that a fragment holds at most.
pub const FRAG_CHUNK: usize = CELL_DATA - 4;

/// The command of a cell.
#[derive(Debug, Clone, Copy, PartialEq, Eq, Structural)]
pub enum Cmd {
    Create,
    Created,
    Destroy,
    Relay,
    Padding,
}

impl Cmd {
    /// The code of a command.
    pub open spec fn code(self) -> u8 {
        match self {
            Cmd::Create => 1,
            Cmd::Created => 2,
            Cmd::Destroy => 3,
            Cmd::Relay => 4,
            Cmd::Padding => 5,
        }
    }

    /// The code of a command.
    pub fn to_u8(self) -> (v: u8)
        ensures
            v == self.code(),
    {
        match self {
            Cmd::Create => 1,
            Cmd::Created => 2,
            Cmd::Destroy => 3,
            Cmd::Relay => 4,
            Cmd::Padding => 5,
        }
    }
}

/// The command that a code stands for.
pub open spec fn cmd_of(v: u8) -> Result<Cmd, NetError> {
    if v == 1 {
        Ok(Cmd::Create)
    } else if v == 2 {
        Ok(Cmd::Created)
    } else if v == 3 {
        Ok(Cmd::Destroy)
    } else if v == 4 {
        Ok(Cmd::Relay)
    } else if v == 5 {
        Ok(Cmd::Padding)
    } else {
        Err(NetError::BadCmd(v))
    }
}

impl TryFrom<u8> for Cmd {
    type Error = NetError;

    fn try_from(v: u8) -> (r: Result<Self, NetError>) {
        match v {
            1 => Ok(Cmd::Create),
            2 => Ok(Cmd::Created),
            3 => Ok(Cmd::Destroy),
            4 => Ok(Cmd::Relay),
            5 => Ok(Cmd::Padding),
            _ => Err(NetError::BadCmd(v)),
        }
    }
}

impl vstd::std_specs::convert::TryFromSpecImpl<u8> for Cmd {
    open spec fn obeys_try_from_spec() -> bool {
        true
    }

    open spec fn try_from_spec(v: u8) -> Result<Self, NetError> {
        cmd_of(v)
    }
}

/// The command of a relay cell.
#[derive(Debug, Clone, Copy, PartialEq, Eq, Structural)]
pub enum RCmd {
    Echo,
    Data,
    Drop,
}

impl RCmd {
    /// The code of a command.
    pub open spec fn code(self) -> u8 {
        match self {
            RCmd::Echo => 1,
            RCmd::Data => 2,
            RCmd::Drop => 3,
        }
    }

    /// The code of a command.
    pub fn to_u8(self) -> (v: u8)
        ensures
            v == self.code(),
    {
        match self {
            RCmd::Echo => 1,
            RCmd::Data => 2,
            RCmd::Drop => 3,
        }
    }
}

/// The relay command that a code stands for.
pub open spec fn rcmd_of(v: u8) -> Result<RCmd, NetError> {
    if v == 1 {
        Ok(RCmd::Echo)
    } else if v == 2 {
        Ok(RCmd::Data)
    } else if v == 3 {
        Ok(RCmd::Drop)
    } else {
        Err(NetError::BadCmd(v))
    }
}

impl TryFrom<u8> for RCmd {
    type Error = NetError;

    fn try_from(v: u8) -> (r: Result<Self, NetError>) {
        match v {
            1 => Ok(RCmd::Echo),
            2 => Ok(RCmd::Data),
            3 => Ok(RCmd::Drop),
            _ => Err(NetError::BadCmd(v)),
        }
    }
}

impl vstd::std_specs::convert::TryFromSpecImpl<u8> for RCmd {
    open spec fn obeys_try_from_spec() -> bool {
        true
    }

    open spec fn try_from_spec(v: u8) -> Result<Self, NetError> {
        rcmd_of(v)
    }
}

/// A cell.
#[derive(Debug)]
pub struct Cell {
    pub cid: u32,
    pub cmd: Cmd,
    pub flags: u8,
    pub payload: Vec<u8>,
}

/// What a cell holds.
pub struct CellView {
    pub cid: u32,
    pub cmd: Cmd,
    pub flags: u8,
    pub payload: Seq<u8>,
}

impl View for Cell {
    type V = CellView;

    open spec fn view(&self) -> CellView {
        CellView { cid: self.cid, cmd: self.cmd, flags: self.flags, payload: self.payload@ }
    }
}

impl Clone for Cell {
    fn clone(&self) -> (c: Self)
        ensures
            c@ == self@,
    {
        let mut payload: Vec<u8> = Vec::with_capacity(self.payload.len());
        append(&mut payload, self.payload.as_slice());
        assert(payload@ =~= self.payload@);
        Cell { cid: self.cid, cmd: self.cmd, flags: self.flags, payload }
    }
}

impl CellView {
    /// The payload fits.
    pub open spec fn wf(self) -> bool {
        self.payload.len() <= CELL_DATA
    }

    /// The cell as bytes.
    pub open spec fn bytes(self) -> Seq<u8> {
        le_bytes(self.cid as nat, 4) + seq![self.cmd.code()] + seq![self.flags] + le_bytes(
            self.payload.len(),
            2,
        ) + self.payload + zeros((CELL_DATA - self.payload.len()) as nat)
    }
}

/// The cell that a byte string stands for.
pub open spec fn cell_of(b: Seq<u8>) -> Result<CellView, NetError> {
    let len = le_value(b.subrange(6, 8));
    if b.len() != CELL {
        Err(NetError::BadLength(b.len() as usize))
    } else if len > CELL_DATA {
        Err(NetError::TooShort)
    } else {
        match cmd_of(b[4]) {
            Err(e) => Err(e),
            Ok(cmd) => Ok(
                CellView {
                    cid: le_value(b.subrange(0, 4)) as u32,
                    cmd,
                    flags: b[5],
                    payload: b.subrange(8, 8 + len as int),
                },
            ),
        }
    }
}

impl Cell {
    /// The cell as bytes, filled up with zeros.
    pub fn encode(&self) -> (out: [u8; CELL])
        requires
            self@.wf(),
        ensures
            out@ == self@.bytes(),
    {
        let n: usize = self.payload.len();
        let mut buf: Vec<u8> = Vec::with_capacity(CELL);
        put_u32(&mut buf, self.cid);
        buf.push(self.cmd.to_u8());
        buf.push(self.flags);
        put_u16(&mut buf, n as u16);
        append(&mut buf, self.payload.as_slice());
        put_zeros(&mut buf, CELL_DATA - n);
        proof {
            lemma_le_bytes_len(self.cid as nat, 4);
            lemma_le_bytes_len(n as nat, 2);
            assert(buf@ =~= self@.bytes());
        }
        copy_arr(buf.as_slice())
    }

    /// Reads a cell.
    pub fn decode(buf: &[u8]) -> (r: Result<Cell, NetError>)
        ensures
            match r {
                Ok(c) => cell_of(buf@) == Ok::<CellView, NetError>(c@) && c@.wf(),
                Err(e) => cell_of(buf@) == Err::<CellView, NetError>(e),
            },
    {
        if buf.len() != CELL {
            return Err(NetError::BadLength(buf.len()));
        }
        let len: usize = get_u16(buf, 6) as usize;
        if len > CELL_DATA {
            return Err(NetError::TooShort);
        }
        let cid = get_u32(buf, 0);
        let cmd = match Cmd::try_from(buf[4]) {
            Ok(cmd) => cmd,
            Err(e) => {
                return Err(e);
            },
        };
        let mut payload: Vec<u8> = Vec::with_capacity(len);
        append(&mut payload, slice_subrange(buf, 8, 8 + len));
        assert(payload@ =~= buf@.subrange(8, 8 + len));
        Ok(Cell { cid, cmd, flags: buf[5], payload })
    }
}

/// What is read from the bytes of a cell is that cell, and every cell has the
/// same length.
pub proof fn law_cell_roundtrip(c: CellView)
    requires
        c.wf(),
    ensures
        c.bytes().len() == CELL,
        cell_of(c.bytes()) == Ok::<CellView, NetError>(c),
{
    let b = c.bytes();
    lemma_pow256();
    lemma_le_value_of_bytes(c.cid as nat, 4);
    lemma_le_value_of_bytes(c.payload.len(), 2);
    assert(b.subrange(0, 4) =~= le_bytes(c.cid as nat, 4));
    assert(b.subrange(6, 8) =~= le_bytes(c.payload.len(), 2));
    assert(b.subrange(8, 8 + c.payload.len() as int) =~= c.payload);
}

/// The parts of a fragment: the number of fragments, its own number, and what
/// it holds.
pub fn parse_frag(payload: &[u8]) -> (r: Result<(u16, u16, &[u8]), NetError>)
    ensures
        match r {
            Ok(p) => {
                &&& payload@.len() >= 4
                &&& p.0 == le_value(payload@.subrange(0, 2))
                &&& p.1 == le_value(payload@.subrange(2, 4))
                &&& p.2@ == payload@.subrange(4, payload@.len() as int)
            },
            Err(e) => payload@.len() < 4 && e == NetError::TooShort,
        },
{
    if payload.len() < 4 {
        return Err(NetError::TooShort);
    }
    let total = get_u16(payload, 0);
    let idx = get_u16(payload, 2);
    Ok((total, idx, slice_subrange(payload, 4, payload.len())))
}

/// How many chunks a payload is cut into: one at least.
pub open spec fn chunk_count(len: nat) -> nat {
    if len == 0 {
        1
    } else {
        (len + FRAG_CHUNK - 1) as nat / FRAG_CHUNK as nat
    }
}

/// How many fragments a payload becomes: as many as it has chunks, in two bytes.
pub open spec fn frag_count(len: nat) -> nat {
    chunk_count(len) % 65536
}

/// Chunk `i` of a payload.
pub open spec fn chunk(payload: Seq<u8>, i: int) -> Seq<u8> {
    let end = (i + 1) * FRAG_CHUNK;
    payload.subrange(
        i * FRAG_CHUNK,
        if end < payload.len() {
            end
        } else {
            payload.len() as int
        },
    )
}

/// Fragment `i` of a payload.
pub open spec fn frag(payload: Seq<u8>, i: int) -> Seq<u8> {
    le_bytes(frag_count(payload.len()), 2) + le_bytes(i as nat, 2) + chunk(payload, i)
}

/// The bounds of chunk `i`.
proof fn lemma_chunk_bounds(len: nat, i: int)
    requires
        0 <= i < chunk_count(len),
    ensures
        0 <= i * FRAG_CHUNK <= len,
        i * FRAG_CHUNK < len || len == 0,
        (i + 1) * FRAG_CHUNK == i * FRAG_CHUNK + FRAG_CHUNK,
        i + 1 == chunk_count(len) ==> (i + 1) * FRAG_CHUNK >= len,
        i + 1 < chunk_count(len) ==> (i + 1) * FRAG_CHUNK < len,
{
    assert(FRAG_CHUNK == 1268);
    assert(i * FRAG_CHUNK == i * 1268);
    assert((i + 1) * FRAG_CHUNK == (i + 1) * 1268);
}

/// Cuts a payload into fragments: each holds the number of fragments, its own
/// number, and a chunk.
pub fn fragment(payload: &[u8]) -> (frags: Vec<Vec<u8>>)
    ensures
        frags@.len() == frag_count(payload@.len()),
        forall|i: int| 0 <= i < frags@.len() ==> (#[trigger] frags@[i])@ == frag(payload@, i),
{
    let len: usize = payload.len();
    let chunks: usize = if len == 0 {
        1
    } else {
        (len - 1) / FRAG_CHUNK + 1
    };
    proof {
        assert(FRAG_CHUNK == 1268);
        assert(chunks as nat == chunk_count(len as nat));
    }
    let cnt: u16 = (chunks % 65536) as u16;
    let mut frags: Vec<Vec<u8>> = Vec::with_capacity(cnt as usize);
    let mut i: u16 = 0;
    while i < cnt
        invariant
            len == payload@.len(),
            chunks as nat == chunk_count(len as nat),
            cnt as nat == frag_count(len as nat),
            cnt <= chunks,
            i <= cnt,
            frags@.len() == i,
            forall|j: int| 0 <= j < i ==> (#[trigger] frags@[j])@ == frag(payload@, j),
        decreases cnt - i,
    {
        proof {
            lemma_chunk_bounds(len as nat, i as int);
        }
        let a: usize = i as usize * FRAG_CHUNK;
        let b: usize = if len - a > FRAG_CHUNK {
            a + FRAG_CHUNK
        } else {
            len
        };
        let mut p: Vec<u8> = Vec::with_capacity(4);
        put_u16(&mut p, cnt);
        put_u16(&mut p, i);
        append(&mut p, slice_subrange(payload, a, b));
        assert(p@ =~= frag(payload@, i as int));
        frags.push(p);
        i += 1;
    }
    frags
}

/// The fragments of a payload that have come in so far.
pub struct FragBuf {
    /// How many fragments there are.
    pub total: u16,
    /// What each of them holds, as far as it is there.
    pub got: Vec<Option<Vec<u8>>>,
    /// How many are there.
    pub count: usize,
}

/// Slots by what they hold.
pub open spec fn slots(got: Seq<Option<Vec<u8>>>) -> Seq<Option<Seq<u8>>> {
    Seq::new(
        got.len(),
        |i: int|
            match got[i] {
                Some(c) => Some(c@),
                None => None,
            },
    )
}

/// How many slots are filled.
pub open spec fn filled(got: Seq<Option<Seq<u8>>>) -> nat
    decreases got.len(),
{
    if got.len() == 0 {
        0
    } else {
        filled(got.drop_last()) + if got.last() is Some {
            1nat
        } else {
            0
        }
    }
}

/// Every slot is filled.
pub open spec fn complete(got: Seq<Option<Seq<u8>>>) -> bool {
    forall|i: int| 0 <= i < got.len() ==> #[trigger] got[i] is Some
}

/// What full slots hold together.
pub open spec fn joined(got: Seq<Option<Seq<u8>>>) -> Seq<u8>
    decreases got.len(),
{
    if got.len() == 0 {
        Seq::empty()
    } else {
        joined(got.drop_last()) + got.last()->0
    }
}

/// Empty slots.
pub open spec fn no_frags(total: u16) -> Seq<Option<Seq<u8>>> {
    Seq::new(total as nat, |i: int| None)
}

/// Slots after a fragment has come in. Where one came before, the first stays.
pub open spec fn frag_put(got: Seq<Option<Seq<u8>>>, idx: u16, chunk: Seq<u8>) -> Seq<
    Option<Seq<u8>>,
> {
    if idx < got.len() && got[idx as int] is None {
        got.update(idx as int, Some(chunk))
    } else {
        got
    }
}

impl FragBuf {
    /// There is a slot for each fragment, and the count is right.
    pub open spec fn wf(self) -> bool {
        &&& self.got@.len() == self.total
        &&& self.count == filled(slots(self.got@))
    }

    /// A buffer for a number of fragments, none of them there.
    fn empty(total: u16) -> (fb: Self)
        ensures
            fb.wf(),
            fb.total == total,
            slots(fb.got@) == no_frags(total),
    {
        let mut got: Vec<Option<Vec<u8>>> = Vec::new();
        let mut i: u16 = 0;
        proof {
            assert(slots(got@) =~= Seq::<Option<Seq<u8>>>::empty());
        }
        while i < total
            invariant
                i <= total,
                got@.len() == i,
                forall|j: int| 0 <= j < i ==> got@[j] is None,
                filled(slots(got@)) == 0,
            decreases total - i,
        {
            let ghost before = got@;
            got.push(None);
            i += 1;
            assert(slots(got@).drop_last() =~= slots(before));
        }
        assert(slots(got@) =~= no_frags(total));
        FragBuf { total, got, count: 0 }
    }

    /// Takes a fragment in.
    fn put(&mut self, idx: u16, chunk: &[u8])
        requires
            old(self).wf(),
        ensures
            final(self).wf(),
            final(self).total == old(self).total,
            slots(final(self).got@) == frag_put(slots(old(self).got@), idx, chunk@),
    {
        let i: usize = idx as usize;
        if i < self.got.len() && self.got[i].is_none() {
            let mut c: Vec<u8> = Vec::with_capacity(chunk.len());
            append(&mut c, chunk);
            assert(c@ =~= chunk@);
            proof {
                lemma_filled_update(slots(self.got@), i as int, chunk@);
                lemma_filled_bound(slots(self.got@).update(i as int, Some(chunk@)));
            }
            let ghost before = self.got@;
            self.got.set(i, Some(c));
            self.count = self.count + 1;
            assert(slots(self.got@) =~= slots(before).update(i as int, Some(chunk@)));
        }
    }

    /// What the fragments hold together.
    fn join(&self) -> (out: Vec<u8>)
        requires
            complete(slots(self.got@)),
        ensures
            out@ == joined(slots(self.got@)),
    {
        let mut out: Vec<u8> = Vec::new();
        let ghost all = slots(self.got@);
        let mut i: usize = 0;
        assert(all.subrange(0, 0) =~= Seq::empty());
        while i < self.got.len()
            invariant
                all == slots(self.got@),
                complete(all),
                i <= all.len(),
                out@ == joined(all.subrange(0, i as int)),
            decreases all.len() - i,
        {
            assert(all[i as int] is Some);
            if let Some(c) = &self.got[i] {
                append(&mut out, c.as_slice());
            }
            assert(all.subrange(0, i + 1).drop_last() =~= all.subrange(0, i as int));
            i += 1;
        }
        assert(all.subrange(0, i as int) =~= all);
        out
    }
}

impl Default for FragBuf {
    fn default() -> (fb: Self)
        ensures
            fb.wf(),
            fb.total == 0,
    {
        FragBuf::empty(0)
    }
}

/// A slot that is filled counts.
proof fn lemma_filled_update(got: Seq<Option<Seq<u8>>>, i: int, chunk: Seq<u8>)
    requires
        0 <= i < got.len(),
        got[i] is None,
    ensures
        filled(got.update(i, Some(chunk))) == filled(got) + 1,
    decreases got.len(),
{
    let next = got.update(i, Some(chunk));
    if i == got.len() - 1 {
        assert(next.drop_last() =~= got.drop_last());
    } else {
        lemma_filled_update(got.drop_last(), i, chunk);
        assert(next.drop_last() =~= got.drop_last().update(i, Some(chunk)));
    }
}

/// No more slots are filled than there are, and all are where the count says so.
proof fn lemma_filled_bound(got: Seq<Option<Seq<u8>>>)
    ensures
        filled(got) <= got.len(),
        filled(got) == got.len() <==> complete(got),
    decreases got.len(),
{
    if got.len() > 0 {
        let init = got.drop_last();
        lemma_filled_bound(init);
        if complete(got) {
            assert forall|i: int| 0 <= i < init.len() implies #[trigger] init[i] is Some by {
                assert(got[i] is Some);
            }
        }
        if complete(init) && got.last() is Some {
            assert forall|i: int| 0 <= i < got.len() implies #[trigger] got[i] is Some by {
                if i < init.len() {
                    assert(init[i] is Some);
                }
            }
        }
        if filled(got) == got.len() {
            assert(got.last() is Some);
        }
    }
}

/// All buffers are well formed.
pub open spec fn frags_wf(map: Map<u32, FragBuf>) -> bool {
    forall|cid: u32| #[trigger] map.contains_key(cid) ==> map[cid].wf()
}

/// The slots of a circuit before a fragment out of `total` comes in: empty where
/// there was none, or where the number of fragments was another.
pub open spec fn frags_before(map: Map<u32, FragBuf>, cid: u32, total: u16) -> Seq<
    Option<Seq<u8>>,
> {
    if map.contains_key(cid) && map[cid].total == total {
        slots(map[cid].got@)
    } else {
        no_frags(total)
    }
}

/// Takes a fragment of a circuit in. With the last one that was missing, the
/// payload comes out and the circuit's buffer is gone.
pub fn reassemble(
    cid: u32,
    frag_idx: u16,
    total: u16,
    chunk: &[u8],
    map: &mut HashMap<u32, FragBuf>,
) -> (r: Option<Vec<u8>>)
    requires
        frags_wf(old(map)@),
    ensures
        frags_wf(final(map)@),
        ({
            let next = frag_put(frags_before(old(map)@, cid, total), frag_idx, chunk@);
            match r {
                Some(payload) => {
                    &&& complete(next)
                    &&& payload@ == joined(next)
                    &&& final(map)@ == old(map)@.remove(cid)
                },
                None => {
                    &&& !complete(next)
                    &&& final(map)@ == old(map)@.insert(cid, final(map)@[cid])
                    &&& final(map)@[cid].total == total
                    &&& slots(final(map)@[cid].got@) == next
                },
            }
        }),
{
    broadcast use vstd::std_specs::hash::group_hash_axioms;

    let ghost before = map@;
    let mut fb = match map.remove(&cid) {
        Some(fb) => if fb.total == total {
            fb
        } else {
            FragBuf::empty(total)
        },
        None => FragBuf::empty(total),
    };
    assert(slots(fb.got@) == frags_before(before, cid, total));
    fb.put(frag_idx, chunk);
    proof {
        lemma_filled_bound(slots(fb.got@));
        assert(map@ =~= before.remove(cid));
    }
    if fb.count == fb.total as usize {
        let out = fb.join();
        return Some(out);
    }
    map.insert(cid, fb);
    assert(map@ =~= before.insert(cid, map@[cid]));
    None
}

/// The slots after fragments of a payload have come in, in some order.
pub open spec fn frag_run(payload: Seq<u8>, order: Seq<u16>) -> Seq<Option<Seq<u8>>>
    decreases order.len(),
{
    if order.len() == 0 {
        no_frags(frag_count(payload.len()) as u16)
    } else {
        frag_put(
            frag_run(payload, order.drop_last()),
            order.last(),
            chunk(payload, order.last() as int),
        )
    }
}

/// After fragments have come in, those slots are filled, each with its chunk.
pub(crate) proof fn lemma_frag_run(payload: Seq<u8>, order: Seq<u16>)
    ensures
        frag_run(payload, order).len() == frag_count(payload.len()),
        forall|i: int|
            0 <= i < frag_count(payload.len()) ==> #[trigger] frag_run(payload, order)[i]
                == if order.contains(i as u16) {
                Some(chunk(payload, i))
            } else {
                None
            },
    decreases order.len(),
{
    let n = frag_count(payload.len());
    let now = frag_run(payload, order);
    if order.len() > 0 {
        let init = order.drop_last();
        let before = frag_run(payload, init);
        lemma_frag_run(payload, init);
        assert forall|i: int| 0 <= i < n implies #[trigger] now[i] == if order.contains(i as u16) {
            Some(chunk(payload, i))
        } else {
            None
        } by {
            assert(before[i] == if init.contains(i as u16) {
                Some(chunk(payload, i))
            } else {
                None
            });
            if init.contains(i as u16) {
                let k = choose|k: int| 0 <= k < init.len() && init[k] == i as u16;
                assert(order[k] == i as u16);
            } else if order.last() == i as u16 {
                assert(order[order.len() - 1] == i as u16);
            } else if order.contains(i as u16) {
                let k = choose|k: int| 0 <= k < order.len() && order[k] == i as u16;
                assert(init[k] == i as u16);
            }
        }
    }
}

/// The first `k` chunks of a payload, side by side, are its beginning.
proof fn lemma_chunks_join(payload: Seq<u8>, got: Seq<Option<Seq<u8>>>, k: nat)
    requires
        k <= chunk_count(payload.len()),
        got.len() == k,
        forall|i: int| 0 <= i < k ==> #[trigger] got[i] == Some(chunk(payload, i)),
    ensures
        joined(got) == payload.subrange(
            0,
            if k * FRAG_CHUNK < payload.len() {
                (k * FRAG_CHUNK) as int
            } else {
                payload.len() as int
            },
        ),
    decreases k,
{
    if k > 0 {
        lemma_chunk_bounds(payload.len(), k - 1);
        lemma_chunks_join(payload, got.drop_last(), (k - 1) as nat);
        assert(got[k - 1] == Some(chunk(payload, k - 1)));
        assert(joined(got) =~= payload.subrange(
            0,
            if k * FRAG_CHUNK < payload.len() {
                (k * FRAG_CHUNK) as int
            } else {
                payload.len() as int
            },
        ));
    } else {
        assert(k * FRAG_CHUNK == 0) by (nonlinear_arith)
            requires
                k == 0,
        ;
        assert(joined(got) =~= payload.subrange(0, 0));
    }
}

/// Fragments bring a payload over, in whatever order they come in and however
/// often: the payload is complete once each fragment has come in, not before,
/// and is then what it was. Only a payload with more chunks than two bytes can
/// count is cut short.
pub proof fn law_fragments_any_order(payload: Seq<u8>, order: Seq<u16>)
    requires
        payload.len() <= 65535 * FRAG_CHUNK,
    ensures
        complete(frag_run(payload, order)) <==> forall|i: u16|
            i < frag_count(payload.len()) ==> #[trigger] order.contains(i),
        complete(frag_run(payload, order)) ==> joined(frag_run(payload, order)) == payload,
{
    let n = frag_count(payload.len());
    let got = frag_run(payload, order);
    lemma_frag_run(payload, order);
    assert(FRAG_CHUNK == 1268);
    assert(n == chunk_count(payload.len()));
    if forall|i: u16| i < n ==> #[trigger] order.contains(i) {
        assert forall|i: int| 0 <= i < got.len() implies #[trigger] got[i] is Some by {
            assert(order.contains(i as u16));
        }
    }
    if complete(got) {
        assert forall|i: u16| i < n implies #[trigger] order.contains(i) by {
            assert(got[i as int] is Some);
        }
        assert forall|i: int| 0 <= i < n implies #[trigger] got[i] == Some(chunk(payload, i)) by {
            assert(got[i] is Some);
        }
        lemma_chunks_join(payload, got, n);
        lemma_chunk_bounds(payload.len(), n - 1);
        assert(payload.subrange(0, payload.len() as int) =~= payload);
    }
}

/// A fragment tells the number of fragments and its own, and holds its chunk.
pub proof fn law_fragment_parts(payload: Seq<u8>, i: u16)
    requires
        i < frag_count(payload.len()),
    ensures
        frag(payload, i as int).len() <= CELL_DATA,
        frag(payload, i as int).len() >= 4,
        le_value(frag(payload, i as int).subrange(0, 2)) == frag_count(payload.len()),
        le_value(frag(payload, i as int).subrange(2, 4)) == i,
        frag(payload, i as int).subrange(4, frag(payload, i as int).len() as int) == chunk(
            payload,
            i as int,
        ),
{
    let f = frag(payload, i as int);
    lemma_pow256();
    lemma_le_value_of_bytes(frag_count(payload.len()), 2);
    lemma_le_value_of_bytes(i as nat, 2);
    lemma_chunk_bounds(payload.len(), i as int);
    assert(f.subrange(0, 2) =~= le_bytes(frag_count(payload.len()), 2));
    assert(f.subrange(2, 4) =~= le_bytes(i as nat, 2));
    assert(f.subrange(4, f.len() as int) =~= chunk(payload, i as int));
}

/// A message under one layer for each key, the first key outermost.
pub open spec fn onion(keys: Seq<[u8; 32]>, tag: Seq<u8>, dir: u8, seq: u32, msg: Seq<u8>) -> Seq<
    u8,
>
    decreases keys.len(),
{
    if keys.len() == 0 {
        msg
    } else {
        sealed(
            keys[0]@,
            relay_nonce_spec(tag, dir, seq),
            onion(keys.drop_first(), tag, dir, seq, msg),
        )
    }
}

/// What is under the layers of all keys, the first key outermost.
pub open spec fn peeled(keys: Seq<[u8; 32]>, tag: Seq<u8>, dir: u8, seq: u32, data: Seq<u8>) -> Option<
    Seq<u8>,
>
    decreases keys.len(),
{
    if keys.len() == 0 {
        Some(data)
    } else {
        match opened(keys[0]@, relay_nonce_spec(tag, dir, seq), data) {
            None => None,
            Some(inner) => peeled(keys.drop_first(), tag, dir, seq, inner),
        }
    }
}

/// A layer opens to what it was put on, and is a tag longer.
pub open spec fn layer_fits(key: Seq<u8>, nonce: Seq<u8>, data: Seq<u8>) -> bool {
    &&& opened(key, nonce, sealed(key, nonce, data)) == Some(data)
    &&& sealed(key, nonce, data).len() == data.len() + AEAD_TAG
}

/// Each key opens its layer of an onion, and finds the onion of the keys behind
/// it, which is a tag shorter.
pub open spec fn onion_opens(
    keys: Seq<[u8; 32]>,
    tag: Seq<u8>,
    dir: u8,
    seq: u32,
    msg: Seq<u8>,
) -> bool
    decreases keys.len(),
{
    keys.len() > 0 ==> {
        &&& layer_fits(
            keys[0]@,
            relay_nonce_spec(tag, dir, seq),
            onion(keys.drop_first(), tag, dir, seq, msg),
        )
        &&& onion_opens(keys.drop_first(), tag, dir, seq, msg)
    }
}

/// Where each layer opens, the message is under them all.
pub proof fn law_onion_peels(
    keys: Seq<[u8; 32]>,
    tag: Seq<u8>,
    dir: u8,
    seq: u32,
    msg: Seq<u8>,
)
    requires
        onion_opens(keys, tag, dir, seq, msg),
    ensures
        peeled(keys, tag, dir, seq, onion(keys, tag, dir, seq, msg)) == Some(msg),
    decreases keys.len(),
{
    if keys.len() > 0 {
        law_onion_peels(keys.drop_first(), tag, dir, seq, msg);
    }
}

/// Where each layer opens, an onion is a tag longer for each than its message.
pub proof fn law_onion_len(keys: Seq<[u8; 32]>, tag: Seq<u8>, dir: u8, seq: u32, msg: Seq<u8>)
    requires
        onion_opens(keys, tag, dir, seq, msg),
    ensures
        onion(keys, tag, dir, seq, msg).len() == msg.len() + AEAD_TAG * keys.len(),
    decreases keys.len(),
{
    if keys.len() > 0 {
        law_onion_len(keys.drop_first(), tag, dir, seq, msg);
    }
}

/// Puts a message under one layer for each key.
fn wrap(keys: &[[u8; 32]], tag: &[u8; 16], dir: u8, seq: u32, msg: &[u8]) -> (out: Vec<u8>)
    requires
        dir == DIR_FWD || dir == DIR_BWD,
        keys@.len() > 0 ==> msg@.len() + AEAD_TAG * (keys@.len() - 1) <= AEAD_MAX,
    ensures
        out@ == onion(keys@, tag@, dir, seq, msg@),
        out@.len() == msg@.len() + AEAD_TAG * keys@.len(),
        onion_opens(keys@, tag@, dir, seq, msg@),
{
    let mut out: Vec<u8> = Vec::with_capacity(msg.len());
    append(&mut out, msg);
    assert(out@ =~= msg@);
    let nonce = relay_nonce(tag, dir, seq);
    let mut i: usize = keys.len();
    assert(keys@.skip(i as int).len() == 0);
    while i > 0
        invariant
            i <= keys@.len(),
            keys@.len() > 0 ==> msg@.len() + AEAD_TAG * (keys@.len() - 1) <= AEAD_MAX,
            nonce@ == relay_nonce_spec(tag@, dir, seq),
            out@ == onion(keys@.skip(i as int), tag@, dir, seq, msg@),
            out@.len() == msg@.len() + AEAD_TAG * (keys@.len() - i),
            onion_opens(keys@.skip(i as int), tag@, dir, seq, msg@),
        decreases i,
    {
        i -= 1;
        let ghost rest = keys@.skip(i as int);
        assert(rest.drop_first() =~= keys@.skip(i + 1));
        assert(rest[0] == keys@[i as int]);
        out = seal(&keys[i], &nonce, out.as_slice());
    }
    assert(keys@.skip(0) =~= keys@);
    out
}

/// Puts a message under the forward layers of a route, the first hop's
/// outermost. Each hop opens one layer.
pub fn seal_onion(keys: &[[u8; 32]], tag: &[u8; 16], seq: u32, msg: &[u8]) -> (out: Vec<u8>)
    requires
        keys@.len() > 0 ==> msg@.len() + AEAD_TAG * (keys@.len() - 1) <= AEAD_MAX,
    ensures
        out@ == onion(keys@, tag@, DIR_FWD, seq, msg@),
        out@.len() == msg@.len() + AEAD_TAG * keys@.len(),
        onion_opens(keys@, tag@, DIR_FWD, seq, msg@),
{
    wrap(keys, tag, DIR_FWD, seq, msg)
}

/// Opens one forward layer.
pub fn open_onion(key: &[u8; 32], tag: &[u8; 16], seq: u32, onion: &[u8]) -> (r: Result<
    Vec<u8>,
    NetError,
>)
    ensures
        match r {
            Ok(inner) => {
                &&& opened(key@, relay_nonce_spec(tag@, DIR_FWD, seq), onion@) == Some(inner@)
                &&& inner@.len() + AEAD_TAG == onion@.len()
                &&& sealed(key@, relay_nonce_spec(tag@, DIR_FWD, seq), inner@) == onion@
            },
            Err(e) => opened(key@, relay_nonce_spec(tag@, DIR_FWD, seq), onion@) is None && e
                == NetError::Crypto(crate::CryptoError::Aead),
        },
{
    match open(key, &relay_nonce(tag, DIR_FWD, seq), onion) {
        Ok(inner) => Ok(inner),
        Err(e) => Err(NetError::from(e)),
    }
}

/// Adds one backward layer.
pub fn seal_bwd(key: &[u8; 32], tag: &[u8; 16], seq: u32, msg: &[u8]) -> (out: Vec<u8>)
    requires
        msg@.len() <= AEAD_MAX,
    ensures
        out@ == sealed(key@, relay_nonce_spec(tag@, DIR_BWD, seq), msg@),
        out@.len() == msg@.len() + AEAD_TAG,
        opened(key@, relay_nonce_spec(tag@, DIR_BWD, seq), out@) == Some(msg@),
{
    seal(key, &relay_nonce(tag, DIR_BWD, seq), msg)
}

/// Opens one backward layer.
pub fn open_bwd(key: &[u8; 32], tag: &[u8; 16], seq: u32, onion: &[u8]) -> (r: Result<
    Vec<u8>,
    NetError,
>)
    ensures
        match r {
            Ok(inner) => {
                &&& opened(key@, relay_nonce_spec(tag@, DIR_BWD, seq), onion@) == Some(inner@)
                &&& inner@.len() + AEAD_TAG == onion@.len()
                &&& sealed(key@, relay_nonce_spec(tag@, DIR_BWD, seq), inner@) == onion@
            },
            Err(e) => opened(key@, relay_nonce_spec(tag@, DIR_BWD, seq), onion@) is None && e
                == NetError::Crypto(crate::CryptoError::Aead),
        },
{
    match open(key, &relay_nonce(tag, DIR_BWD, seq), onion) {
        Ok(inner) => Ok(inner),
        Err(e) => Err(NetError::from(e)),
    }
}

/// Puts a message under the backward layers of a route, the first hop's
/// outermost.
pub fn seal_onion_bwd(keys: &[[u8; 32]], tag: &[u8; 16], seq: u32, msg: &[u8]) -> (out: Vec<u8>)
    requires
        keys@.len() > 0 ==> msg@.len() + AEAD_TAG * (keys@.len() - 1) <= AEAD_MAX,
    ensures
        out@ == onion(keys@, tag@, DIR_BWD, seq, msg@),
        out@.len() == msg@.len() + AEAD_TAG * keys@.len(),
        onion_opens(keys@, tag@, DIR_BWD, seq, msg@),
        peeled(keys@, tag@, DIR_BWD, seq, out@) == Some(msg@),
{
    let out = wrap(keys, tag, DIR_BWD, seq, msg);
    proof {
        law_onion_peels(keys@, tag@, DIR_BWD, seq, msg@);
    }
    out
}

/// Opens the backward layers of a route, the first hop's first. It finds a
/// message where the onion is what putting that message under the layers gives,
/// and else it finds none.
pub fn open_onion_bwd(keys: &[[u8; 32]], tag: &[u8; 16], seq: u32, onion: &[u8]) -> (r: Result<
    Vec<u8>,
    NetError,
>)
    ensures
        match r {
            Ok(msg) => {
                &&& peeled(keys@, tag@, DIR_BWD, seq, onion@) == Some(msg@)
                &&& onion@ == crate::cell::onion(keys@, tag@, DIR_BWD, seq, msg@)
                &&& msg@.len() + AEAD_TAG * keys@.len() == onion@.len()
            },
            Err(e) => {
                &&& peeled(keys@, tag@, DIR_BWD, seq, onion@) is None
                &&& e == NetError::Crypto(crate::CryptoError::Aead)
            },
        },
        forall|m: Seq<u8>| #[trigger]
            onion_opens(keys@, tag@, DIR_BWD, seq, m) && onion@ == crate::cell::onion(
                keys@,
                tag@,
                DIR_BWD,
                seq,
                m,
            ) ==> r is Ok && r->Ok_0@ == m,
{
    let mut data: Vec<u8> = Vec::with_capacity(onion.len());
    append(&mut data, onion);
    assert(data@ =~= onion@);
    let mut i: usize = 0;
    assert(keys@.skip(0) =~= keys@);
    proof {
        assert forall|m: Seq<u8>| #[trigger]
            onion_opens(keys@, tag@, DIR_BWD, seq, m) && onion@ == crate::cell::onion(
                keys@,
                tag@,
                DIR_BWD,
                seq,
                m,
            ) implies peeled(keys@, tag@, DIR_BWD, seq, onion@) == Some(m) by {
            law_onion_peels(keys@, tag@, DIR_BWD, seq, m);
        }
    }
    while i < keys.len()
        invariant
            i <= keys@.len(),
            data@.len() + AEAD_TAG * i == onion@.len(),
            peeled(keys@.skip(i as int), tag@, DIR_BWD, seq, data@) == peeled(
                keys@,
                tag@,
                DIR_BWD,
                seq,
                onion@,
            ),
            forall|m: Seq<u8>|
                data@ == #[trigger] crate::cell::onion(
                    keys@.skip(i as int),
                    tag@,
                    DIR_BWD,
                    seq,
                    m,
                ) ==> onion@ == crate::cell::onion(keys@, tag@, DIR_BWD, seq, m),
            forall|m: Seq<u8>| #[trigger]
                onion_opens(keys@, tag@, DIR_BWD, seq, m) && onion@ == crate::cell::onion(
                    keys@,
                    tag@,
                    DIR_BWD,
                    seq,
                    m,
                ) ==> peeled(keys@, tag@, DIR_BWD, seq, onion@) == Some(m),
        decreases keys@.len() - i,
    {
        let ghost rest = keys@.skip(i as int);
        let ghost before = data@;
        assert(rest.drop_first() =~= keys@.skip(i + 1));
        assert(rest[0] == keys@[i as int]);
        match open_bwd(&keys[i], tag, seq, data.as_slice()) {
            Ok(inner) => {
                data = inner;
            },
            Err(e) => {
                return Err(e);
            },
        }
        proof {
            assert forall|m: Seq<u8>|
                data@ == #[trigger] crate::cell::onion(
                    keys@.skip(i + 1),
                    tag@,
                    DIR_BWD,
                    seq,
                    m,
                ) implies onion@ == crate::cell::onion(keys@, tag@, DIR_BWD, seq, m) by {
                assert(before == crate::cell::onion(rest, tag@, DIR_BWD, seq, m));
            }
        }
        i += 1;
    }
    assert(keys@.skip(i as int).len() == 0);
    assert(data@ == crate::cell::onion(keys@.skip(i as int), tag@, DIR_BWD, seq, data@));
    Ok(data)
}

/// The payload of a padding cell: how many cells are to keep the link busy.
pub fn padding_payload(n_cells: u16) -> (p: Vec<u8>)
    ensures
        p@ == le_bytes(n_cells as nat, 2),
        p@.len() == 2,
{
    let mut p: Vec<u8> = Vec::with_capacity(2);
    put_u16(&mut p, n_cells);
    proof {
        lemma_le_bytes_len(n_cells as nat, 2);
        assert(p@ =~= le_bytes(n_cells as nat, 2));
    }
    p
}

/// A part that comes in touches its own place alone, and only where that is
/// empty: what came first stays, and a number beyond the last is ignored.
pub proof fn law_first_copy_stays(got: Seq<Option<Seq<u8>>>, idx: u16, chunk: Seq<u8>, i: int)
    requires
        0 <= i < got.len(),
    ensures
        frag_put(got, idx, chunk).len() == got.len(),
        i != idx ==> frag_put(got, idx, chunk)[i] == got[i],
        got[i] is Some ==> frag_put(got, idx, chunk)[i] == got[i],
        got[i] is None && i == idx ==> frag_put(got, idx, chunk)[i] == Some(chunk),
{
}

/// What came in for a circuit counts on only where the number of parts is still
/// the same. With another number, and for a circuit that nothing came in for,
/// every part is missing.
pub proof fn law_other_total_restarts(map: Map<u32, FragBuf>, cid: u32, total: u16, i: int)
    requires
        frags_wf(map),
        0 <= i < total,
    ensures
        frags_before(map, cid, total).len() == total,
        !map.contains_key(cid) || map[cid].total != total ==> frags_before(map, cid, total)[i]
            is None,
        map.contains_key(cid) && map[cid].total == total ==> match map[cid].got@[i] {
            Some(c) => frags_before(map, cid, total)[i] == Some(c@),
            None => frags_before(map, cid, total)[i] is None,
        },
{
}

/// A payload is cut without waste: every chunk but the last is full, the last is
/// empty only where the payload is, and chunk `i` begins behind `i` full ones.
pub proof fn law_chunks_full(payload: Seq<u8>, i: int)
    requires
        0 <= i < chunk_count(payload.len()),
    ensures
        chunk(payload, i).len() <= 1268,
        i + 1 < chunk_count(payload.len()) ==> chunk(payload, i).len() == 1268,
        i + 1 == chunk_count(payload.len()) ==> 1268 * i + chunk(payload, i).len()
            == payload.len(),
        payload.len() > 0 ==> chunk(payload, i).len() > 0,
        payload.len() == 0 ==> chunk_count(payload.len()) == 1,
        forall|k: int|
            0 <= k < chunk(payload, i).len() ==> #[trigger] chunk(payload, i)[k] == payload[1268 * i
                + k],
{
    assert(FRAG_CHUNK == 1268);
    lemma_chunk_bounds(payload.len(), i);
    assert(i * FRAG_CHUNK == 1268 * i);
}

/// The first hop opens the outermost layer, and finds what a route without it
/// would have been sent.
pub proof fn law_first_hop_opens(
    keys: Seq<[u8; 32]>,
    tag: Seq<u8>,
    dir: u8,
    seq: u32,
    msg: Seq<u8>,
)
    requires
        keys.len() > 0,
        onion_opens(keys, tag, dir, seq, msg),
    ensures
        opened(keys[0]@, relay_nonce_spec(tag, dir, seq), onion(keys, tag, dir, seq, msg)) == Some(
            onion(keys.skip(1), tag, dir, seq, msg),
        ),
        keys.len() == 1 ==> onion(keys.skip(1), tag, dir, seq, msg) == msg,
{
    assert(keys.skip(1) =~= keys.drop_first());
}

/// Where everything stands in the bytes of a cell: number, command, flags, the
/// length of the payload, the payload, and zeros to the end.
pub proof fn law_cell_layout(c: CellView, i: int)
    requires
        c.wf(),
        8 + c.payload.len() <= i < 1280,
    ensures
        ({
            let b = c.bytes();
            &&& b.len() == 1280
            &&& le_value(b.subrange(0, 4)) == c.cid
            &&& b[4] == match c.cmd {
                Cmd::Create => 1u8,
                Cmd::Created => 2u8,
                Cmd::Destroy => 3u8,
                Cmd::Relay => 4u8,
                Cmd::Padding => 5u8,
            }
            &&& b[5] == c.flags
            &&& le_value(b.subrange(6, 8)) == c.payload.len()
            &&& b.subrange(8, 8 + c.payload.len() as int) == c.payload
            &&& b[i] == 0
        }),
{
    let b = c.bytes();
    law_cell_roundtrip(c);
    lemma_pow256();
    lemma_le_value_of_bytes(c.cid as nat, 4);
    lemma_le_value_of_bytes(c.payload.len(), 2);
    assert(b.subrange(0, 4) =~= le_bytes(c.cid as nat, 4));
    assert(b.subrange(6, 8) =~= le_bytes(c.payload.len(), 2));
    assert(b.subrange(8, 8 + c.payload.len() as int) =~= c.payload);
}

/// Which byte strings are cells, and how the others are refused: first for their
/// length, then for a payload that they have no room for, and last for a command
/// that is none.
pub proof fn law_cell_refused(b: Seq<u8>)
    requires
        b.len() <= usize::MAX,
    ensures
        b.len() != 1280 ==> cell_of(b) == Err::<CellView, NetError>(
            NetError::BadLength(b.len() as usize),
        ),
        b.len() == 1280 && le_value(b.subrange(6, 8)) > 1272 ==> cell_of(b) == Err::<
            CellView,
            NetError,
        >(NetError::TooShort),
        b.len() == 1280 && le_value(b.subrange(6, 8)) <= 1272 && !(1 <= b[4] <= 5) ==> cell_of(b)
            == Err::<CellView, NetError>(NetError::BadCmd(b[4])),
        b.len() == 1280 && le_value(b.subrange(6, 8)) <= 1272 && 1 <= b[4] <= 5 ==> (cell_of(
            b,
        ) matches Ok(c) && c.wf() && c.cid == le_value(b.subrange(0, 4)) && c.cmd.code() == b[4]
            && c.flags == b[5] && c.payload == b.subrange(
            8,
            8 + le_value(b.subrange(6, 8)) as int,
        )),
{
    if b.len() == 1280 {
        lemma_pow256();
        crate::bytes::lemma_le_bytes_of_value(b.subrange(0, 4));
    }
}

} // verus!
