//! A bounded cache of blocks of the table, for a table that lives in a
//! file: the blocks last worked on are held in memory, a block that is
//! missing takes the place of one that was not used of late, and a block
//! that was changed goes back to the file before its place is taken.
//!
//! The cache decides and keeps the books; reading and writing the file is
//! left to its user.

use vstd::prelude::*;
use vstd::seq_lib::*;
use vstd::set_lib::{lemma_int_range, lemma_len_subset, set_int_range};
use crate::state::{lemma_bytes_status, lemma_serialize_roundtrip, State, Status};

verus! {

/// The number of boards in a block.
pub const BLOCK: usize = 1024;

/// The number of bytes that a state takes in the file.
pub const RECORD: usize = 2;

/// The number of places that count as used of late.
pub const RECENT: usize = 4;

/// The number of bytes that a block takes in the file: `BLOCK` times
/// `RECORD`.
pub const BLOCK_BYTES: usize = 2048;

/// The bytes of block `b` in the file.
pub open spec fn file_block(disk: Seq<u8>, b: int) -> Seq<u8> {
    disk.subrange(b * BLOCK_BYTES, (b + 1) * BLOCK_BYTES)
}

/// The file with the bytes of block `b` written anew.
pub open spec fn file_with(disk: Seq<u8>, b: int, bytes: Seq<u8>) -> Seq<u8> {
    Seq::new(
        disk.len(),
        |i: int|
            if b * BLOCK_BYTES <= i < (b + 1) * BLOCK_BYTES {
                bytes[i - b * BLOCK_BYTES]
            } else {
                disk[i]
            },
    )
}

/// The status of the board with code `c` as the file has it.
pub open spec fn file_status(disk: Seq<u8>, c: int) -> Status {
    Status::from_bytes(disk[RECORD * c], disk[RECORD * c + 1])
}

/// The statuses that states stand for.
pub open spec fn statuses(v: Seq<State>) -> Seq<Status> {
    v.map_values(|s: State| s@)
}

/// The bytes that stand for a block in the file: the bytes of its
/// statuses, one after the other.
pub open spec fn block_bytes(s: Seq<Status>) -> Seq<u8> {
    Seq::new(s.len() * RECORD as nat, |i: int| s[i / (RECORD as int)].bytes()[i % (RECORD as int)])
}

/// No two blocks of states share their bytes.
pub proof fn lemma_block_bytes_injective(a: Seq<State>, b: Seq<State>)
    requires
        block_bytes(statuses(a)) == block_bytes(statuses(b)),
    ensures
        statuses(a) == statuses(b),
{
    let x = block_bytes(statuses(a));
    let y = block_bytes(statuses(b));
    assert(x.len() == y.len());
    assert(a.len() == b.len());
    assert forall|i: int| 0 <= i < a.len() implies statuses(a)[i] == statuses(b)[i] by {
        assert(x[2 * i] == y[2 * i]);
        assert(x[2 * i + 1] == y[2 * i + 1]);
        assert(a[i]@.bytes() =~= b[i]@.bytes());
        lemma_serialize_roundtrip(a[i], b[i]);
    }
    assert(statuses(a) =~= statuses(b));
}

/// The bytes that stand for a block of states in the file.
pub fn pack(data: &Vec<State>) -> (res: Vec<u8>)
    requires
        data@.len() <= BLOCK,
    ensures
        res@ == block_bytes(statuses(data@)),
{
    let ghost want = block_bytes(statuses(data@));
    let mut out: Vec<u8> = Vec::new();
    let mut i: usize = 0;
    while i < data.len()
        invariant
            i <= data@.len(),
            data@.len() <= BLOCK,
            want == block_bytes(statuses(data@)),
            out@.len() == 2 * i,
            forall|j: int| 0 <= j < 2 * i ==> out@[j] == want[j],
        decreases data@.len() - i,
    {
        let b = data[i].serialize();
        out.push(b[0]);
        out.push(b[1]);
        i = i + 1;
    }
    assert(out@ =~= want);
    out
}

/// The block of states that bytes of the file stand for.
pub fn unpack(bytes: &Vec<u8>) -> (res: Vec<State>)
    requires
        bytes@.len() % 2 == 0,
    ensures
        res@.len() * RECORD == bytes@.len(),
        block_bytes(statuses(res@)) == bytes@,
{
    let mut out: Vec<State> = Vec::new();
    let mut i: usize = 0;
    let n: usize = bytes.len() / 2;
    while i < n
        invariant
            i <= n,
            2 * n == bytes@.len(),
            bytes@.len() <= usize::MAX,
            bytes@.len() % 2 == 0,
            out@.len() == i,
            forall|j: int| 0 <= j < i ==> (#[trigger] out@[j])@.bytes() == seq![
                bytes@[2 * j],
                bytes@[2 * j + 1],
            ],
        decreases n - i,
    {
        let s = State::deserialize([bytes[2 * i], bytes[2 * i + 1]]);
        assert(s@.bytes() =~= seq![bytes@[2 * i], bytes@[2 * i + 1]]);
        out.push(s);
        i = i + 1;
    }
    proof {
        let got = block_bytes(statuses(out@));
        assert forall|j: int| 0 <= j < bytes@.len() implies got[j] == bytes@[j] by {
            let k = j / 2;
            assert(out@[k]@.bytes() == seq![bytes@[2 * k], bytes@[2 * k + 1]]);
        }
        assert(got =~= bytes@);
    }
    out
}

/// A place of the cache: the block that it holds, if any, and whether the
/// block was changed since it was read.
struct Slot {
    block: Option<usize>,
    data: Vec<State>,
    dirty: bool,
}

/// The cache: a fixed number of places, and the places used of late.
pub struct BlockCache {
    slots: Vec<Slot>,
    recent: Vec<usize>,
}

impl BlockCache {
    /// The number of places.
    pub closed spec fn capacity(&self) -> int {
        self.slots@.len() as int
    }

    /// The block that place `k` holds, if it holds one.
    pub closed spec fn holder(&self, k: int) -> Option<usize> {
        self.slots@[k].block
    }

    /// What place `k` holds of its block.
    pub closed spec fn content(&self, k: int) -> Seq<Status> {
        statuses(self.slots@[k].data@)
    }

    /// Whether the block in place `k` was changed since it was read.
    pub closed spec fn dirty(&self, k: int) -> bool {
        self.slots@[k].dirty
    }

    /// The places used of late, the latest last.
    pub closed spec fn recent(&self) -> Seq<usize> {
        self.recent@
    }

    /// The cache is in order: it has more places than count as used of
    /// late, every place has room for a block, and no block is held twice.
    pub closed spec fn wf(&self) -> bool {
        &&& RECENT < self.slots@.len()
        &&& self.recent@.len() <= RECENT
        &&& forall|i: int| 0 <= i < self.recent@.len() ==>
            #[trigger] self.recent@[i] < self.slots@.len()
        &&& forall|k: int|
            0 <= k < self.slots@.len() ==> (#[trigger] self.slots@[k]).data@.len() == BLOCK
        &&& forall|j: int, k: int|
            0 <= j < k < self.slots@.len() && (#[trigger] self.slots@[j]).block is Some
                ==> self.slots@[j].block != (#[trigger] self.slots@[k]).block
    }

    /// Block `b` is in the cache.
    pub open spec fn cached(&self, b: int) -> bool {
        exists|k: int| 0 <= k < self.capacity() && #[trigger] self.holder(k) == Some(b as usize)
    }

    /// The place that holds block `b`.
    pub open spec fn place_of(&self, b: int) -> int {
        choose|k: int| 0 <= k < self.capacity() && #[trigger] self.holder(k) == Some(b as usize)
    }

    /// The status of the board with code `c` in the table that the file
    /// `disk` and the cache stand for together: what the cache holds of it,
    /// or else what the file has.
    pub open spec fn status_at(&self, disk: Seq<u8>, c: int) -> Status {
        if self.cached(c / (BLOCK as int)) {
            self.content(self.place_of(c / (BLOCK as int)))[c % (BLOCK as int)]
        } else {
            file_status(disk, c)
        }
    }

    /// Every block in the cache that does not count as changed is as the
    /// file `disk` has it.
    pub open spec fn in_sync(&self, disk: Seq<u8>) -> bool {
        forall|k: int|
            0 <= k < self.capacity() && (#[trigger] self.holder(k)) is Some && !self.dirty(k)
                ==> file_block(disk, self.holder(k)->0 as int) == block_bytes(self.content(k))
    }

    /// Place `k` is as it was in `old`.
    pub open spec fn same_slot(&self, old: &BlockCache, k: int) -> bool {
        &&& self.holder(k) == old.holder(k)
        &&& self.content(k) == old.content(k)
        &&& self.dirty(k) == old.dirty(k)
    }

    /// All places but place `k` are as they were in `old`.
    pub open spec fn same_but(&self, old: &BlockCache, k: int) -> bool {
        &&& self.capacity() == old.capacity()
        &&& forall|j: int| 0 <= j < self.capacity() && j != k ==> #[trigger] self.same_slot(old, j)
    }

    /// A cache with `capacity` empty places.
    pub fn new(capacity: usize) -> (res: BlockCache)
        requires
            RECENT < capacity,
        ensures
            res.wf(),
            res.capacity() == capacity,
            res.recent().len() == 0,
            forall|k: int| 0 <= k < capacity ==> #[trigger] res.holder(k) is None,
    {
        let mut slots: Vec<Slot> = Vec::new();
        let mut k: usize = 0;
        while k < capacity
            invariant
                k <= capacity,
                slots@.len() == k,
                forall|j: int|
                    0 <= j < k ==> (#[trigger] slots@[j]).block is None && slots@[j].data@.len()
                        == BLOCK,
            decreases capacity - k,
        {
            let mut data: Vec<State> = Vec::new();
            let mut i: usize = 0;
            while i < BLOCK
                invariant
                    i <= BLOCK,
                    data@.len() == i,
                decreases BLOCK - i,
            {
                data.push(State::default());
                i = i + 1;
            }
            slots.push(Slot { block: None, data, dirty: false });
            k = k + 1;
        }
        BlockCache { slots, recent: Vec::new() }
    }

    /// The place that holds block `block`, if one does.
    pub fn find(&self, block: usize) -> (res: Option<usize>)
        requires
            self.wf(),
        ensures
            match res {
                Some(k) => k < self.capacity() && self.holder(k as int) == Some(block),
                None => forall|k: int| 0 <= k < self.capacity() ==> #[trigger] self.holder(k)
                    != Some(block),
            },
    {
        let mut k: usize = 0;
        while k < self.slots.len()
            invariant
                k <= self.slots@.len(),
                forall|j: int| 0 <= j < k ==> (#[trigger] self.slots@[j]).block != Some(block),
            decreases self.slots@.len() - k,
        {
            match self.slots[k].block {
                Some(b) => {
                    if b == block {
                        return Some(k);
                    }
                },
                None => {},
            }
            k = k + 1;
        }
        None
    }

    /// Whether place `k` counts as used of late.
    fn is_recent(&self, k: usize) -> (res: bool)
        ensures
            res == self.recent@.contains(k),
    {
        let mut i: usize = 0;
        while i < self.recent.len()
            invariant
                i <= self.recent@.len(),
                forall|j: int| 0 <= j < i ==> self.recent@[j] != k,
            decreases self.recent@.len() - i,
        {
            if self.recent[i] == k {
                return true;
            }
            i = i + 1;
        }
        false
    }

    /// The place to take for a block that is missing: an empty place if
    /// there is one, and in any case a place that was not used of late.
    pub fn victim(&self) -> (res: usize)
        requires
            self.wf(),
        ensures
            res < self.capacity(),
            !self.recent().contains(res),
            (exists|k: usize|
                k < self.capacity() && self.holder(k as int) is None && !#[trigger] self.recent(
                    ).contains(
                    k,
                )) ==> self.holder(res as int) is None,
    {
        // an empty place that was not used of late
        let mut k: usize = 0;
        while k < self.slots.len()
            invariant
                k <= self.slots@.len(),
                forall|j: usize|
                    j < k ==> !(self.slots@[j as int].block is None
                        && !#[trigger] self.recent@.contains(
                        j,
                    )),
            decreases self.slots@.len() - k,
        {
            if self.slots[k].block.is_none() && !self.is_recent(k) {
                return k;
            }
            k = k + 1;
        }
        // the first place that was not used of late
        let mut k: usize = 0;
        while k < self.slots.len()
            invariant
                k <= self.slots@.len(),
                self.wf(),
                forall|j: usize| j < k ==> #[trigger] self.recent@.contains(j),
                forall|j: usize|
                    j < self.slots@.len() ==> !(self.slots@[j as int].block is None
                        && !#[trigger] self.recent@.contains(j)),
            decreases self.slots@.len() - k,
        {
            if !self.is_recent(k) {
                return k;
            }
            k = k + 1;
        }
        proof {
            lemma_all_recent(self.recent@, self.slots@.len() as int);
        }
        0
    }

    /// Counts place `k` as the place used last.
    fn touch(&mut self, k: usize)
        requires
            old(self).wf(),
            k < old(self).capacity(),
        ensures
            final(self).wf(),
            final(self).slots == old(self).slots,
            final(self).recent@.len() > 0,
            final(self).recent@.last() == k,
    {
        let n = self.recent.len();
        if n > 0 && self.recent[n - 1] == k {
            return;
        }
        if n == RECENT {
            self.recent.remove(0);
        }
        self.recent.push(k);
    }

    /// Empties place `k`. Returns its block with the bytes to write to
    /// the file, if the block was changed since it was read.
    pub fn evict(&mut self, k: usize) -> (res: Option<(usize, Vec<u8>)>)
        requires
            old(self).wf(),
            k < old(self).capacity(),
        ensures
            final(self).wf(),
            final(self).same_but(old(self), k as int),
            final(self).recent() == old(self).recent(),
            final(self).holder(k as int) is None,
            !final(self).dirty(k as int),
            match res {
                Some((b, bytes)) => old(self).dirty(k as int) && old(self).holder(k as int)
                    == Some(b) && bytes@ == block_bytes(old(self).content(k as int)),
                None => !old(self).dirty(k as int) || old(self).holder(k as int) is None,
            },
    {
        let res = self.flush(k);
        let ghost mid = *self;
        self.slots[k].block = None;
        proof {
            lemma_place_changed(&mid, self, k as int);
            assert forall|j: int| 0 <= j < self.capacity() && j != k implies
                #[trigger] self.same_slot(
                old(self),
                j,
            ) by {
                assert(self.same_slot(&mid, j));
                assert(mid.same_slot(old(self), j));
            }
        }
        res
    }

    /// Fills the empty place `k` with block `block`, as the bytes read from
    /// the file give it.
    pub fn load(&mut self, k: usize, block: usize, bytes: &Vec<u8>)
        requires
            old(self).wf(),
            k < old(self).capacity(),
            old(self).holder(k as int) is None,
            forall|j: int| 0 <= j < old(self).capacity() ==> #[trigger] old(self).holder(j) != Some(
                block,
            ),
            bytes@.len() == BLOCK * RECORD,
        ensures
            final(self).wf(),
            final(self).same_but(old(self), k as int),
            final(self).recent() == old(self).recent(),
            final(self).holder(k as int) == Some(block),
            block_bytes(final(self).content(k as int)) == bytes@,
            !final(self).dirty(k as int),
    {
        let data = unpack(bytes);
        let ghost before = self.slots@;
        self.slots[k] = Slot { block: Some(block), data, dirty: false };
        proof {
            assert forall|j: int| 0 <= j < self.capacity() && j != k implies
                #[trigger] self.same_slot(
                old(self),
                j,
            ) by {
                assert(self.slots@[j] == before[j]);
            }
            assert forall|i: int, j: int|
                0 <= i < j < self.slots@.len() && (#[trigger] self.slots@[i]).block is Some implies
                    self.slots@[i].block
                != (#[trigger] self.slots@[j]).block by {
                if i != k && j != k {
                    assert(before[i].block != before[j].block);
                } else if i == k {
                    assert(old(self).holder(j) != Some(block));
                } else {
                    assert(old(self).holder(i) != Some(block));
                }
            }
        }
    }

    /// The state at offset `off` of the block in place `k`; the place
    /// counts as used last.
    pub fn get(&mut self, k: usize, off: usize) -> (res: State)
        requires
            old(self).wf(),
            k < old(self).capacity(),
            old(self).holder(k as int) is Some,
            off < BLOCK,
        ensures
            final(self).wf(),
            final(self).same_but(old(self), k as int),
            final(self).same_slot(old(self), k as int),
            final(self).recent().len() > 0,
            final(self).recent().last() == k,
            res@ == old(self).content(k as int)[off as int],
    {
        self.touch(k);
        assert(self.slots@[k as int].data@.len() == BLOCK);
        self.slots[k].data[off]
    }

    /// Sets the state at offset `off` of the block in place `k`; the
    /// block counts as changed, the place as used last.
    pub fn set(&mut self, k: usize, off: usize, s: State)
        requires
            old(self).wf(),
            k < old(self).capacity(),
            old(self).holder(k as int) is Some,
            off < BLOCK,
        ensures
            final(self).wf(),
            final(self).same_but(old(self), k as int),
            final(self).holder(k as int) == old(self).holder(k as int),
            final(self).content(k as int) == old(self).content(k as int).update(off as int, s@),
            final(self).dirty(k as int),
            final(self).recent().len() > 0,
            final(self).recent().last() == k,
    {
        self.touch(k);
        let ghost mid = *self;
        assert(self.slots@[k as int].data@.len() == BLOCK);
        self.slots[k].data[off] = s;
        self.slots[k].dirty = true;
        proof {
            assert(self.content(k as int) =~= old(self).content(k as int).update(off as int, s@));
            lemma_place_changed(&mid, self, k as int);
        }
    }

    /// The block of place `k` with the bytes to write to the file, if the
    /// block was changed since it was read or last written; it then counts
    /// as unchanged.
    pub fn flush(&mut self, k: usize) -> (res: Option<(usize, Vec<u8>)>)
        requires
            old(self).wf(),
            k < old(self).capacity(),
        ensures
            final(self).wf(),
            final(self).same_but(old(self), k as int),
            final(self).recent() == old(self).recent(),
            final(self).holder(k as int) == old(self).holder(k as int),
            final(self).content(k as int) == old(self).content(k as int),
            !final(self).dirty(k as int),
            match res {
                Some((b, bytes)) => old(self).dirty(k as int) && old(self).holder(k as int)
                    == Some(b) && bytes@ == block_bytes(old(self).content(k as int)),
                None => !old(self).dirty(k as int) || old(self).holder(k as int) is None,
            },
    {
        let ghost before = *self;
        assert(self.slots@[k as int].data@.len() == BLOCK);
        let res = match self.slots[k].block {
            Some(b) => {
                if self.slots[k].dirty {
                    Some((b, pack(&self.slots[k].data)))
                } else {
                    None
                }
            },
            None => None,
        };
        self.slots[k].dirty = false;
        proof {
            lemma_place_changed(&before, self, k as int);
        }
        res
    }
}

/// A change of place `k` that leaves the place its block, or empties it,
/// keeps the cache in order and the other places as they were.
proof fn lemma_place_changed(a: &BlockCache, b: &BlockCache, k: int)
    requires
        a.wf(),
        0 <= k < a.capacity(),
        b.recent@ == a.recent@,
        b.slots@.len() == a.slots@.len(),
        forall|j: int| 0 <= j < a.slots@.len() && j != k ==> b.slots@[j] == a.slots@[j],
        b.slots@[k].block == a.slots@[k].block || b.slots@[k].block is None,
        b.slots@[k].data@.len() == BLOCK,
    ensures
        b.wf(),
        b.same_but(a, k),
{
    assert forall|j: int| 0 <= j < b.capacity() && j != k implies #[trigger] b.same_slot(a, j) by {
        assert(b.slots@[j] == a.slots@[j]);
    }
    assert forall|i: int, j: int|
        0 <= i < j < b.slots@.len() && (#[trigger] b.slots@[i]).block is Some implies
            b.slots@[i].block
        != (#[trigger] b.slots@[j]).block by {
        assert(a.slots@[i].block != a.slots@[j].block);
    }
    assert forall|j: int| 0 <= j < b.slots@.len() implies (#[trigger] b.slots@[j]).data@.len()
        == BLOCK by {
        if j != k {
            assert(b.slots@[j] == a.slots@[j]);
        }
    }
}

/// A block is held by one place only.
pub proof fn lemma_one_place(a: &BlockCache, k: int, b: int)
    requires
        a.wf(),
        0 <= k < a.capacity(),
        a.holder(k) == Some(b as usize),
        0 <= b <= usize::MAX,
    ensures
        a.cached(b),
        a.place_of(b) == k,
{
    let j = a.place_of(b);
    if j < k {
        assert(a.slots@[j].block != a.slots@[k].block);
    } else if k < j {
        assert(a.slots@[k].block != a.slots@[j].block);
    }
}

/// A place holds a whole block, and the bytes of what it holds stand for
/// what it holds.
pub proof fn lemma_content(a: &BlockCache, k: int, off: int)
    requires
        a.wf(),
        0 <= k < a.capacity(),
        0 <= off < BLOCK,
    ensures
        a.content(k).len() == BLOCK,
        block_bytes(a.content(k)).len() == BLOCK_BYTES,
        Status::from_bytes(
            block_bytes(a.content(k))[RECORD * off],
            block_bytes(a.content(k))[RECORD * off + 1],
        ) == a.content(k)[off],
{
    assert(a.slots@[k].data@.len() == BLOCK);
    lemma_bytes_status(a.slots@[k].data@[off]);
}

/// The status of a board whose block is not in the cache, when another
/// block of the file is written: it is as before.
proof fn lemma_file_other(disk: Seq<u8>, b: int, bytes: Seq<u8>, c: int)
    requires
        0 <= b,
        (b + 1) * BLOCK_BYTES <= disk.len(),
        bytes.len() == BLOCK_BYTES,
        0 <= c,
        RECORD * c + 1 < disk.len(),
        c / (BLOCK as int) != b,
    ensures
        file_status(file_with(disk, b, bytes), c) == file_status(disk, c),
{
}

/// A block of the file, when another block is written: it is as before.
proof fn lemma_block_other(disk: Seq<u8>, b: int, bytes: Seq<u8>, o: int)
    requires
        0 <= b,
        (b + 1) * BLOCK_BYTES <= disk.len(),
        0 <= o,
        (o + 1) * BLOCK_BYTES <= disk.len(),
        bytes.len() == BLOCK_BYTES,
        o != b,
    ensures
        file_block(file_with(disk, b, bytes), o) == file_block(disk, o),
{
    assert(file_block(file_with(disk, b, bytes), o) =~= file_block(disk, o));
}

/// A block of the file that was written is what was written.
proof fn lemma_block_written(disk: Seq<u8>, b: int, bytes: Seq<u8>)
    requires
        0 <= b,
        (b + 1) * BLOCK_BYTES <= disk.len(),
        bytes.len() == BLOCK_BYTES,
    ensures
        file_block(file_with(disk, b, bytes), b) == bytes,
{
    assert(file_block(file_with(disk, b, bytes), b) =~= bytes);
}

/// Reading a state leaves the table as it is: if all places of cache `b`
/// are as in cache `a`, the two stand for the same table.
pub proof fn lemma_table_same(a: &BlockCache, b: &BlockCache, disk: Seq<u8>, c: int)
    requires
        a.wf(),
        b.wf(),
        b.capacity() == a.capacity(),
        forall|j: int| 0 <= j < a.capacity() ==> #[trigger] b.same_slot(a, j),
        0 <= c <= usize::MAX,
    ensures
        b.status_at(disk, c) == a.status_at(disk, c),
        a.in_sync(disk) ==> b.in_sync(disk),
{
    let blk = c / (BLOCK as int);
    if a.cached(blk) {
        let k = a.place_of(blk);
        assert(b.same_slot(a, k));
        lemma_one_place(b, k, blk);
    }
    if b.cached(blk) {
        let k = b.place_of(blk);
        assert(b.same_slot(a, k));
        lemma_one_place(a, k, blk);
    }
    if a.in_sync(disk) {
        assert forall|k: int|
            0 <= k < b.capacity() && (#[trigger] b.holder(k)) is Some && !b.dirty(k) implies
                file_block(
            disk,
            b.holder(k)->0 as int,
        ) == block_bytes(b.content(k)) by {
            assert(b.same_slot(a, k));
            assert(a.holder(k) is Some);
        }
    }
}

/// Setting a state in the cache sets it in the table: after `set`, the
/// table holds the new status for that board and is as before for all
/// others.
pub proof fn lemma_table_set(
    a: &BlockCache,
    b: &BlockCache,
    k: int,
    off: int,
    s: Status,
    disk: Seq<u8>,
    c: int,
)
    requires
        a.wf(),
        b.wf(),
        0 <= k < a.capacity(),
        a.holder(k) is Some,
        0 <= off < BLOCK,
        b.same_but(a, k),
        b.holder(k) == a.holder(k),
        b.content(k) == a.content(k).update(off, s),
        b.dirty(k),
        0 <= c <= usize::MAX,
    ensures
        b.status_at(disk, c) == if c == (a.holder(k)->0) * BLOCK + off {
            s
        } else {
            a.status_at(disk, c)
        },
        a.in_sync(disk) ==> b.in_sync(disk),
{
    let blk = c / (BLOCK as int);
    let held = a.holder(k)->0 as int;
    lemma_content(a, k, off);
    lemma_one_place(a, k, held);
    lemma_one_place(b, k, held);
    if blk != held {
        if a.cached(blk) {
            let j = a.place_of(blk);
            assert(b.same_slot(a, j));
            lemma_one_place(b, j, blk);
        }
        if b.cached(blk) {
            let j = b.place_of(blk);
            assert(b.same_slot(a, j));
            lemma_one_place(a, j, blk);
        }
    }
    if a.in_sync(disk) {
        assert forall|j: int|
            0 <= j < b.capacity() && (#[trigger] b.holder(j)) is Some && !b.dirty(j) implies
                file_block(
            disk,
            b.holder(j)->0 as int,
        ) == block_bytes(b.content(j)) by {
            assert(b.same_slot(a, j));
            assert(a.holder(j) is Some);
        }
    }
}

/// Loading a block leaves the table as it is, if the bytes loaded are
/// those of the block in the file.
pub proof fn lemma_table_load(
    a: &BlockCache,
    b: &BlockCache,
    k: int,
    block: int,
    disk: Seq<u8>,
    c: int,
)
    requires
        a.wf(),
        b.wf(),
        0 <= k < a.capacity(),
        0 <= block <= usize::MAX,
        (block + 1) * BLOCK_BYTES <= disk.len(),
        !a.cached(block),
        b.same_but(a, k),
        a.holder(k) is None,
        b.holder(k) == Some(block as usize),
        block_bytes(b.content(k)) == file_block(disk, block),
        !b.dirty(k),
        0 <= c <= usize::MAX,
    ensures
        b.status_at(disk, c) == a.status_at(disk, c),
        a.in_sync(disk) ==> b.in_sync(disk),
{
    let blk = c / (BLOCK as int);
    lemma_one_place(b, k, block);
    if blk == block {
        let off = c % (BLOCK as int);
        lemma_content(b, k, off);
        let bytes = file_block(disk, block);
        assert(bytes[RECORD * off] == disk[RECORD * c]);
        assert(bytes[RECORD * off + 1] == disk[RECORD * c + 1]);
    } else {
        if a.cached(blk) {
            let j = a.place_of(blk);
            assert(b.same_slot(a, j));
            lemma_one_place(b, j, blk);
        }
        if b.cached(blk) {
            let j = b.place_of(blk);
            assert(b.same_slot(a, j));
            lemma_one_place(a, j, blk);
        }
    }
    if a.in_sync(disk) {
        assert forall|j: int|
            0 <= j < b.capacity() && (#[trigger] b.holder(j)) is Some && !b.dirty(j) implies
                file_block(
            disk,
            b.holder(j)->0 as int,
        ) == block_bytes(b.content(j)) by {
            if j != k {
                assert(b.same_slot(a, j));
                assert(a.holder(j) is Some);
            }
        }
    }
}

/// Writing a block back leaves the table as it is: after `evict` or
/// `flush` of place `k`, and with the bytes that it gave written to the
/// file, file and cache stand for the same table as before, and every
/// block that does not count as changed is as the file has it.
pub proof fn lemma_table_written(
    a: &BlockCache,
    b: &BlockCache,
    k: int,
    res: Option<(usize, Seq<u8>)>,
    disk: Seq<u8>,
    c: int,
)
    requires
        a.wf(),
        b.wf(),
        0 <= k < a.capacity(),
        b.same_but(a, k),
        b.holder(k) is None || (b.holder(k) == a.holder(k) && b.content(k) == a.content(k)),
        !b.dirty(k),
        match res {
            Some((blk, bytes)) => a.dirty(k) && a.holder(k) == Some(blk) && bytes == block_bytes(
                a.content(k),
            ),
            None => !a.dirty(k) || a.holder(k) is None,
        },
        a.in_sync(disk),
        forall|j: int|
            0 <= j < a.capacity() && (#[trigger] a.holder(j)) is Some ==> (a.holder(j)->0 + 1)
                * BLOCK_BYTES <= disk.len(),
        0 <= c <= usize::MAX,
        RECORD * c + 1 < disk.len(),
    ensures
        ({
            let disk2 = match res {
                Some((blk, bytes)) => file_with(disk, blk as int, bytes),
                None => disk,
            };
            b.status_at(disk2, c) == a.status_at(disk, c) && b.in_sync(disk2)
        }),
{
    let disk2 = match res {
        Some((blk, bytes)) => file_with(disk, blk as int, bytes),
        None => disk,
    };
    let blk = c / (BLOCK as int);
    let off = c % (BLOCK as int);
    lemma_content(a, k, off);
    if a.holder(k) is Some {
        let held = a.holder(k)->0 as int;
        lemma_one_place(a, k, held);
        match res {
            Some((w, bytes)) => {
                lemma_block_written(disk, held, bytes);
            },
            None => {},
        }
        if blk == held {
            if b.holder(k) is None {
                // the block left the cache: the file has it now
                assert(!b.cached(blk)) by {
                    if b.cached(blk) {
                        let j = b.place_of(blk);
                        assert(b.same_slot(a, j));
                        lemma_one_place(a, j, blk);
                    }
                }
                let bytes = file_block(disk2, held);
                assert(bytes == block_bytes(a.content(k)));
                assert(bytes[RECORD * off] == disk2[RECORD * c]);
                assert(bytes[RECORD * off + 1] == disk2[RECORD * c + 1]);
            } else {
                lemma_one_place(b, k, held);
            }
        }
    }
    if a.holder(k) is None || blk != a.holder(k)->0 {
        if a.cached(blk) {
            let j = a.place_of(blk);
            assert(b.same_slot(a, j));
            lemma_one_place(b, j, blk);
        }
        if b.cached(blk) {
            let j = b.place_of(blk);
            if j != k {
                assert(b.same_slot(a, j));
                lemma_one_place(a, j, blk);
            }
        }
        match res {
            Some((w, bytes)) => {
                lemma_file_other(disk, w as int, bytes, c);
            },
            None => {},
        }
    }
    assert forall|j: int|
        0 <= j < b.capacity() && (#[trigger] b.holder(j)) is Some && !b.dirty(j) implies file_block(
        disk2,
        b.holder(j)->0 as int,
    ) == block_bytes(b.content(j)) by {
        if j != k {
            assert(b.same_slot(a, j));
            assert(a.holder(j) is Some);
            match res {
                Some((w, bytes)) => {
                    assert(a.slots@[j].block != a.slots@[k].block) by {
                        if j < k {
                            assert(a.slots@[j].block != a.slots@[k].block);
                        } else {
                            assert(a.slots@[k].block != a.slots@[j].block);
                        }
                    }
                    lemma_block_other(disk, w as int, bytes, a.holder(j)->0 as int);
                },
                None => {},
            }
        } else {
            assert(a.holder(k) is Some);
        }
    }
}

/// A sequence that holds every number below `n` has `n` items or more.
pub proof fn lemma_all_recent(q: Seq<usize>, n: int)
    requires
        0 <= n <= usize::MAX,
        forall|x: usize| x < n ==> #[trigger] q.contains(x),
    ensures
        q.len() >= n,
{
    let r = q.map_values(|x: usize| x as int);
    let s = set_int_range(0, n);
    lemma_int_range(0, n);
    assert forall|j: int| s.contains(j) implies r.to_set().contains(j) by {
        let x = j as usize;
        assert(q.contains(x));
        let i = choose|i: int| 0 <= i < q.len() && q[i] == x;
        assert(r[i] == j);
    }
    r.lemma_cardinality_of_set();
    lemma_len_subset(s, r.to_set());
}

} // verus!
