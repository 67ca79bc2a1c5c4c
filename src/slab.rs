//! Memory slab allocator.
//!
//! The slab manages a preallocated region of memory divided into fixed-size
//! blocks, tracked by a freelist of block indices. Each occupied block holds
//! one record in the layout of [`crate::layout`]; each free block is zero.
use vstd::prelude::*;
use vstd::slice::slice_subrange;

use crate::dump::{dump, dump_text};
use crate::handle::Handle;
use crate::layout::{
    block_with_record, decode_meta, decode_value, is_zeroed, le_bytes,
    lemma_decode_block_with_record, lemma_decode_zero_block, lemma_le_bytes_len, lemma_splice_twice, read_u16_le, read_u64_le, record_bytes, record_fits, splice,
    stored_key_len, stored_ttl, stored_value_len, write_bytes, write_le, write_zeros, zeros,
    BLOCK_SIZE, HEADER_SIZE, KEY_LEN_OFFSET, MAX_FIELD_LEN, TTL_OFFSET, TTL_SIZE,
    VAL_LEN_OFFSET,
};

verus! {

/// Memory slab allocator using a simple freelist.
pub struct Slab {
    /// Contiguous region backing the slab.
    region: Vec<u8>,
    /// Total number of blocks in the region.
    total_blocks: usize,
    /// Indices of currently free blocks; the last one is handed out next.
    free_list: Vec<usize>,
}

/// The indices `n - 1` down to `0`, so that the first block handed out is block `0`.
pub open spec fn descending(n: nat) -> Seq<usize> {
    Seq::new(n, |i: int| (n - 1 - i) as usize)
}

/// Initialise a freelist containing `n` block indices in LIFO order.
fn init_freelist(n: usize) -> (r: Vec<usize>)
    ensures
        r@ == descending(n as nat),
{
    let mut list: Vec<usize> = Vec::with_capacity(n);
    let mut idx: usize = n;
    while idx > 0
        invariant
            idx <= n,
            list@ == descending(n as nat).take(n - idx),
        decreases idx,
    {
        idx = idx - 1;
        list.push(idx);
        assert(list@ =~= descending(n as nat).take(n - idx));
    }
    assert(descending(n as nat).take(n as int) =~= descending(n as nat));
    list
}

impl Slab {
    /// Number of blocks in the slab.
    pub closed spec fn block_count(self) -> nat {
        self.total_blocks as nat
    }

    /// The freelist: indices of the free blocks, the next one to be handed out last.
    pub closed spec fn free_indices(self) -> Seq<usize> {
        self.free_list@
    }

    /// The bytes of block `i`.
    pub closed spec fn block(self, i: nat) -> Seq<u8> {
        self.region@.subrange(i * BLOCK_SIZE, i * BLOCK_SIZE + BLOCK_SIZE)
    }

    /// The region holds every block; the freelist holds distinct indices of
    /// blocks, and each of those blocks is zero.
    pub closed spec fn wf(self) -> bool {
        &&& self.region@.len() == self.total_blocks * BLOCK_SIZE
        &&& self.total_blocks * BLOCK_SIZE <= usize::MAX
        &&& forall|i: int|
            0 <= i < self.free_list@.len() ==> #[trigger] self.free_list@[i] < self.total_blocks
        &&& forall|i: int, j: int|
            0 <= i < j < self.free_list@.len() ==> self.free_list@[i] != self.free_list@[j]
        &&& forall|i: int|
            0 <= i < self.free_list@.len() ==> is_zeroed(
                #[trigger] self.block(self.free_list@[i] as nat),
            )
    }

    /// Whether `h` names a block of this slab.
    pub open spec fn in_range(self, h: Handle) -> bool {
        h.0 < self.block_count()
    }

    /// Whether `h` may be handed to `deallocate`: it is out of range, or its
    /// block is not on the freelist.
    pub open spec fn can_deallocate(self, h: Handle) -> bool {
        self.in_range(h) ==> !self.free_indices().contains(h.0)
    }

    /// What `get_value` returns for `h`.
    pub open spec fn value_at(self, h: Handle) -> Option<Seq<u8>> {
        if self.in_range(h) {
            decode_value(self.block(h.0 as nat))
        } else {
            None
        }
    }

    /// What `get_meta` returns for `h`.
    pub open spec fn meta_at(self, h: Handle) -> Option<(u64, Seq<u8>, Seq<u8>)> {
        if self.in_range(h) {
            decode_meta(self.block(h.0 as nat))
        } else {
            None
        }
    }

    /// `a` and `b` have the same blocks, with the same contents, and the same freelist.
    pub open spec fn same_state(a: Slab, b: Slab) -> bool {
        &&& b.block_count() == a.block_count()
        &&& b.free_indices() == a.free_indices()
        &&& forall|j: nat| j < a.block_count() ==> #[trigger] b.block(j) == a.block(j)
    }

    /// `s` is as `new` leaves it: every block free and zero, block `0` handed out first.
    pub open spec fn fresh(s: Slab) -> bool {
        &&& s.wf()
        &&& s.free_indices() == descending(s.block_count())
        &&& forall|i: nat| i < s.block_count() ==> #[trigger] s.block(i) == zeros(BLOCK_SIZE as nat)
    }

    /// `states[i + 1]` is what `allocate(keys[i], values[i], ttls[i])` leaves
    /// on `states[i]`, each call returning `Some(handles[i])`.
    pub open spec fn allocation_run(
        states: Seq<Slab>,
        keys: Seq<Seq<u8>>,
        values: Seq<Seq<u8>>,
        ttls: Seq<u64>,
        handles: Seq<Handle>,
    ) -> bool {
        &&& states.len() == handles.len() + 1
        &&& keys.len() == handles.len()
        &&& values.len() == handles.len()
        &&& ttls.len() == handles.len()
        &&& forall|i: int|
            #![trigger handles[i]]
            0 <= i < handles.len() ==> Slab::allocate_post(
                states[i],
                states[i + 1],
                keys[i],
                values[i],
                ttls[i],
                Some(handles[i]),
            )
    }

    /// Every block but `i` is the same in `a` and `b`.
    pub open spec fn same_blocks_but(a: Slab, b: Slab, i: nat) -> bool {
        forall|j: nat| j < a.block_count() && j != i ==> #[trigger] b.block(j) == a.block(j)
    }

    /// `allocate(key, value, ttl)` on `pre` returns `r` and leaves `post`.
    ///
    /// It succeeds exactly when the record fits one block and a block is free.
    /// It then takes the last index of the freelist, which leaves the
    /// freelist, and writes the record at the start of that block; otherwise
    /// nothing changes. `post` is valid.
    pub open spec fn allocate_post(
        pre: Slab,
        post: Slab,
        key: Seq<u8>,
        value: Seq<u8>,
        ttl: u64,
        r: Option<Handle>,
    ) -> bool {
        &&& post.wf()
        &&& r.is_some() <==> (record_fits(key.len(), value.len()) && pre.free_indices().len() > 0)
        &&& match r {
            Some(h) => {
                &&& h.0 == pre.free_indices().last()
                &&& h.0 < post.block_count()
                &&& !post.free_indices().contains(h.0)
                &&& post.block_count() == pre.block_count()
                &&& post.free_indices() == pre.free_indices().drop_last()
                &&& post.block(h.0 as nat) == block_with_record(ttl, key, value)
                &&& Slab::same_blocks_but(pre, post, h.0 as nat)
            },
            None => Slab::same_state(pre, post),
        }
    }

    /// `deallocate(h)` on `pre` leaves `post`.
    ///
    /// For a handle in range, the block is zeroed and its index pushed on the
    /// freelist; for one out of range nothing changes. `post` is valid.
    pub open spec fn deallocate_post(pre: Slab, post: Slab, h: Handle) -> bool {
        &&& post.wf()
        &&& if pre.in_range(h) {
            &&& post.block_count() == pre.block_count()
            &&& post.free_indices() == pre.free_indices().push(h.0)
            &&& post.block(h.0 as nat) == zeros(BLOCK_SIZE as nat)
            &&& Slab::same_blocks_but(pre, post, h.0 as nat)
        } else {
            Slab::same_state(pre, post)
        }
    }

    /// Writing `src` at `at` leaves every block that the write does not touch as it was.
    proof fn lemma_block_of_splice(self, pre: Slab, at: int, src: Seq<u8>, i: nat)
        requires
            pre.wf(),
            i < pre.block_count(),
            self.region@ == splice(pre.region@, at, src),
            0 <= at,
            at + src.len() <= pre.region@.len(),
            at + src.len() <= i * BLOCK_SIZE || i * BLOCK_SIZE + BLOCK_SIZE <= at,
        ensures
            self.block(i) == pre.block(i),
    {
        assert(self.block(i) =~= pre.block(i));
    }

    /// Create a new slab capable of storing at most `capacity_bytes` of data.
    ///
    /// Memory is divided into 512-byte blocks; the total capacity is truncated
    /// to a multiple of the block size. Every block starts free and zeroed.
    pub fn new(capacity_bytes: usize) -> (s: Self)
        ensures
            Slab::fresh(s),
            s.block_count() == capacity_bytes as nat / BLOCK_SIZE as nat,
    {
        let total_blocks = capacity_bytes / BLOCK_SIZE;
        let region = vec![0u8; total_blocks * BLOCK_SIZE];
        let free_list = init_freelist(total_blocks);
        let s = Slab { region, total_blocks, free_list };
        assert forall|i: nat| i < s.block_count() implies #[trigger] s.block(i) == zeros(
            BLOCK_SIZE as nat,
        ) by {
            assert forall|k: int| 0 <= k < BLOCK_SIZE implies s.block(i)[k] == 0 by {
                assert(s.region@[i * BLOCK_SIZE + k] == 0);
            }
            assert(s.block(i) =~= zeros(BLOCK_SIZE as nat));
        }
        assert forall|i: int| 0 <= i < s.free_list@.len() implies is_zeroed(
            #[trigger] s.block(s.free_list@[i] as nat),
        ) by {
            let b = s.free_list@[i] as nat;
            assert(b < s.block_count());
            assert(is_zeroed(s.block(b)));
        }
        s
    }

    /// Allocate a block for the provided key/value pair and TTL.
    ///
    /// Returns a [`Handle`] to the allocated block, or `None` if a length does
    /// not fit its 16-bit field, the record exceeds the block size, or the slab
    /// is full; on `None` the slab is unchanged.
    pub fn allocate(&mut self, key: &[u8], value: &[u8], ttl: u64) -> (r: Option<Handle>)
        requires
            old(self).wf(),
        ensures
            final(self).wf(),
            Slab::allocate_post(*old(self), *final(self), key@, value@, ttl, r),
            r matches Some(h) ==> h.0 < final(self).block_count() && !final(self).free_indices().contains(h.0),
    {
        // Ensure lengths fit in our fixed block.
        if key.len() > MAX_FIELD_LEN || value.len() > MAX_FIELD_LEN {
            return None;
        }
        let required = HEADER_SIZE + key.len() + value.len();
        if required > BLOCK_SIZE {
            return None;
        }
        let index = match self.free_list.pop() {
            Some(i) => i,
            None => return None,
        };
        let ghost pre = *old(self);
        let ghost before = self.region@;
        proof {
            assert(pre.free_list@.contains(index));
            assert(is_zeroed(pre.block(index as nat)));
        }
        let offset = index * BLOCK_SIZE;
        write_le(&mut self.region, offset + TTL_OFFSET, ttl, TTL_SIZE);
        write_le(&mut self.region, offset + KEY_LEN_OFFSET, key.len() as u64, 2);
        write_le(&mut self.region, offset + VAL_LEN_OFFSET, value.len() as u64, 2);
        let key_start = offset + HEADER_SIZE;
        write_bytes(&mut self.region, key_start, key);
        write_bytes(&mut self.region, key_start + key.len(), value);
        proof {
            let t = le_bytes(ttl as nat, 8);
            let kl = le_bytes(key@.len(), 2);
            let vl = le_bytes(value@.len(), 2);
            lemma_le_bytes_len(ttl as nat, 8);
            lemma_le_bytes_len(key@.len(), 2);
            lemma_le_bytes_len(value@.len(), 2);
            let o = offset as int;
            lemma_splice_twice(before, o, t, kl);
            lemma_splice_twice(before, o, t + kl, vl);
            lemma_splice_twice(before, o, t + kl + vl, key@);
            lemma_splice_twice(before, o, t + kl + vl + key@, value@);
            let rec = record_bytes(ttl, key@, value@);
            assert(self.region@ == splice(before, o, rec));
            let old_block = pre.block(index as nat);
            assert(self.block(index as nat) =~= block_with_record(ttl, key@, value@)) by {
                assert forall|k: int| rec.len() <= k < BLOCK_SIZE implies self.block(
                    index as nat,
                )[k] == 0 by {
                    assert(old_block[k] == 0);
                }
            }
            assert forall|j: nat| j < pre.block_count() && j != index implies #[trigger] self.block(
                j,
            ) == pre.block(j) by {
                self.lemma_block_of_splice(pre, o, rec, j);
            }
            assert forall|i: int| 0 <= i < self.free_list@.len() implies is_zeroed(
                #[trigger] self.block(self.free_list@[i] as nat),
            ) by {
                assert(pre.free_list@[i] == self.free_list@[i]);
                assert(pre.free_list@[i] != pre.free_list@[pre.free_list@.len() - 1]);
                assert(is_zeroed(pre.block(pre.free_list@[i] as nat)));
            }
            assert(self.free_list@ =~= pre.free_list@.drop_last());
            assert(!self.free_list@.contains(index)) by {
                if self.free_list@.contains(index) {
                    let k = choose|k: int|
                        0 <= k < self.free_list@.len() && self.free_list@[k] == index;
                    assert(pre.free_list@[k] == self.free_list@[k]);
                }
            }
        }
        Some(Handle(index))
    }

    /// Byte `k` of block `i` is byte `i * BLOCK_SIZE + k` of the region.
    proof fn lemma_block_index(self, i: nat, k: int)
        requires
            self.wf(),
            i < self.block_count(),
            0 <= k < BLOCK_SIZE,
        ensures
            self.block(i)[k] == self.region@[i * BLOCK_SIZE + k],
    {
    }

    /// The header fields of block `index`, read from the region.
    fn read_lengths(&self, index: usize) -> (r: (usize, usize))
        requires
            self.wf(),
            index < self.block_count(),
        ensures
            r.0 == stored_key_len(self.block(index as nat)),
            r.1 == stored_value_len(self.block(index as nat)),
    {
        let offset = index * BLOCK_SIZE;
        let region = self.region.as_slice();
        let key_len = read_u16_le(region, offset + KEY_LEN_OFFSET);
        let val_len = read_u16_le(region, offset + VAL_LEN_OFFSET);
        proof {
            self.lemma_block_index(index as nat, 8);
            self.lemma_block_index(index as nat, 9);
            self.lemma_block_index(index as nat, 10);
            self.lemma_block_index(index as nat, 11);
        }
        (key_len, val_len)
    }

    /// Retrieve the value slice stored for `handle`.
    ///
    /// The returned slice points directly into the slab's backing region.
    /// Returns `None` for a handle out of range, or where the block's header
    /// points past the block. A freed block reads as an empty value.
    pub fn get_value(&self, handle: Handle) -> (r: Option<&[u8]>)
        requires
            self.wf(),
        ensures
            match r {
                Some(v) => self.value_at(handle) == Some(v@),
                None => self.value_at(handle) is None,
            },
            !self.in_range(handle) ==> r is None,
    {
        let index = handle.0;
        if index >= self.total_blocks {
            return None;
        }
        let offset = index * BLOCK_SIZE;
        // Decode key and value lengths to determine the slice boundaries.
        let (key_len, val_len) = self.read_lengths(index);
        let val_start = HEADER_SIZE + key_len;
        let val_end = val_start + val_len;
        if val_end > BLOCK_SIZE {
            return None;
        }
        let v = slice_subrange(self.region.as_slice(), offset + val_start, offset + val_end);
        assert(v@ =~= self.block(index as nat).subrange(val_start as int, val_end as int));
        Some(v)
    }

    /// Retrieve the TTL, key and value stored for `handle`.
    ///
    /// Fails exactly where `get_value` fails.
    pub fn get_meta(&self, handle: Handle) -> (r: Option<(u64, &[u8], &[u8])>)
        requires
            self.wf(),
        ensures
            match r {
                Some((ttl, key, value)) => self.meta_at(handle) == Some((ttl, key@, value@)),
                None => self.meta_at(handle) is None,
            },
            !self.in_range(handle) ==> r is None,
    {
        let index = handle.0;
        if index >= self.total_blocks {
            return None;
        }
        let offset = index * BLOCK_SIZE;
        let region = self.region.as_slice();
        let ttl = read_u64_le(region, offset + TTL_OFFSET);
        let (key_len, val_len) = self.read_lengths(index);
        let key_start = HEADER_SIZE;
        let key_end = key_start + key_len;
        let val_start = key_end;
        let val_end = val_start + val_len;
        if val_end > BLOCK_SIZE {
            return None;
        }
        let key = slice_subrange(region, offset + key_start, offset + key_end);
        let value = slice_subrange(region, offset + val_start, offset + val_end);
        proof {
            let b = self.block(index as nat);
            assert(region@.subrange(offset as int, offset + 8) =~= b.subrange(0, 8));
            assert(ttl == stored_ttl(b));
            assert(key@ =~= b.subrange(key_start as int, key_end as int));
            assert(value@ =~= b.subrange(val_start as int, val_end as int));
        }
        Some((ttl, key, value))
    }

    /// Deallocate the block referenced by `handle` and return it to the freelist.
    ///
    /// The block is zeroed. A handle out of range is ignored. Handing in a
    /// block that is already free (a double free) is excluded by the
    /// precondition; [`Slab::is_free`] tells a caller which blocks those are.
    pub fn deallocate(&mut self, handle: Handle)
        requires
            old(self).wf(),
            old(self).can_deallocate(handle),
        ensures
            final(self).wf(),
            Slab::deallocate_post(*old(self), *final(self), handle),
    {
        let index = handle.0;
        if index >= self.total_blocks {
            return;
        }
        let ghost pre = *old(self);
        let offset = index * BLOCK_SIZE;
        // Zero out the block so that no stale data reaches a later reader.
        write_zeros(&mut self.region, offset, BLOCK_SIZE);
        self.free_list.push(index);
        proof {
            let z = zeros(BLOCK_SIZE as nat);
            assert(self.block(index as nat) =~= z);
            assert forall|j: nat| j < pre.block_count() && j != index implies #[trigger] self.block(
                j,
            ) == pre.block(j) by {
                self.lemma_block_of_splice(pre, offset as int, z, j);
            }
            assert forall|i: int| 0 <= i < self.free_list@.len() implies is_zeroed(
                #[trigger] self.block(self.free_list@[i] as nat),
            ) by {
                if i < pre.free_list@.len() {
                    assert(pre.free_list@[i] == self.free_list@[i]);
                    assert(pre.free_list@[i] != index);
                    assert(is_zeroed(pre.block(pre.free_list@[i] as nat)));
                }
            }
            assert forall|i: int, j: int|
                0 <= i < j < self.free_list@.len() implies self.free_list@[i]
                != self.free_list@[j] by {
                if j == pre.free_list@.len() {
                    assert(pre.free_list@.contains(pre.free_list@[i]));
                }
            }
        }
    }

    /// Dump the raw contents of the block for debugging purposes: hex and
    /// ASCII, 16 bytes per line. Returns `None` for a handle out of range.
    pub fn debug_dump(&self, handle: Handle) -> (r: Option<String>)
        requires
            self.wf(),
        ensures
            match r {
                Some(text) => self.in_range(handle) && text@ == dump_text(self.block(handle.0 as nat)),
                None => !self.in_range(handle),
            },
    {
        let index = handle.0;
        if index >= self.total_blocks {
            return None;
        }
        let offset = index * BLOCK_SIZE;
        let block = slice_subrange(self.region.as_slice(), offset, offset + BLOCK_SIZE);
        assert(block@ == self.block(index as nat));
        Some(dump(block))
    }

    /// Whether `handle` names a block of this slab that is on the freelist,
    /// so that deallocating it would be a double free.
    pub fn is_free(&self, handle: Handle) -> (r: bool)
        requires
            self.wf(),
        ensures
            r == (self.in_range(handle) && self.free_indices().contains(handle.0)),
    {
        if handle.0 >= self.total_blocks {
            return false;
        }
        let mut i: usize = 0;
        while i < self.free_list.len()
            invariant
                i <= self.free_list@.len(),
                handle.0 < self.total_blocks,
                forall|j: int| 0 <= j < i ==> self.free_list@[j] != handle.0,
            decreases self.free_list@.len() - i,
        {
            if self.free_list[i] == handle.0 {
                assert(self.free_list@.contains(self.free_list@[i as int]));
                return true;
            }
            i = i + 1;
        }
        false
    }

    /// Total number of blocks in the slab.
    pub fn total_blocks(&self) -> (r: usize)
        ensures
            r == self.block_count(),
    {
        self.total_blocks
    }

    /// Number of blocks on the freelist.
    pub fn free_blocks(&self) -> (r: usize)
        ensures
            r == self.free_indices().len(),
    {
        self.free_list.len()
    }
}

/// A record that `allocate` stored reads back unchanged: `get_value` gives
/// its value and `get_meta` its TTL, key and value.
pub proof fn lemma_round_trip(
    pre: Slab,
    post: Slab,
    key: Seq<u8>,
    value: Seq<u8>,
    ttl: u64,
    h: Handle,
)
    requires
        pre.wf(),
        record_fits(key.len(), value.len()),
        Slab::allocate_post(pre, post, key, value, ttl, Some(h)),
    ensures
        post.value_at(h) == Some(value),
        post.meta_at(h) == Some((ttl, key, value)),
{
    assert(pre.free_list@.contains(h.0));
    lemma_decode_block_with_record(ttl, key, value);
}

/// What holds of every valid slab: the blocks fit the address space, each
/// block is `BLOCK_SIZE` bytes long, and the freelist holds distinct indices
/// of blocks in range, each of them all zero.
pub proof fn lemma_wf_facts(s: Slab)
    requires
        s.wf(),
    ensures
        s.block_count() * BLOCK_SIZE <= usize::MAX,
        forall|i: nat| i < s.block_count() ==> (#[trigger] s.block(i)).len() == BLOCK_SIZE,
        forall|k: int|
            0 <= k < s.free_indices().len() ==> #[trigger] s.free_indices()[k] < s.block_count()
                && s.block(s.free_indices()[k] as nat) == zeros(BLOCK_SIZE as nat),
        s.free_indices().no_duplicates(),
{
    assert forall|k: int| 0 <= k < s.free_indices().len() implies #[trigger] s.free_indices()[k]
        < s.block_count() && s.block(s.free_indices()[k] as nat) == zeros(BLOCK_SIZE as nat) by {
        let b = s.block(s.free_list@[k] as nat);
        assert(is_zeroed(b));
        assert(b =~= zeros(BLOCK_SIZE as nat));
    }
}

/// Over a run of successful allocations from a fresh slab, every state is
/// valid with the same blocks, the `i`-th call hands out block `i`, and the
/// freelist keeps its first `block_count - k` entries.
pub proof fn lemma_allocation_run(
    states: Seq<Slab>,
    keys: Seq<Seq<u8>>,
    values: Seq<Seq<u8>>,
    ttls: Seq<u64>,
    handles: Seq<Handle>,
    k: int,
)
    requires
        Slab::fresh(states[0]),
        Slab::allocation_run(states, keys, values, ttls, handles),
        0 <= k <= handles.len(),
    ensures
        k <= states[0].block_count(),
        states[k].wf(),
        states[k].block_count() == states[0].block_count(),
        states[k].free_indices() == descending(states[0].block_count()).take(
            states[0].block_count() - k,
        ),
        forall|i: int| 0 <= i < k ==> (#[trigger] handles[i]).0 == i,
    decreases k,
{
    let n = states[0].block_count();
    if k == 0 {
        assert(descending(n).take(n as int) =~= descending(n));
    } else {
        lemma_allocation_run(states, keys, values, ttls, handles, k - 1);
        let h = handles[k - 1];
        assert(Slab::allocate_post(
            states[k - 1],
            states[k],
            keys[k - 1],
            values[k - 1],
            ttls[k - 1],
            Some(h),
        ));
        assert(descending(n).take(n - (k - 1)).drop_last() =~= descending(n).take(n - k));
    }
}

/// After a run of successful allocations on a fresh slab, each handle the
/// run returned is in range and off the freelist, so it may be deallocated.
pub proof fn lemma_run_handles_deallocatable(
    states: Seq<Slab>,
    keys: Seq<Seq<u8>>,
    values: Seq<Seq<u8>>,
    ttls: Seq<u64>,
    handles: Seq<Handle>,
    j: int,
)
    requires
        Slab::fresh(states[0]),
        Slab::allocation_run(states, keys, values, ttls, handles),
        0 <= j < handles.len(),
    ensures
        states[handles.len() as int].wf(),
        states[handles.len() as int].in_range(handles[j]),
        states[handles.len() as int].can_deallocate(handles[j]),
{
    let n = handles.len() as int;
    let b = states[0].block_count();
    lemma_allocation_run(states, keys, values, ttls, handles, n);
    let free = states[n].free_indices();
    assert(handles[j].0 == j);
    if free.contains(handles[j].0) {
        let i = choose|i: int| 0 <= i < free.len() && free[i] == handles[j].0;
        assert(free[i] == descending(b)[i]);
    }
}

/// After `n` successful allocations on a fresh slab, `block_count - n` blocks
/// are free; deallocating one of the handles they returned frees exactly
/// one more.
pub proof fn lemma_conservation(
    states: Seq<Slab>,
    keys: Seq<Seq<u8>>,
    values: Seq<Seq<u8>>,
    ttls: Seq<u64>,
    handles: Seq<Handle>,
    j: int,
    last: Slab,
)
    requires
        Slab::fresh(states[0]),
        Slab::allocation_run(states, keys, values, ttls, handles),
        0 <= j < handles.len(),
        Slab::deallocate_post(states[handles.len() as int], last, handles[j]),
    ensures
        states[handles.len() as int].free_indices().len() == states[0].block_count()
            - handles.len(),
        last.free_indices().len() == states[0].block_count() - handles.len() + 1,
{
    lemma_allocation_run(states, keys, values, ttls, handles, handles.len() as int);
    lemma_run_handles_deallocatable(states, keys, values, ttls, handles, j);
}

/// On a fresh slab of `block_count` blocks, once `block_count` allocations have
/// succeeded, the next one returns `None`.
pub proof fn lemma_exhaustion(
    states: Seq<Slab>,
    keys: Seq<Seq<u8>>,
    values: Seq<Seq<u8>>,
    ttls: Seq<u64>,
    handles: Seq<Handle>,
    key: Seq<u8>,
    value: Seq<u8>,
    ttl: u64,
    post: Slab,
    r: Option<Handle>,
)
    requires
        Slab::fresh(states[0]),
        Slab::allocation_run(states, keys, values, ttls, handles),
        handles.len() == states[0].block_count(),
        Slab::allocate_post(states[handles.len() as int], post, key, value, ttl, r),
    ensures
        r is None,
{
    lemma_allocation_run(states, keys, values, ttls, handles, handles.len() as int);
}

/// A block just deallocated is on the freelist, so deallocating it again
/// is a double free: the precondition of `deallocate` refuses it.
pub proof fn lemma_double_free_refused(pre: Slab, post: Slab, h: Handle)
    requires
        pre.in_range(h),
        Slab::deallocate_post(pre, post, h),
    ensures
        post.in_range(h),
        !post.can_deallocate(h),
{
    assert(post.free_indices().last() == h.0);
}

/// A free block stays free across an allocation that hands out another
/// block, so deallocating it is still a double free.
pub proof fn lemma_free_kept_by_allocate(
    pre: Slab,
    post: Slab,
    key: Seq<u8>,
    value: Seq<u8>,
    ttl: u64,
    r: Option<Handle>,
    h: Handle,
)
    requires
        pre.wf(),
        pre.free_indices().contains(h.0),
        Slab::allocate_post(pre, post, key, value, ttl, r),
        r != Some(h),
    ensures
        post.free_indices().contains(h.0),
        !post.can_deallocate(h),
{
    let i = choose|i: int| 0 <= i < pre.free_list@.len() && pre.free_list@[i] == h.0;
    if r is Some {
        assert(i != pre.free_list@.len() - 1);
        assert(post.free_indices()[i] == h.0);
    }
}

/// A free block stays free across the deallocation of any handle, so
/// deallocating it is still a double free.
pub proof fn lemma_free_kept_by_deallocate(pre: Slab, post: Slab, g: Handle, h: Handle)
    requires
        pre.wf(),
        pre.free_indices().contains(h.0),
        Slab::deallocate_post(pre, post, g),
    ensures
        post.free_indices().contains(h.0),
        !post.can_deallocate(h),
{
    let i = choose|i: int| 0 <= i < pre.free_list@.len() && pre.free_list@[i] == h.0;
    if pre.in_range(g) {
        assert(post.free_indices()[i] == h.0);
    }
}

/// A block on the freelist is zero, so reading it through a stale handle
/// gives an empty value, and TTL `0` with an empty key and value, not `None`.
pub proof fn lemma_free_block_reads_empty(s: Slab, h: Handle)
    requires
        s.wf(),
        s.free_indices().contains(h.0),
    ensures
        s.in_range(h),
        s.value_at(h) == Some(Seq::<u8>::empty()),
        s.meta_at(h) == Some((0u64, Seq::<u8>::empty(), Seq::<u8>::empty())),
{
    lemma_wf_facts(s);
    lemma_decode_zero_block();
    let k = choose|k: int| 0 <= k < s.free_indices().len() && s.free_indices()[k] == h.0;
    assert(s.free_indices()[k] < s.block_count());
}

} // verus!
