//! Host memory bank for routed MoE expert weights, laid out as one contiguous
//! slice per (layer, expert), with named tensors registered inside each slice.
//!
//! The bank is pageable host memory: page-locked allocation needs the CUDA
//! runtime, which this library does not link, so a request for pinned memory
//! takes the pageable fallback.

use vstd::prelude::*;
use crate::error::EngineError;
use crate::text::{decimal, push_decimal, push_str, str_eq};

verus! {

/// Metadata describing a specific expert tensor within the host bank.
#[derive(Debug, Clone, PartialEq, Eq)]
pub struct ExpertTensorDesc {
    /// Transformer layer index.
    pub layer: usize,
    /// Expert index within this layer (0..num_experts).
    pub expert_id: usize,
    /// Tensor role/name (e.g. "gate_ex", "up_ex", "down_ex").
    pub name: String,
    /// Byte offset within the expert's contiguous slice.
    pub offset_in_expert: usize,
    /// Size of this tensor in bytes.
    pub size_bytes: usize,
}

/// The registration of the tensor named `name` of `(layer, expert)` among
/// `entries` (the last one listed wins): its offset and size.
pub open spec fn find_entry(
    entries: Seq<ExpertTensorDesc>,
    layer: int,
    expert: int,
    name: Seq<char>,
) -> Option<(int, int)>
    decreases entries.len(),
{
    if entries.len() == 0 {
        None
    } else if entries.last().layer == layer && entries.last().expert_id == expert
        && entries.last().name@ == name {
        Some((entries.last().offset_in_expert as int, entries.last().size_bytes as int))
    } else {
        find_entry(entries.drop_last(), layer, expert, name)
    }
}

/// Entry `t` registers the tensor named `name` of `(layer, expert)`.
pub open spec fn entry_matches(t: ExpertTensorDesc, layer: int, expert: int, name: Seq<char>) -> bool {
    t.layer == layer && t.expert_id == expert && t.name@ == name
}

/// Appending an entry registers its key and leaves the other keys alone.
proof fn lemma_find_entry_push(
    s: Seq<ExpertTensorDesc>,
    x: ExpertTensorDesc,
    layer: int,
    expert: int,
    name: Seq<char>,
)
    ensures
        find_entry(s.push(x), layer, expert, name) == if entry_matches(x, layer, expert, name) {
            Some((x.offset_in_expert as int, x.size_bytes as int))
        } else {
            find_entry(s, layer, expert, name)
        },
{
    assert(s.push(x).drop_last() =~= s);
}

/// Replacing the last entry of a key with a new entry for the same key
/// registers the new one and leaves the other keys alone.
proof fn lemma_find_entry_update(
    s: Seq<ExpertTensorDesc>,
    k: int,
    x: ExpertTensorDesc,
    layer: int,
    expert: int,
    name: Seq<char>,
)
    requires
        0 <= k < s.len(),
        entry_matches(x, x.layer as int, x.expert_id as int, x.name@),
        entry_matches(s[k], x.layer as int, x.expert_id as int, x.name@),
        forall|j: int|
            k < j < s.len() ==> !entry_matches(
                #[trigger] s[j],
                x.layer as int,
                x.expert_id as int,
                x.name@,
            ),
    ensures
        find_entry(s.update(k, x), layer, expert, name) == if entry_matches(x, layer, expert, name) {
            Some((x.offset_in_expert as int, x.size_bytes as int))
        } else {
            find_entry(s, layer, expert, name)
        },
    decreases s.len(),
{
    let u = s.update(k, x);
    if k < s.len() - 1 {
        assert(u.drop_last() =~= s.drop_last().update(k, x));
        lemma_find_entry_update(s.drop_last(), k, x, layer, expert, name);
        assert(!entry_matches(s.last(), x.layer as int, x.expert_id as int, x.name@));
    } else {
        assert(u.drop_last() =~= s.drop_last());
    }
}

/// The message for a `(layer, expert)` outside the bank.
pub open spec fn invalid_expert_message(layer: nat, expert: nat) -> Seq<char> {
    "Invalid layer "@ + decimal(layer) + " / expert "@ + decimal(expert)
}

/// The message for a tensor that does not fit in its expert slice.
pub open spec fn tensor_overflow_message(name: Seq<char>, size: nat, offset: nat, slice: nat) -> Seq<
    char,
> {
    "Tensor "@ + name + " size "@ + decimal(size) + " at offset "@ + decimal(offset)
        + " exceeds expert slice size "@ + decimal(slice)
}

/// Structured host memory bank for MoE expert weights.
pub struct HostExpertBank {
    storage: Vec<u8>,
    is_pinned: bool,
    n_layers: usize,
    n_experts_per_layer: usize,
    expert_slice_size_bytes: usize,
    total_bytes: usize,
    tensors: Vec<ExpertTensorDesc>,
}

impl HostExpertBank {
    /// The bank's bytes.
    pub closed spec fn bytes(&self) -> Seq<u8> {
        self.storage@
    }

    /// Number of layers.
    pub closed spec fn layers(&self) -> int {
        self.n_layers as int
    }

    /// Number of experts per layer.
    pub closed spec fn experts(&self) -> int {
        self.n_experts_per_layer as int
    }

    /// Bytes per expert slice.
    pub closed spec fn slice_size(&self) -> int {
        self.expert_slice_size_bytes as int
    }

    /// Whether the bank is page-locked.
    pub closed spec fn pinned(&self) -> bool {
        self.is_pinned
    }

    /// The registered offset and size of a named tensor of `(layer, expert)`.
    pub closed spec fn tensor_entry(&self, layer: int, expert: int, name: Seq<char>) -> Option<
        (int, int),
    > {
        find_entry(self.tensors@, layer, expert, name)
    }

    /// Where the slice of `(layer, expert)` starts.
    pub open spec fn slice_start(&self, layer: int, expert: int) -> int {
        (layer * self.experts() + expert) * self.slice_size()
    }

    /// The bytes of the slice of `(layer, expert)`.
    pub open spec fn slice_bytes(&self, layer: int, expert: int) -> Seq<u8> {
        self.bytes().subrange(
            self.slice_start(layer, expert),
            self.slice_start(layer, expert) + self.slice_size(),
        )
    }

    /// The bytes of a registered named tensor.
    pub open spec fn tensor_bytes(&self, layer: int, expert: int, name: Seq<char>) -> Option<Seq<u8>> {
        match self.tensor_entry(layer, expert, name) {
            Some((off, size)) => Some(self.slice_bytes(layer, expert).subrange(off, off + size)),
            None => None,
        }
    }

    /// `self` is `before` after writing `data` at `offset` of the slice of
    /// `(layer, expert)` and registering it as the tensor `name`: the bytes are
    /// spliced in, the name points at them, every other name is unchanged.
    pub open spec fn wrote(
        &self,
        before: HostExpertBank,
        layer: int,
        expert: int,
        name: Seq<char>,
        offset: int,
        data: Seq<u8>,
    ) -> bool {
        let start = before.slice_start(layer, expert) + offset;
        &&& self.layers() == before.layers()
        &&& self.experts() == before.experts()
        &&& self.slice_size() == before.slice_size()
        &&& self.pinned() == before.pinned()
        &&& self.bytes() == before.bytes().subrange(0, start) + data + before.bytes().subrange(
            start + data.len(),
            before.bytes().len() as int,
        )
        &&& self.tensor_entry(layer, expert, name) == Some((offset, data.len() as int))
        &&& forall|l: int, e: int, n: Seq<char>|
            !(l == layer && e == expert && n == name) ==> #[trigger] self.tensor_entry(l, e, n)
                == before.tensor_entry(l, e, n)
    }

    /// The bank holds one slice per (layer, expert), and every registered
    /// tensor names an existing slice and lies inside it.
    pub closed spec fn wf(&self) -> bool {
        &&& self.n_layers * self.n_experts_per_layer <= usize::MAX
        &&& self.total_bytes == self.n_layers * self.n_experts_per_layer * self.expert_slice_size_bytes
        &&& self.storage@.len() == self.total_bytes
        &&& forall|k: int|
            0 <= k < self.tensors@.len() ==> {
                let t = #[trigger] self.tensors@[k];
                &&& t.layer < self.n_layers
                &&& t.expert_id < self.n_experts_per_layer
                &&& t.offset_in_expert + t.size_bytes <= self.expert_slice_size_bytes
            }
    }

    /// Allocates a zeroed bank of `n_layers * n_experts_per_layer` slices.
    ///
    /// A request for pinned memory takes the pageable fallback (see the module
    /// documentation).
    pub fn allocate(
        n_layers: usize,
        n_experts_per_layer: usize,
        expert_slice_size_bytes: usize,
        prefer_pinned: bool,
    ) -> (r: Result<Self, EngineError>)
        requires
            n_layers * n_experts_per_layer <= usize::MAX,
            n_layers * n_experts_per_layer * expert_slice_size_bytes <= usize::MAX,
        ensures
            r matches Ok(b) && {
                &&& b.wf()
                &&& b.layers() == n_layers
                &&& b.experts() == n_experts_per_layer
                &&& b.slice_size() == expert_slice_size_bytes
                &&& !b.pinned()
                &&& b.bytes() == Seq::new(
                    (n_layers * n_experts_per_layer * expert_slice_size_bytes) as nat,
                    |i: int| 0u8,
                )
                &&& forall|l: int, e: int, name: Seq<char>| b.tensor_entry(l, e, name) is None
            },
    {
        let total_experts = n_layers * n_experts_per_layer;
        let total_bytes = total_experts * expert_slice_size_bytes;
        let storage = vec![0u8; total_bytes];
        let bank = HostExpertBank {
            storage,
            is_pinned: false,
            n_layers,
            n_experts_per_layer,
            expert_slice_size_bytes,
            total_bytes,
            tensors: Vec::new(),
        };
        proof {
            assert(bank.storage@ =~= Seq::new(total_bytes as nat, |i: int| 0u8));
        }
        Ok(bank)
    }

    /// Whether this host bank is backed by pinned (page-locked) memory.
    pub fn is_pinned(&self) -> (b: bool)
        ensures
            b == self.pinned(),
    {
        self.is_pinned
    }

    /// Total size in bytes of the host bank.
    pub fn total_bytes(&self) -> (n: usize)
        requires
            self.wf(),
        ensures
            n == self.bytes().len(),
            n == self.layers() * self.experts() * self.slice_size(),
    {
        self.total_bytes
    }

    /// Size in bytes of a single expert's contiguous slice.
    pub fn expert_slice_size(&self) -> (n: usize)
        ensures
            n == self.slice_size(),
    {
        self.expert_slice_size_bytes
    }

    /// Number of transformer layers.
    pub fn n_layers(&self) -> (n: usize)
        ensures
            n == self.layers(),
    {
        self.n_layers
    }

    /// Number of routed experts per layer.
    pub fn n_experts_per_layer(&self) -> (n: usize)
        ensures
            n == self.experts(),
    {
        self.n_experts_per_layer
    }

    /// Slices of existing (layer, expert) pairs lie inside the bank.
    proof fn lemma_slice_in_bank(&self, layer: int, expert: int)
        requires
            self.wf(),
            0 <= layer < self.layers(),
            0 <= expert < self.experts(),
        ensures
            0 <= self.slice_start(layer, expert),
            self.slice_start(layer, expert) + self.slice_size() <= self.bytes().len(),
            layer * self.experts() + expert < self.layers() * self.experts(),
    {
        let ne = self.experts();
        let s = self.slice_size();
        assert(layer * ne + expert < self.layers() * ne) by (nonlinear_arith)
            requires
                0 <= layer < self.layers(),
                0 <= expert < ne,
        ;
        assert((layer * ne + expert) * s + s <= self.layers() * ne * s) by (nonlinear_arith)
            requires
                0 <= layer * ne + expert < self.layers() * ne,
                s >= 0,
        ;
        assert(0 <= (layer * ne + expert) * s) by (nonlinear_arith)
            requires
                0 <= layer,
                0 <= expert,
                0 <= ne,
                s >= 0,
        ;
    }

    /// Computes the linear byte offset for `(layer, expert_id)`.
    fn expert_offset(&self, layer: usize, expert_id: usize) -> (r: Option<usize>)
        requires
            self.wf(),
        ensures
            r is Some <==> (layer < self.layers() && expert_id < self.experts()),
            r matches Some(off) ==> off == self.slice_start(layer as int, expert_id as int) && off
                + self.slice_size() <= self.bytes().len(),
    {
        if layer >= self.n_layers || expert_id >= self.n_experts_per_layer {
            return None;
        }
        proof {
            self.lemma_slice_in_bank(layer as int, expert_id as int);
        }
        let global_idx = layer * self.n_experts_per_layer + expert_id;
        Some(global_idx * self.expert_slice_size_bytes)
    }

    /// Returns an immutable slice view over the raw bytes of an expert.
    pub fn expert_slice(&self, layer: usize, expert_id: usize) -> (r: Option<&[u8]>)
        requires
            self.wf(),
        ensures
            r is Some <==> (layer < self.layers() && expert_id < self.experts()),
            r matches Some(s) ==> s@ == self.slice_bytes(layer as int, expert_id as int),
    {
        let offset = match self.expert_offset(layer, expert_id) {
            Some(o) => o,
            None => {
                return None;
            },
        };
        let end = offset + self.expert_slice_size_bytes;
        Some(vstd::slice::slice_subrange(self.storage.as_slice(), offset, end))
    }

    /// The registered offset and size of a named tensor.
    fn find_tensor(&self, layer: usize, expert_id: usize, tensor_name: &str) -> (r: Option<usize>)
        ensures
            match r {
                Some(k) => k < self.tensors@.len() && find_entry(
                    self.tensors@,
                    layer as int,
                    expert_id as int,
                    tensor_name@,
                ) == Some(
                    (
                        self.tensors@[k as int].offset_in_expert as int,
                        self.tensors@[k as int].size_bytes as int,
                    ),
                ) && entry_matches(self.tensors@[k as int], layer as int, expert_id as int, tensor_name@)
                    && forall|j: int|
                    k < j < self.tensors@.len() ==> !entry_matches(
                        #[trigger] self.tensors@[j],
                        layer as int,
                        expert_id as int,
                        tensor_name@,
                    ),
                None => find_entry(self.tensors@, layer as int, expert_id as int, tensor_name@)
                    is None,
            },
    {
        let ghost all = self.tensors@;
        let mut k = self.tensors.len();
        proof {
            assert(all.subrange(0, k as int) =~= all);
        }
        while k > 0
            invariant
                k <= all.len(),
                all == self.tensors@,
                find_entry(all, layer as int, expert_id as int, tensor_name@) == find_entry(
                    all.subrange(0, k as int),
                    layer as int,
                    expert_id as int,
                    tensor_name@,
                ),
                forall|j: int|
                    k <= j < all.len() ==> !entry_matches(
                        #[trigger] all[j],
                        layer as int,
                        expert_id as int,
                        tensor_name@,
                    ),
            decreases k,
        {
            let ghost prefix = all.subrange(0, k as int);
            assert(prefix.drop_last() =~= all.subrange(0, k - 1));
            let t = &self.tensors[k - 1];
            if t.layer == layer && t.expert_id == expert_id && str_eq(t.name.as_str(), tensor_name) {
                return Some(k - 1);
            }
            assert(prefix.last() == all[k - 1]);
            k = k - 1;
        }
        None
    }

    /// Reads a registered named tensor within `(layer, expert_id)`.
    pub fn get_expert_tensor(&self, layer: usize, expert_id: usize, tensor_name: &str) -> (r: Option<
        &[u8],
    >)
        requires
            self.wf(),
        ensures
            match r {
                Some(s) => self.tensor_bytes(layer as int, expert_id as int, tensor_name@) == Some(
                    s@,
                ),
                None => self.tensor_entry(layer as int, expert_id as int, tensor_name@) is None,
            },
    {
        let k = match self.find_tensor(layer, expert_id, tensor_name) {
            Some(k) => k,
            None => {
                return None;
            },
        };
        let off = self.tensors[k].offset_in_expert;
        let size = self.tensors[k].size_bytes;
        proof {
            let t = self.tensors@[k as int];
            assert(t.offset_in_expert + t.size_bytes <= self.expert_slice_size_bytes);
            self.lemma_slice_in_bank(layer as int, expert_id as int);
        }
        let expert_slice = match self.expert_slice(layer, expert_id) {
            Some(s) => s,
            None => {
                proof {
                    assert(self.tensors@[k as int].layer < self.n_layers);
                }
                return None;
            },
        };
        Some(vstd::slice::slice_subrange(expert_slice, off, off + size))
    }
}

impl HostExpertBank {
    /// Returns a mutable slice view over the raw bytes of an expert; what is
    /// written through it lands in that expert's slice of the bank.
    pub fn expert_slice_mut(&mut self, layer: usize, expert_id: usize) -> (r: Option<&mut [u8]>)
        requires
            old(self).wf(),
        ensures
            r is Some <==> (layer < old(self).layers() && expert_id < old(self).experts()),
            r is None ==> *final(self) == *old(self),
            r matches Some(s) && final(s)@.len() == s@.len() ==> final(self).wf(),
            final(self).layers() == old(self).layers(),
            final(self).experts() == old(self).experts(),
            final(self).slice_size() == old(self).slice_size(),
            final(self).pinned() == old(self).pinned(),
            forall|l: int, e: int, name: Seq<char>|
                #[trigger] final(self).tensor_entry(l, e, name) == old(self).tensor_entry(l, e, name),
            r matches Some(s) ==> s@ == old(self).slice_bytes(layer as int, expert_id as int),
            r matches Some(s) ==> final(self).bytes() == old(self).bytes().subrange(
                0,
                old(self).slice_start(layer as int, expert_id as int),
            ) + final(s)@ + old(self).bytes().subrange(
                old(self).slice_start(layer as int, expert_id as int) + old(self).slice_size(),
                old(self).bytes().len() as int,
            ),
    {
        let offset = match self.expert_offset(layer, expert_id) {
            Some(o) => o,
            None => {
                return None;
            },
        };
        let size = self.expert_slice_size_bytes;
        let all = self.storage.as_mut_slice();
        let (_head, rest) = all.split_at_mut(offset);
        let (mid, _tail) = rest.split_at_mut(size);
        Some(mid)
    }
}

impl HostExpertBank {
    /// Registers and populates a named tensor within `(layer, expert_id)`:
    /// `data` is written at `offset_in_expert` of the expert's slice and the
    /// tensor's offset and size are recorded under its name.
    pub fn write_expert_tensor(
        &mut self,
        layer: usize,
        expert_id: usize,
        tensor_name: &str,
        offset_in_expert: usize,
        data: &[u8],
    ) -> (r: Result<(), EngineError>)
        requires
            old(self).wf(),
            offset_in_expert + data@.len() <= usize::MAX,
        ensures
            final(self).wf(),
            final(self).layers() == old(self).layers(),
            final(self).experts() == old(self).experts(),
            final(self).slice_size() == old(self).slice_size(),
            final(self).pinned() == old(self).pinned(),
            !(layer < old(self).layers() && expert_id < old(self).experts()) ==> (r matches Err(
                EngineError::Validation(m),
            ) && m@ == invalid_expert_message(layer as nat, expert_id as nat) && *final(self)
                == *old(self)),
            layer < old(self).layers() && expert_id < old(self).experts() && offset_in_expert
                + data@.len() > old(self).slice_size() ==> (r matches Err(
                EngineError::Validation(m),
            ) && m@ == tensor_overflow_message(
                tensor_name@,
                data@.len(),
                offset_in_expert as nat,
                old(self).slice_size() as nat,
            ) && *final(self) == *old(self)),
            layer < old(self).layers() && expert_id < old(self).experts() && offset_in_expert
                + data@.len() <= old(self).slice_size() ==> {
                &&& r is Ok
                &&& final(self).wrote(
                    *old(self),
                    layer as int,
                    expert_id as int,
                    tensor_name@,
                    offset_in_expert as int,
                    data@,
                )
                &&& final(self).tensor_bytes(layer as int, expert_id as int, tensor_name@) == Some(
                    data@,
                )
            },
    {
        let base = match self.expert_offset(layer, expert_id) {
            Some(o) => o,
            None => {
                let mut m = String::from_str("Invalid layer ");
                push_decimal(&mut m, layer);
                push_str(&mut m, " / expert ");
                push_decimal(&mut m, expert_id);
                return Err(EngineError::Validation(m));
            },
        };
        let slice_len = self.expert_slice_size_bytes;
        if offset_in_expert + data.len() > slice_len {
            let mut m = String::from_str("Tensor ");
            push_str(&mut m, tensor_name);
            push_str(&mut m, " size ");
            push_decimal(&mut m, data.len());
            push_str(&mut m, " at offset ");
            push_decimal(&mut m, offset_in_expert);
            push_str(&mut m, " exceeds expert slice size ");
            push_decimal(&mut m, slice_len);
            return Err(EngineError::Validation(m));
        }
        let ghost old_bytes = self.storage@;
        let ghost old_tensors = self.tensors@;
        let start = base + offset_in_expert;
        let n = data.len();
        let mut i: usize = 0;
        while i < n
            invariant
                n == data@.len(),
                start + n <= old_bytes.len(),
                old_bytes.len() == self.total_bytes,
                i <= n,
                self.storage@ == old_bytes.subrange(0, start as int) + data@.subrange(0, i as int)
                    + old_bytes.subrange(start + i, old_bytes.len() as int),
                self.tensors@ == old_tensors,
                self.n_layers == old(self).n_layers,
                self.n_experts_per_layer == old(self).n_experts_per_layer,
                self.expert_slice_size_bytes == old(self).expert_slice_size_bytes,
                self.total_bytes == old(self).total_bytes,
                self.is_pinned == old(self).is_pinned,
            decreases n - i,
        {
            self.storage.set(start + i, data[i]);
            proof {
                assert(self.storage@ =~= old_bytes.subrange(0, start as int) + data@.subrange(
                    0,
                    i + 1,
                ) + old_bytes.subrange(start + i + 1, old_bytes.len() as int));
            }
            i = i + 1;
        }
        proof {
            assert(data@.subrange(0, n as int) =~= data@);
        }
        let desc = ExpertTensorDesc {
            layer,
            expert_id,
            name: tensor_name.to_owned(),
            offset_in_expert,
            size_bytes: n,
        };
        match self.find_tensor(layer, expert_id, tensor_name) {
            Some(k) => {
                proof {
                    lemma_find_entry_update(old_tensors, k as int, desc, 0, 0, seq![]);
                    assert forall|l: int, e: int, name: Seq<char>|
                        #[trigger] find_entry(old_tensors.update(k as int, desc), l, e, name) == if entry_matches(desc, l, e, name) {
                            Some((desc.offset_in_expert as int, desc.size_bytes as int))
                        } else {
                            find_entry(old_tensors, l, e, name)
                        } by {
                        lemma_find_entry_update(old_tensors, k as int, desc, l, e, name);
                    }
                }
                self.tensors.set(k, desc);
            },
            None => {
                proof {
                    assert forall|l: int, e: int, name: Seq<char>|
                        #[trigger] find_entry(old_tensors.push(desc), l, e, name) == if entry_matches(desc, l, e, name) {
                            Some((desc.offset_in_expert as int, desc.size_bytes as int))
                        } else {
                            find_entry(old_tensors, l, e, name)
                        } by {
                        lemma_find_entry_push(old_tensors, desc, l, e, name);
                    }
                }
                self.tensors.push(desc);
            },
        }
        proof {
            let sb = self.slice_bytes(layer as int, expert_id as int);
            assert(sb.subrange(offset_in_expert as int, offset_in_expert + n) =~= data@);
            assert forall|k: int| 0 <= k < self.tensors@.len() implies {
                let t = #[trigger] self.tensors@[k];
                &&& t.layer < self.n_layers
                &&& t.expert_id < self.n_experts_per_layer
                &&& t.offset_in_expert + t.size_bytes <= self.expert_slice_size_bytes
            } by {
                if k < old_tensors.len() && self.tensors@[k] != desc {
                    assert(self.tensors@[k] == old_tensors[k]);
                }
            }
        }
        Ok(())
    }
}

/// Writing one tensor keeps every other registered tensor whose bytes it does
/// not overlap: reading that tensor back gives the same bytes as before.
pub proof fn lemma_write_keeps_other_tensors(
    before: HostExpertBank,
    after: HostExpertBank,
    layer: int,
    expert: int,
    name: Seq<char>,
    offset: int,
    data: Seq<u8>,
    l2: int,
    e2: int,
    name2: Seq<char>,
)
    requires
        before.wf(),
        0 <= layer < before.layers(),
        0 <= expert < before.experts(),
        0 <= offset,
        offset + data.len() <= before.slice_size(),
        after.wrote(before, layer, expert, name, offset, data),
        !(l2 == layer && e2 == expert && name2 == name),
        before.tensor_entry(l2, e2, name2) matches Some((o2, s2)) && ({
            let a = before.slice_start(l2, e2) + o2;
            let w = before.slice_start(layer, expert) + offset;
            a + s2 <= w || w + data.len() <= a
        }),
    ensures
        after.tensor_bytes(l2, e2, name2) == before.tensor_bytes(l2, e2, name2),
{
    before.lemma_entry_in_bank(l2, e2, name2);
    before.lemma_slice_in_bank(layer, expert);
    before.lemma_slice_in_bank(l2, e2);
    let (o2, s2) = before.tensor_entry(l2, e2, name2)->0;
    let a = before.slice_start(l2, e2) + o2;
    let w = before.slice_start(layer, expert) + offset;
    let b0 = before.bytes();
    let b1 = after.bytes();
    assert(w + data.len() <= b0.len());
    assert(b1.len() == b0.len());
    assert(a + s2 <= b0.len());
    assert forall|k: int| a <= k < a + s2 implies b1[k] == b0[k] by {
        if k < w {
            assert(b1[k] == b0.subrange(0, w)[k]);
        } else {
            assert(k >= w + data.len());
            assert(b1[k] == b0.subrange(w + data.len(), b0.len() as int)[k - w - data.len()]);
        }
    }
    let start2 = before.slice_start(l2, e2);
    assert(after.slice_start(l2, e2) == start2);
    let x = after.slice_bytes(l2, e2).subrange(o2, o2 + s2);
    let y = before.slice_bytes(l2, e2).subrange(o2, o2 + s2);
    assert forall|i: int| 0 <= i < s2 implies x[i] == y[i] by {
        assert(x[i] == b1[start2 + o2 + i]);
        assert(y[i] == b0[start2 + o2 + i]);
    }
    assert(x =~= y);
}

impl HostExpertBank {
    /// A registered tensor lies inside its slice, which lies inside the bank.
    proof fn lemma_entry_in_bank(&self, layer: int, expert: int, name: Seq<char>)
        requires
            self.wf(),
        ensures
            self.tensor_entry(layer, expert, name) matches Some((off, size)) ==> {
                &&& 0 <= layer < self.layers()
                &&& 0 <= expert < self.experts()
                &&& 0 <= off
                &&& 0 <= size
                &&& off + size <= self.slice_size()
            },
    {
        lemma_find_entry_valid(self.tensors@, layer, expert, name, self.n_layers as int, self.n_experts_per_layer as int, self.expert_slice_size_bytes as int);
    }
}

/// What `find_entry` finds is one of the entries.
proof fn lemma_find_entry_valid(
    entries: Seq<ExpertTensorDesc>,
    layer: int,
    expert: int,
    name: Seq<char>,
    nl: int,
    ne: int,
    slice: int,
)
    requires
        forall|k: int|
            0 <= k < entries.len() ==> {
                let t = #[trigger] entries[k];
                &&& t.layer < nl
                &&& t.expert_id < ne
                &&& t.offset_in_expert + t.size_bytes <= slice
            },
    ensures
        find_entry(entries, layer, expert, name) matches Some((off, size)) ==> {
            &&& 0 <= layer < nl
            &&& 0 <= expert < ne
            &&& 0 <= off
            &&& 0 <= size
            &&& off + size <= slice
        },
    decreases entries.len(),
{
    if entries.len() > 0 {
        let last = entries.last();
        assert(entries[entries.len() - 1] == last);
        if !(last.layer == layer && last.expert_id == expert && last.name@ == name) {
            assert forall|k: int| 0 <= k < entries.drop_last().len() implies {
                let t = #[trigger] entries.drop_last()[k];
                &&& t.layer < nl
                &&& t.expert_id < ne
                &&& t.offset_in_expert + t.size_bytes <= slice
            } by {
                assert(entries.drop_last()[k] == entries[k]);
            }
            lemma_find_entry_valid(entries.drop_last(), layer, expert, name, nl, ne, slice);
        }
    }
}

} // verus!
