//! A singly-linked list whose nodes are built by the expand/split engine:
//! each node is a next pointer followed by a boxed payload, in one block.
use crate::heap::{keeps_others, AllocError, Heap};
use crate::layout::{extend_all, Layout, LayoutView};
use crate::ptr::{NonNull, Pointee};
use crate::repr_c::{byte_views, expanded, split_off, FieldTuple, ReprC};
use crate::word::{le_bytes, le_value, lemma_le_round_trip, word_bytes, word_from, WORD_BYTES};
use vstd::arithmetic::power2::is_pow2;
use vstd::pervasive::unreached;
use vstd::prelude::*;

verus! {

/// Bytes a node's next pointer takes: its address, then its metadata word.
pub const NEXT_BYTES: usize = 16;

/// The metadata word of `p`, zero for a thin pointer.
pub open spec fn meta_word(p: NonNull) -> nat {
    match p.spec_metadata() {
        Some(m) => m as nat,
        None => 0,
    }
}

/// How a next pointer is stored: address and metadata word, both
/// little-endian; all zeros for no next node.
pub open spec fn next_bytes(next: Option<NonNull>) -> Seq<u8> {
    match next {
        None => le_bytes(0, WORD_BYTES as nat) + le_bytes(0, WORD_BYTES as nat),
        Some(p) => le_bytes(p.spec_addr() as nat, WORD_BYTES as nat) + le_bytes(meta_word(p), WORD_BYTES as nat),
    }
}

/// The layout of a next pointer.
pub open spec fn next_layout() -> LayoutView {
    LayoutView { size: NEXT_BYTES as nat, align: WORD_BYTES as nat }
}

/// The stored form of the next pointer `next`.
fn encode_next(next: Option<NonNull>) -> (r: Vec<u8>)
    ensures
        r@ == next_bytes(next),
        r@.len() == NEXT_BYTES,
{
    let (addr, word) = match next {
        None => (0, 0),
        Some(p) => (
            p.as_ptr(),
            match p.metadata() {
                Some(m) => m,
                None => 0,
            },
        ),
    };
    let mut field = word_bytes(addr);
    let mut rest = word_bytes(word);
    field.append(&mut rest);
    field
}

/// The shape of a node: a next pointer, then a payload of the given kind.
pub struct Node {
    repr: ReprC,
    payload: Pointee,
}

impl Node {
    pub closed spec fn spec_repr(&self) -> ReprC {
        self.repr
    }

    pub closed spec fn spec_payload(&self) -> Pointee {
        self.payload
    }

    pub open spec fn fields(&self) -> FieldTuple {
        self.spec_repr().spec_fields()
    }

    pub closed spec fn wf(&self) -> bool {
        &&& self.repr.wf()
        &&& self.fields().spec_start() == seq![next_layout()]
        &&& self.fields().spec_offsets() == seq![0nat]
        &&& self.fields().spec_start_layout() == next_layout()
        &&& self.fields().spec_last() == Some(self.payload)
    }

    /// Whole layout, payload offset and payload layout of a node whose
    /// payload pointer carries `metadata`.
    pub open spec fn layouts(&self, metadata: Option<usize>) -> Option<(LayoutView, nat, LayoutView)> {
        self.fields().spec_layout_with_last(metadata)
    }

    /// The node shape for payloads of kind `payload`.
    pub fn new(payload: Pointee) -> (r: Node)
        ensures
            r.wf(),
            r.spec_payload() == payload,
    {
        proof {
            reveal_with_fuel(is_pow2, 5);
            reveal_with_fuel(extend_all, 2);
            assert(seq![next_layout()].drop_last() =~= Seq::<LayoutView>::empty());
            assert(Seq::<nat>::empty().push(0nat) =~= seq![0nat]);
        }
        let next = match Layout::from_size_align(NEXT_BYTES, WORD_BYTES) {
            Ok(l) => l,
            Err(_) => unreached(),
        };
        let mut start = Vec::new();
        start.push(next);
        proof {
            assert(crate::layout::views(start@) =~= seq![next_layout()]);
        }
        let fields = match FieldTuple::new(start, Some(payload)) {
            Ok(f) => f,
            Err(_) => unreached(),
        };
        proof {
            fields.lemma_fields();
        }
        Node { repr: ReprC::new(fields), payload }
    }

    /// The payload kind.
    pub fn payload(&self) -> (r: Pointee)
        ensures
            r == self.spec_payload(),
    {
        self.payload
    }

    /// Expands the boxed payload `data` into a node whose next pointer is
    /// `next`. Fails, changing nothing, when the heap has no room.
    pub fn build(&self, heap: &mut Heap, data: NonNull, next: Option<NonNull>) -> (r: Result<NonNull, AllocError>)
        requires
            self.wf(),
            old(heap).wf(),
            old(heap).live(data.spec_addr() as nat),
            self.layouts(data.spec_metadata()) matches Some((full, offset, payload))
                && old(heap).layout_at(data.spec_addr() as nat) == payload,
        ensures
            self.layouts(data.spec_metadata()) matches Some((full, offset, payload))
                && (r is Ok <==> old(heap).has_room(full.size, payload.size)),
            r is Err ==> *final(heap) == *old(heap),
            r matches Ok(node) ==> expanded(self.fields(), *old(heap), *final(heap), data, seq![next_bytes(next)], node),
    {
        let field = encode_next(next);
        let ghost bytes = field@;
        let fields = vec![field];
        proof {
            assert(byte_views(fields@) =~= seq![next_bytes(next)]);
        }
        self.repr.expand(heap, data, &fields)
    }

    /// Splits the node at `node` back into its boxed payload (in a block of
    /// exactly the payload's layout when the heap has room) and the next
    /// pointer stored in it.
    pub fn split(&self, heap: &mut Heap, node: NonNull) -> (r: (NonNull, Option<NonNull>))
        requires
            self.wf(),
            old(heap).wf(),
            old(heap).live(node.spec_addr() as nat),
            self.layouts(node.spec_metadata()) matches Some((full, offset, payload))
                && old(heap).layout_at(node.spec_addr() as nat) == full,
        ensures
            split_off(self.fields(), *old(heap), *final(heap), node, true, r.0, seq![
                old(heap).bytes_at(node.spec_addr() as nat).take(NEXT_BYTES as int),
            ]),
            self.decodes(old(heap).bytes_at(node.spec_addr() as nat).take(NEXT_BYTES as int), r.1),
            r.1 matches Some(q) ==> q.spec_addr() != 0,
    {
        let ghost b = heap.bytes_at(node.spec_addr() as nat).take(16);
        proof {
            let (full, offset, payload) = self.layouts(node.spec_metadata())->0;
            assert(offset >= 16);
            assert(full.size >= offset + payload.size);
            heap.lemma_live_block(node.spec_addr() as nat);
            assert(b.len() == 16);
        }
        let (data, mut start) = self.repr.split(heap, node, true);
        proof {
            assert(byte_views(start@).len() == start@.len());
            assert(byte_views(start@)[0] == b);
            assert(start@.len() == 1);
            assert(byte_views(start@) =~= seq![b]);
        }
        let field = start.pop().unwrap();
        let next = self.decode(&field);
        (data, next)
    }

    /// `next` is what the stored next pointer `bytes` stand for.
    pub open spec fn decodes(&self, bytes: Seq<u8>, next: Option<NonNull>) -> bool {
        let addr = le_value(bytes.take(WORD_BYTES as int));
        let word = le_value(bytes.skip(WORD_BYTES as int));
        match next {
            None => addr == 0 || addr > usize::MAX || (self.spec_payload().spec_is_fat() && word > usize::MAX),
            Some(p) => {
                &&& p.spec_addr() == addr
                &&& p.spec_metadata() == if self.spec_payload().spec_is_fat() {
                    Some(word as usize)
                } else {
                    None
                }
            },
        }
    }

    /// The next pointer stored in `bytes`.
    fn decode(&self, bytes: &Vec<u8>) -> (r: Option<NonNull>)
        requires
            bytes@.len() == NEXT_BYTES,
        ensures
            self.decodes(bytes@, r),
            r matches Some(q) ==> q.spec_addr() != 0,
    {
        proof {
            assert(bytes@.subrange(0, 8) =~= bytes@.take(8));
            assert(bytes@.subrange(8, 16) =~= bytes@.skip(8));
        }
        let addr = match word_from(bytes.as_slice(), 0) {
            Some(a) => a,
            None => return None,
        };
        let metadata = match self.payload {
            Pointee::Sized(_) => None,
            Pointee::Slice(_) => match word_from(bytes.as_slice(), WORD_BYTES) {
                Some(w) => Some(w),
                None => return None,
            },
        };
        NonNull::new(addr, metadata)
    }

    /// Decoding the stored form of a next pointer whose metadata fits the
    /// payload kind gives the pointer back.
    pub proof fn lemma_decode_next(&self, next: Option<NonNull>, decoded: Option<NonNull>)
        requires
            self.decodes(next_bytes(next), decoded),
            decoded matches Some(q) ==> q.spec_addr() != 0,
            next matches Some(p) ==> p.spec_addr() != 0 && (p.spec_metadata() is Some <==> self.spec_payload().spec_is_fat()),
        ensures
            decoded == next,
    {
        let b = next_bytes(next);
        let (a, w) = match next {
            None => (0nat, 0nat),
            Some(p) => (p.spec_addr() as nat, meta_word(p)),
        };
        vstd::arithmetic::power::lemma_pow_positive(256, 8);
        crate::word::lemma_usize_fits(a as usize);
        crate::word::lemma_usize_fits(w as usize);
        lemma_le_round_trip(a, 8);
        lemma_le_round_trip(w, 8);
        crate::word::lemma_le_bytes_len(a, 8);
        assert(b.take(8) =~= le_bytes(a, 8));
        assert(b.skip(8) =~= le_bytes(w, 8));
        if let Some(p) = next {
            if let Some(q) = decoded {
                NonNull::lemma_eq(p, q);
            }
        }
    }
}

/// A singly-linked list of boxed payloads of one kind. Its nodes are
/// blocks of a [`Heap`] that the caller passes to each operation.
pub struct LinkedList {
    head: Option<NonNull>,
    tail: Option<NonNull>,
    length: usize,
    node: Node,
    nodes: Ghost<Seq<NonNull>>,
}

impl LinkedList {
    /// The nodes, first to last.
    pub closed spec fn spec_nodes(&self) -> Seq<NonNull> {
        self.nodes@
    }

    /// The node shape.
    pub closed spec fn spec_node(&self) -> Node {
        self.node
    }

    /// Number of nodes.
    pub closed spec fn spec_len(&self) -> nat {
        self.length as nat
    }

    /// The next pointer that node `i` holds.
    pub open spec fn next_of(&self, i: int) -> Option<NonNull> {
        if i + 1 < self.spec_nodes().len() {
            Some(self.spec_nodes()[i + 1])
        } else {
            None
        }
    }

    /// `p` points to a live node block of the right layout.
    pub open spec fn node_ok(&self, heap: &Heap, p: NonNull) -> bool {
        &&& p.spec_addr() != 0
        &&& heap.live(p.spec_addr() as nat)
        &&& self.spec_node().layouts(p.spec_metadata()) matches Some((full, offset, payload))
            && heap.layout_at(p.spec_addr() as nat) == full
    }

    pub closed spec fn wf(&self, heap: &Heap) -> bool {
        &&& self.node.wf()
        &&& heap.wf()
        &&& self.length == self.nodes@.len()
        &&& self.head == if self.nodes@.len() == 0 {
            None::<NonNull>
        } else {
            Some(self.nodes@[0])
        }
        &&& self.tail == if self.nodes@.len() == 0 {
            None::<NonNull>
        } else {
            Some(self.nodes@.last())
        }
        &&& forall|i: int| 0 <= i < self.nodes@.len() ==> self.node_ok(heap, #[trigger] self.nodes@[i])
        &&& forall|i: int, j: int|
            0 <= i < self.nodes@.len() && 0 <= j < self.nodes@.len() && i != j ==> (#[trigger] self.nodes@[i]).spec_addr()
                != (#[trigger] self.nodes@[j]).spec_addr()
        &&& forall|i: int|
            0 <= i < self.nodes@.len() ==> heap.bytes_at((#[trigger] self.nodes@[i]).spec_addr() as nat).take(
                NEXT_BYTES as int,
            ) == next_bytes(self.next_of(i))
    }

    /// The block at `addr` is one of the list's nodes.
    pub open spec fn owns(&self, addr: nat) -> bool {
        exists|i: int| 0 <= i < self.spec_nodes().len() && (#[trigger] self.spec_nodes()[i]).spec_addr() == addr
    }

    /// Payload bytes of the node `p`.
    pub open spec fn payload_of(&self, heap: &Heap, p: NonNull) -> Seq<u8> {
        let (full, offset, payload) = self.spec_node().layouts(p.spec_metadata())->0;
        heap.bytes_at(p.spec_addr() as nat).subrange(offset as int, (offset + payload.size) as int)
    }

    /// Payload bytes of each node, first to last.
    pub open spec fn contents(&self, heap: &Heap) -> Seq<Seq<u8>> {
        Seq::new(self.spec_nodes().len(), |i: int| self.payload_of(heap, self.spec_nodes()[i]))
    }

    /// An empty list of payloads of kind `payload`.
    pub fn new(payload: Pointee) -> (r: LinkedList)
        ensures
            r.spec_len() == 0,
            r.spec_nodes().len() == 0,
            r.spec_node().spec_payload() == payload,
            forall|h: Heap| h.wf() ==> #[trigger] r.wf(&h),
    {
        LinkedList { head: None, tail: None, length: 0, node: Node::new(payload), nodes: Ghost(Seq::empty()) }
    }

    /// Number of nodes.
    pub fn len(&self) -> (r: usize)
        ensures
            r == self.spec_len(),
    {
        self.length
    }

    /// The list has no nodes.
    pub fn is_empty(&self) -> (r: bool)
        ensures
            r == (self.spec_len() == 0),
    {
        self.length == 0
    }

    /// Facts about a well-formed list.
    pub proof fn lemma_wf(&self, heap: &Heap)
        requires
            self.wf(heap),
        ensures
            heap.wf(),
            self.spec_len() == self.spec_nodes().len(),
            self.contents(heap).len() == self.spec_len(),
            forall|i: int| 0 <= i < self.spec_nodes().len() ==> self.node_ok(heap, #[trigger] self.spec_nodes()[i]),
    {
    }

    /// Node `i`'s metadata fits the payload kind.
    proof fn lemma_node_fits(&self, heap: &Heap, p: NonNull)
        requires
            self.node_ok(heap, p),
            self.node.wf(),
        ensures
            p.spec_metadata() is Some <==> self.node.spec_payload().spec_is_fat(),
    {
    }

    /// Puts the boxed payload `data` (a block of exactly the payload's
    /// layout) in a new node at the front. Fails, changing nothing, when the
    /// heap has no room for the node.
    pub fn push_head_boxed(&mut self, heap: &mut Heap, data: NonNull) -> (r: Result<(), AllocError>)
        requires
            old(self).wf(old(heap)),
            old(self).spec_len() < usize::MAX,
            old(heap).live(data.spec_addr() as nat),
            !old(self).owns(data.spec_addr() as nat),
            old(self).spec_node().layouts(data.spec_metadata()) matches Some((full, offset, payload))
                && old(heap).layout_at(data.spec_addr() as nat) == payload,
        ensures
            old(self).spec_node().layouts(data.spec_metadata()) matches Some((full, offset, payload))
                && (r is Ok <==> old(heap).has_room(full.size, payload.size)),
            r is Err ==> *final(heap) == *old(heap) && *final(self) == *old(self),
            r is Ok ==> {
                &&& final(self).wf(final(heap))
                &&& final(self).spec_len() == old(self).spec_len() + 1
                &&& final(self).contents(final(heap)) == seq![old(heap).bytes_at(data.spec_addr() as nat)] + old(
                    self,
                ).contents(old(heap))
                &&& keeps_others(old(heap), final(heap), data.spec_addr() as nat)
            },
    {
        let ghost h0 = *heap;
        let ghost old_nodes = self.nodes@;
        let node = match self.node.build(heap, data, self.head) {
            Ok(n) => n,
            Err(e) => return Err(e),
        };
        // a pointer's address is never null
        let _ = node.as_ptr();
        self.head = Some(node);
        if self.tail.is_none() {
            self.tail = Some(node);
        }
        self.length = self.length + 1;
        self.nodes = Ghost(seq![node] + old_nodes);
        proof {
            let nodes = self.nodes@;
            let f = self.node.fields();
            assert(f.field_bytes(heap.bytes_at(node.spec_addr() as nat))[0] == next_bytes(old(self).next_of(-1)));
            assert forall|i: int| 0 <= i < nodes.len() implies self.node_ok(heap, #[trigger] nodes[i]) by {
                if i > 0 {
                    assert(nodes[i] == old_nodes[i - 1]);
                    assert(h0.live(old_nodes[i - 1].spec_addr() as nat));
                }
            }
            assert forall|i: int, j: int|
                0 <= i < nodes.len() && 0 <= j < nodes.len() && i != j implies (#[trigger] nodes[i]).spec_addr()
                    != (#[trigger] nodes[j]).spec_addr() by {
                if i > 0 {
                    assert(h0.live(old_nodes[i - 1].spec_addr() as nat));
                }
                if j > 0 {
                    assert(h0.live(old_nodes[j - 1].spec_addr() as nat));
                }
            }
            assert forall|i: int| 0 <= i < nodes.len() implies heap.bytes_at((#[trigger] nodes[i]).spec_addr() as nat).take(
                NEXT_BYTES as int,
            ) == next_bytes(self.next_of(i)) by {
                if i == 0 {
                    assert(heap.bytes_at(node.spec_addr() as nat).take(16) =~= f.field_bytes(
                        heap.bytes_at(node.spec_addr() as nat),
                    )[0]);
                } else {
                    assert(nodes[i] == old_nodes[i - 1]);
                    assert(h0.live(old_nodes[i - 1].spec_addr() as nat));
                    assert(self.next_of(i) == old(self).next_of(i - 1));
                }
            }
            assert(self.contents(heap) =~= seq![h0.bytes_at(data.spec_addr() as nat)] + old(self).contents(&h0)) by {
                assert forall|i: int| 0 <= i < nodes.len() implies self.contents(heap)[i] == (seq![
                    h0.bytes_at(data.spec_addr() as nat),
                ] + old(self).contents(&h0))[i] by {
                    if i > 0 {
                        assert(nodes[i] == old_nodes[i - 1]);
                        assert(h0.live(old_nodes[i - 1].spec_addr() as nat));
                    }
                }
            }
        }
        Ok(())
    }
    /// Puts the boxed payload `data` (a block of exactly the payload's
    /// layout) in a new node at the back. Fails, changing nothing, when the
    /// heap has no room for the node.
    pub fn push_tail_boxed(&mut self, heap: &mut Heap, data: NonNull) -> (r: Result<(), AllocError>)
        requires
            old(self).wf(old(heap)),
            old(self).spec_len() < usize::MAX,
            old(heap).live(data.spec_addr() as nat),
            !old(self).owns(data.spec_addr() as nat),
            old(self).spec_node().layouts(data.spec_metadata()) matches Some((full, offset, payload))
                && old(heap).layout_at(data.spec_addr() as nat) == payload,
        ensures
            old(self).spec_node().layouts(data.spec_metadata()) matches Some((full, offset, payload))
                && (r is Ok <==> old(heap).has_room(full.size, payload.size)),
            r is Err ==> *final(heap) == *old(heap) && *final(self) == *old(self),
            r is Ok ==> {
                &&& final(self).wf(final(heap))
                &&& final(self).spec_len() == old(self).spec_len() + 1
                &&& final(self).contents(final(heap)) == old(self).contents(old(heap)).push(
                    old(heap).bytes_at(data.spec_addr() as nat),
                )
            },
    {
        let ghost h0 = *heap;
        let ghost old_nodes = self.nodes@;
        let node = match self.node.build(heap, data, None) {
            Ok(n) => n,
            Err(e) => return Err(e),
        };
        // a pointer's address is never null
        let _ = node.as_ptr();
        let ghost h1 = *heap;
        let ghost f = self.node.fields();
        proof {
            assert(heap.bytes_at(node.spec_addr() as nat).take(16) =~= f.field_bytes(
                heap.bytes_at(node.spec_addr() as nat),
            )[0]);
        }
        match self.tail {
            Some(t) => {
                proof {
                    assert(h0.live(t.spec_addr() as nat));
                    assert(t == old_nodes[old_nodes.len() - 1]);
                    let (full, offset, payload) = self.node.layouts(t.spec_metadata())->0;
                    assert(offset >= 16);
                    h1.lemma_live_block(t.spec_addr() as nat);
                }
                let link = encode_next(Some(node));
                heap.write(t, 0, link.as_slice());
            },
            None => {
                self.head = Some(node);
            },
        }
        self.tail = Some(node);
        self.length = self.length + 1;
        self.nodes = Ghost(old_nodes.push(node));
        proof {
            let nodes = self.nodes@;
            let n = old_nodes.len() as int;
            assert forall|i: int| 0 <= i < nodes.len() implies self.node_ok(heap, #[trigger] nodes[i]) by {
                if i < n {
                    assert(nodes[i] == old_nodes[i]);
                    assert(h0.live(old_nodes[i].spec_addr() as nat));
                }
            }
            assert forall|i: int, j: int|
                0 <= i < nodes.len() && 0 <= j < nodes.len() && i != j implies (#[trigger] nodes[i]).spec_addr()
                    != (#[trigger] nodes[j]).spec_addr() by {
                if i < n {
                    assert(h0.live(old_nodes[i].spec_addr() as nat));
                }
                if j < n {
                    assert(h0.live(old_nodes[j].spec_addr() as nat));
                }
            }
            assert forall|i: int| 0 <= i < nodes.len() implies heap.bytes_at((#[trigger] nodes[i]).spec_addr() as nat).take(
                NEXT_BYTES as int,
            ) == next_bytes(self.next_of(i)) by {
                if i < n {
                    assert(nodes[i] == old_nodes[i]);
                    assert(h0.live(old_nodes[i].spec_addr() as nat));
                    if i == n - 1 {
                        assert(heap.bytes_at(nodes[i].spec_addr() as nat).take(16) =~= next_bytes(Some(node)));
                    } else {
                        assert(self.next_of(i) == old(self).next_of(i));
                    }
                }
            }
            assert(self.contents(heap) =~= old(self).contents(&h0).push(h0.bytes_at(data.spec_addr() as nat))) by {
                assert forall|i: int| 0 <= i < nodes.len() implies self.contents(heap)[i] == old(self).contents(&h0).push(
                    h0.bytes_at(data.spec_addr() as nat),
                )[i] by {
                    if i < n {
                        assert(nodes[i] == old_nodes[i]);
                        assert(h0.live(old_nodes[i].spec_addr() as nat));
                        if i == n - 1 {
                            let (full, offset, payload) = self.node.layouts(nodes[i].spec_metadata())->0;
                            assert(heap.bytes_at(nodes[i].spec_addr() as nat).subrange(
                                offset as int,
                                (offset + payload.size) as int,
                            ) =~= h1.bytes_at(nodes[i].spec_addr() as nat).subrange(
                                offset as int,
                                (offset + payload.size) as int,
                            ));
                        }
                    }
                }
            }
        }
        Ok(())
    }

    /// Takes the first node off the list and splits it: returns its boxed
    /// payload, in a block of exactly the payload's layout when the heap has
    /// room, else in the node's block. `None` when the list is empty.
    pub fn pop_boxed(&mut self, heap: &mut Heap) -> (r: Option<NonNull>)
        requires
            old(self).wf(old(heap)),
        ensures
            r is None <==> old(self).spec_len() == 0,
            r is None ==> *final(heap) == *old(heap) && *final(self) == *old(self),
            r matches Some(p) ==> {
                let first = old(self).spec_nodes()[0];
                &&& final(self).wf(final(heap))
                &&& final(self).spec_len() + 1 == old(self).spec_len()
                &&& final(self).contents(final(heap)) == old(self).contents(old(heap)).drop_first()
                &&& p.spec_metadata() == first.spec_metadata()
                &&& final(heap).live(p.spec_addr() as nat)
                &&& !final(self).owns(p.spec_addr() as nat)
                &&& old(self).spec_node().layouts(p.spec_metadata()) matches Some((full, offset, payload)) && {
                    &&& final(heap).bytes_at(p.spec_addr() as nat).take(payload.size as int) == old(self).contents(
                        old(heap),
                    )[0]
                    &&& if old(heap).has_room(payload.size, full.size) {
                        &&& final(heap).layout_at(p.spec_addr() as nat) == payload
                        &&& final(heap).spec_in_use() + full.size == old(heap).spec_in_use() + payload.size
                        &&& !final(heap).live(first.spec_addr() as nat)
                    } else {
                        &&& p.spec_addr() == first.spec_addr()
                        &&& final(heap).layout_at(p.spec_addr() as nat) == full
                        &&& final(heap).spec_in_use() == old(heap).spec_in_use()
                    }
                }
                &&& keeps_others(old(heap), final(heap), first.spec_addr() as nat)
            },
    {
        let ghost h0 = *heap;
        let ghost old_nodes = self.nodes@;
        let head = match self.head {
            None => return None,
            Some(h) => h,
        };
        proof {
            assert(head == old_nodes[0]);
            self.lemma_node_fits(heap, head);
            if old_nodes.len() > 1 {
                self.lemma_node_fits(heap, old_nodes[1]);
            }
        }
        let (data, next) = self.node.split(heap, head);
        proof {
            self.node.lemma_decode_next(old(self).next_of(0), next);
        }
        self.head = next;
        if next.is_none() {
            self.tail = None;
        }
        self.length = self.length - 1;
        self.nodes = Ghost(old_nodes.drop_first());
        proof {
            let nodes = self.nodes@;
            assert forall|i: int| 0 <= i < nodes.len() implies self.node_ok(heap, #[trigger] nodes[i]) by {
                assert(nodes[i] == old_nodes[i + 1]);
                assert(h0.live(old_nodes[i + 1].spec_addr() as nat));
            }
            assert forall|i: int, j: int|
                0 <= i < nodes.len() && 0 <= j < nodes.len() && i != j implies (#[trigger] nodes[i]).spec_addr()
                    != (#[trigger] nodes[j]).spec_addr() by {
                assert(nodes[i] == old_nodes[i + 1]);
                assert(nodes[j] == old_nodes[j + 1]);
            }
            assert forall|i: int| 0 <= i < nodes.len() implies heap.bytes_at((#[trigger] nodes[i]).spec_addr() as nat).take(
                NEXT_BYTES as int,
            ) == next_bytes(self.next_of(i)) by {
                assert(nodes[i] == old_nodes[i + 1]);
                assert(h0.live(old_nodes[i + 1].spec_addr() as nat));
                assert(self.next_of(i) == old(self).next_of(i + 1));
            }
            assert(self.contents(heap) =~= old(self).contents(&h0).drop_first()) by {
                assert forall|i: int| 0 <= i < nodes.len() implies self.contents(heap)[i] == old(self).contents(
                    &h0,
                ).drop_first()[i] by {
                    assert(nodes[i] == old_nodes[i + 1]);
                    assert(h0.live(old_nodes[i + 1].spec_addr() as nat));
                }
            }
            assert(!self.owns(data.spec_addr() as nat)) by {
                if self.owns(data.spec_addr() as nat) {
                    let i = choose|i: int| 0 <= i < nodes.len() && (#[trigger] nodes[i]).spec_addr() == data.spec_addr();
                    assert(nodes[i] == old_nodes[i + 1]);
                    assert(h0.live(old_nodes[i + 1].spec_addr() as nat));
                    assert(old_nodes[i + 1].spec_addr() != old_nodes[0].spec_addr());
                }
            }
            let (full, offset, payload) = self.node.layouts(data.spec_metadata())->0;
            h0.lemma_live_block(head.spec_addr() as nat);
        }
        Some(data)
    }
    /// A heap step that keeps every block but one the list does not own
    /// keeps the list and its contents.
    pub proof fn lemma_frame(&self, h1: &Heap, h2: &Heap, a: nat)
        requires
            self.wf(h1),
            h2.wf(),
            !self.owns(a),
            keeps_others(h1, h2, a),
        ensures
            self.wf(h2),
            self.contents(h2) == self.contents(h1),
    {
        let nodes = self.nodes@;
        assert forall|i: int| 0 <= i < nodes.len() implies self.node_ok(h2, #[trigger] nodes[i]) by {
            assert(h1.live(nodes[i].spec_addr() as nat));
        }
        assert forall|i: int| 0 <= i < nodes.len() implies h2.bytes_at((#[trigger] nodes[i]).spec_addr() as nat).take(
            NEXT_BYTES as int,
        ) == next_bytes(self.next_of(i)) by {
            assert(h1.live(nodes[i].spec_addr() as nat));
        }
        assert(self.contents(h2) =~= self.contents(h1)) by {
            assert forall|i: int| 0 <= i < nodes.len() implies self.contents(h2)[i] == self.contents(h1)[i] by {
                assert(h1.live(nodes[i].spec_addr() as nat));
            }
        }
    }

    /// Takes the first node off the list and returns its payload bytes;
    /// the node's memory is freed. `None` when the list is empty.
    pub fn pop(&mut self, heap: &mut Heap) -> (r: Option<Vec<u8>>)
        requires
            old(self).wf(old(heap)),
        ensures
            r is None <==> old(self).spec_len() == 0,
            r is None ==> *final(heap) == *old(heap) && *final(self) == *old(self),
            r matches Some(bytes) ==> {
                let first = old(self).spec_nodes()[0];
                &&& final(self).wf(final(heap))
                &&& final(self).spec_len() + 1 == old(self).spec_len()
                &&& bytes@ == old(self).contents(old(heap))[0]
                &&& final(self).contents(final(heap)) == old(self).contents(old(heap)).drop_first()
                &&& old(self).spec_node().layouts(first.spec_metadata()) matches Some((full, offset, payload))
                    && final(heap).spec_in_use() + full.size == old(heap).spec_in_use()
                &&& !final(heap).live(first.spec_addr() as nat)
            },
    {
        let ghost h0 = *heap;
        let head = match self.head {
            None => return None,
            Some(h) => h,
        };
        let (full, offset, payload) = match self.node.repr.fields().layout_with_last_field(&head) {
            Ok(data) => data,
            Err(_) => unreached(),
        };
        let shrinks = heap.room_for(payload.size(), full.size());
        let data = match self.pop_boxed(heap) {
            Some(d) => d,
            None => unreached(),
        };
        let ghost h1 = *heap;
        let ghost popped = *self;
        proof {
            h1.lemma_live_block(data.spec_addr() as nat);
        }
        let bytes = heap.read(data, 0, payload.size());
        let block = if shrinks {
            payload
        } else {
            full
        };
        heap.deallocate(data, block);
        proof {
            assert(bytes@ =~= h1.bytes_at(data.spec_addr() as nat).take(payload@.size as int));
            popped.lemma_frame(&h1, heap, data.spec_addr() as nat);
            if shrinks {
                assert(!h1.live(head.spec_addr() as nat));
            } else {
                assert(data.spec_addr() == head.spec_addr());
            }
        }
        Some(bytes)
    }

    /// The layout of a sized payload.
    fn sized_payload(&self) -> (r: Layout)
        requires
            self.spec_node().spec_payload() is Sized,
        ensures
            self.spec_node().spec_payload() == Pointee::Sized(r),
    {
        match self.node.payload() {
            Pointee::Sized(l) => l,
            Pointee::Slice(_) => unreached(),
        }
    }

    /// Boxes the sized payload `data` and puts it in a new node at the
    /// front. Fails when the heap has no room; the list and the bytes in use
    /// then stay as they were.
    pub fn push_head(&mut self, heap: &mut Heap, data: &[u8]) -> (r: Result<(), AllocError>)
        requires
            old(self).wf(old(heap)),
            old(self).spec_len() < usize::MAX,
            old(self).spec_node().spec_payload() matches Pointee::Sized(l) && data@.len() == l@.size,
            old(self).spec_node().layouts(None) is Some,
        ensures
            final(self).wf(final(heap)),
            r is Err ==> *final(self) == *old(self) && final(heap).spec_in_use() == old(heap).spec_in_use(),
            r is Ok ==> {
                &&& final(self).spec_len() == old(self).spec_len() + 1
                &&& final(self).contents(final(heap)) == seq![data@] + old(self).contents(old(heap))
            },
            old(self).spec_node().spec_payload() matches Pointee::Sized(l) && old(self).spec_node().layouts(None) matches Some(
                (full, offset, payload),
            ) && (r is Ok <==> {
                &&& old(heap).spec_in_use() + full.size <= old(heap).spec_limit()
                &&& old(heap).used() + payload.size + full.size <= usize::MAX
                &&& old(heap).count() + 2 < usize::MAX
            }),
    {
        let l = self.sized_payload();
        let ghost h0 = *heap;
        proof {
            let (full, offset, payload) = self.node.layouts(None)->0;
            assert(payload == l@);
            assert(full.size >= payload.size);
        }
        let b = match heap.allocate(l) {
            Ok(b) => b,
            Err(e) => return Err(e),
        };
        heap.write(b, 0, data);
        let ghost h1 = *heap;
        proof {
            self.lemma_frame(&h0, &h1, b.spec_addr() as nat);
            assert(h1.bytes_at(b.spec_addr() as nat) =~= data@);
            assert(!self.owns(b.spec_addr() as nat));
        }
        match self.push_head_boxed(heap, b) {
            Ok(()) => Ok(()),
            Err(e) => {
                heap.deallocate(b, l);
                proof {
                    self.lemma_frame(&h1, heap, b.spec_addr() as nat);
                }
                Err(e)
            },
        }
    }

    /// Boxes the sized payload `data` and puts it in a new node at the back.
    /// Fails when the heap has no room; the list and the bytes in use then
    /// stay as they were.
    pub fn push_tail(&mut self, heap: &mut Heap, data: &[u8]) -> (r: Result<(), AllocError>)
        requires
            old(self).wf(old(heap)),
            old(self).spec_len() < usize::MAX,
            old(self).spec_node().spec_payload() matches Pointee::Sized(l) && data@.len() == l@.size,
            old(self).spec_node().layouts(None) is Some,
        ensures
            final(self).wf(final(heap)),
            r is Err ==> *final(self) == *old(self) && final(heap).spec_in_use() == old(heap).spec_in_use(),
            r is Ok ==> {
                &&& final(self).spec_len() == old(self).spec_len() + 1
                &&& final(self).contents(final(heap)) == old(self).contents(old(heap)).push(data@)
            },
            old(self).spec_node().spec_payload() matches Pointee::Sized(l) && old(self).spec_node().layouts(None) matches Some(
                (full, offset, payload),
            ) && (r is Ok <==> {
                &&& old(heap).spec_in_use() + full.size <= old(heap).spec_limit()
                &&& old(heap).used() + payload.size + full.size <= usize::MAX
                &&& old(heap).count() + 2 < usize::MAX
            }),
    {
        let l = self.sized_payload();
        let ghost h0 = *heap;
        proof {
            let (full, offset, payload) = self.node.layouts(None)->0;
            assert(payload == l@);
            assert(full.size >= payload.size);
        }
        let b = match heap.allocate(l) {
            Ok(b) => b,
            Err(e) => return Err(e),
        };
        heap.write(b, 0, data);
        let ghost h1 = *heap;
        proof {
            self.lemma_frame(&h0, &h1, b.spec_addr() as nat);
            assert(h1.bytes_at(b.spec_addr() as nat) =~= data@);
            assert(!self.owns(b.spec_addr() as nat));
        }
        match self.push_tail_boxed(heap, b) {
            Ok(()) => Ok(()),
            Err(e) => {
                heap.deallocate(b, l);
                proof {
                    self.lemma_frame(&h1, heap, b.spec_addr() as nat);
                }
                Err(e)
            },
        }
    }
    /// Payload bytes of the last node; `None` when the list is empty.
    pub fn tail(&self, heap: &Heap) -> (r: Option<Vec<u8>>)
        requires
            self.wf(heap),
        ensures
            r is None <==> self.spec_len() == 0,
            r matches Some(bytes) ==> bytes@ == self.contents(heap).last(),
    {
        let t = match self.tail {
            None => return None,
            Some(t) => t,
        };
        let (_, offset, payload) = match self.node.repr.fields().layout_with_last_field(&t) {
            Ok(data) => data,
            Err(_) => unreached(),
        };
        proof {
            assert(t == self.nodes@.last());
            assert(self.node_ok(heap, self.nodes@[self.nodes@.len() - 1]));
            heap.lemma_live_block(t.spec_addr() as nat);
        }
        Some(heap.read(t, offset, payload.size()))
    }
}

} // verus!
