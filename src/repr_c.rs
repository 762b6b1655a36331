//! Aggregates laid out as C structs: sized start fields followed by a last
//! field that may be a slice. A boxed last field is expanded into a boxed
//! aggregate in its own block, and an aggregate is split back.
use crate::heap::{grow_with, keeps_others, lemma_keeps_others_trans, shrink_with, splice, AllocError, Heap};
use crate::layout::{
    extend_all, lemma_extend_all_bounds, lemma_extend_offset, nats, views,
    Layout, LayoutError, LayoutView,
};
use crate::ptr::{NonNull, Pointee};
use vstd::pervasive::unreached;
use vstd::prelude::*;

verus! {

/// Why an operation on a field tuple could not run.
#[derive(Debug, Clone, Copy, PartialEq, Eq, Structural)]
pub enum FieldError {
    /// The tuple has no fields, so no last field to read or write.
    NoLastField,
    /// The aggregate's layout cannot be described.
    Layout(LayoutError),
}

/// Contents of each byte buffer.
pub open spec fn byte_views(values: Seq<Vec<u8>>) -> Seq<Seq<u8>> {
    values.map_values(|v: Vec<u8>| v@)
}

proof fn lemma_splice_index(bytes: Seq<u8>, offset: int, data: Seq<u8>)
    requires
        0 <= offset,
        offset + data.len() <= bytes.len(),
    ensures
        splice(bytes, offset, data).len() == bytes.len(),
        forall|j: int|
            0 <= j < bytes.len() ==> #[trigger] splice(bytes, offset, data)[j] == if offset <= j < offset
                + data.len() {
                data[j - offset]
            } else {
                bytes[j]
            },
{
}

/// The field types of an aggregate, as layouts, in declaration order: the
/// sized start fields, and the last field if there is one.
pub struct FieldTuple {
    start: Vec<Layout>,
    offsets: Vec<usize>,
    start_layout: Layout,
    last: Option<Pointee>,
}

impl FieldTuple {
    pub closed spec fn wf(&self) -> bool {
        &&& extend_all(LayoutView { size: 0, align: 1 }, views(self.start@)) == Some(
            (self.start_layout@, nats(self.offsets@)),
        )
        &&& forall|i: int| 0 <= i < self.start@.len() ==> (#[trigger] self.start@[i])@.valid()
        &&& self.start_layout@.valid()
    }

    /// Layouts of the start fields.
    pub closed spec fn spec_start(&self) -> Seq<LayoutView> {
        views(self.start@)
    }

    /// Offsets of the start fields.
    pub closed spec fn spec_offsets(&self) -> Seq<nat> {
        nats(self.offsets@)
    }

    /// Layout of the start fields together, unpadded.
    pub closed spec fn spec_start_layout(&self) -> LayoutView {
        self.start_layout@
    }

    /// The last field, if there is one.
    pub closed spec fn spec_last(&self) -> Option<Pointee> {
        self.last
    }

    /// The start fields lie one after another within the start layout.
    pub proof fn lemma_fields(&self)
        requires
            self.wf(),
        ensures
            self.spec_offsets().len() == self.spec_start().len(),
            self.spec_start_layout().valid(),
            extend_all(LayoutView { size: 0, align: 1 }, self.spec_start()) == Some(
                (self.spec_start_layout(), self.spec_offsets()),
            ),
            forall|i: int|
                0 <= i < self.spec_start().len() ==> #[trigger] self.spec_offsets()[i] + self.spec_start()[i].size
                    <= self.spec_start_layout().size,
            forall|i: int, j: int|
                0 <= i < j < self.spec_start().len() ==> #[trigger] self.spec_offsets()[i]
                    + self.spec_start()[i].size <= #[trigger] self.spec_offsets()[j],
    {
        reveal(vstd::arithmetic::power2::is_pow2);
        lemma_extend_all_bounds(LayoutView { size: 0, align: 1 }, views(self.start@));
    }

    /// Whole layout (padded), offset of the last field and its layout, for a
    /// last field whose pointer carries `metadata`.
    pub open spec fn spec_layout_with_last(&self, metadata: Option<usize>) -> Option<(LayoutView, nat, LayoutView)> {
        match self.spec_last() {
            None => None,
            Some(p) => match p.value_layout(metadata) {
                None => None,
                Some(last) => match self.spec_start_layout().extend(last) {
                    None => None,
                    Some((l, offset)) => Some((l.pad_to_align(), offset, last)),
                },
            },
        }
    }

    /// The bytes of each start field within the aggregate `bytes`.
    pub open spec fn field_bytes(&self, bytes: Seq<u8>) -> Seq<Seq<u8>> {
        Seq::new(
            self.spec_start().len(),
            |i: int| bytes.subrange(self.spec_offsets()[i] as int, (self.spec_offsets()[i] + self.spec_start()[i].size) as int),
        )
    }

    /// The descriptor of an aggregate with the given start fields and last
    /// field (`None`: the aggregate has no fields at all, and `start` is
    /// ignored). Fails when the start fields overflow.
    pub fn new(start: Vec<Layout>, last: Option<Pointee>) -> (r: Result<FieldTuple, LayoutError>)
        ensures
            last is Some ==> (r is Ok <==> extend_all(LayoutView { size: 0, align: 1 }, views(start@)) is Some),
            last is None ==> r is Ok,
            r matches Ok(t) ==> {
                &&& t.wf()
                &&& t.spec_last() == last
                &&& last is Some ==> t.spec_start() == views(start@)
                &&& last is None ==> t.spec_start().len() == 0
            },
    {
        let start = match last {
            Some(_) => start,
            None => Vec::new(),
        };
        proof {
            reveal(vstd::arithmetic::power2::is_pow2);
        }
        let (start_layout, offsets) = match Layout::empty().extend_many(start.as_slice()) {
            Ok(data) => data,
            Err(e) => return Err(e),
        };
        proof {
            lemma_extend_all_bounds(LayoutView { size: 0, align: 1 }, views(start@));
        }
        Ok(FieldTuple { start, offsets, start_layout, last })
    }

    /// Whole layout (padded to its alignment), offset of the last field and
    /// the last field's layout, for the last field that `last` points to.
    pub fn layout_with_last_field(&self, last: &NonNull) -> (r: Result<(Layout, usize, Layout), FieldError>)
        requires
            self.wf(),
        ensures
            r is Ok <==> self.spec_layout_with_last(last.spec_metadata()) is Some,
            r matches Ok((l, offset, last_layout)) ==> self.spec_layout_with_last(last.spec_metadata()) == Some(
                (l@, offset as nat, last_layout@),
            ),
            r matches Ok((l, offset, last_layout)) ==> last_layout@.valid(),
            self.spec_last() is None ==> r == Err::<(Layout, usize, Layout), FieldError>(FieldError::NoLastField),
    {
        let pointee = match self.last {
            None => return Err(FieldError::NoLastField),
            Some(p) => p,
        };
        let last_layout = match pointee.layout_for(last) {
            Ok(l) => l,
            Err(e) => return Err(FieldError::Layout(e)),
        };
        match self.start_layout.extend(last_layout) {
            Ok((layout, offset)) => Ok((layout.pad_to_align(), offset, last_layout)),
            Err(e) => Err(FieldError::Layout(e)),
        }
    }

    /// Writes the start field `values` into the block at `base` at their
    /// offsets. Bytes from the end of the start fields on are left as they
    /// were.
    pub fn write_start(&self, heap: &mut Heap, base: NonNull, values: &Vec<Vec<u8>>)
        requires
            self.wf(),
            old(heap).wf(),
            old(heap).live(base.spec_addr() as nat),
            old(heap).layout_at(base.spec_addr() as nat).size >= self.spec_start_layout().size,
            values@.len() == self.spec_start().len(),
            forall|i: int| 0 <= i < values@.len() ==> (#[trigger] values@[i])@.len() == self.spec_start()[i].size,
        ensures
            final(heap).wf(),
            final(heap).spec_limit() == old(heap).spec_limit(),
            final(heap).spec_in_use() == old(heap).spec_in_use(),
            final(heap).live(base.spec_addr() as nat),
            final(heap).layout_at(base.spec_addr() as nat) == old(heap).layout_at(base.spec_addr() as nat),
            self.field_bytes(final(heap).bytes_at(base.spec_addr() as nat)) == byte_views(values@),
            final(heap).bytes_at(base.spec_addr() as nat).skip(self.spec_start_layout().size as int)
                == old(heap).bytes_at(base.spec_addr() as nat).skip(self.spec_start_layout().size as int),
            keeps_others(old(heap), final(heap), base.spec_addr() as nat),
            final(heap).used() == old(heap).used(),
            final(heap).count() == old(heap).count(),
            forall|b: nat| #[trigger] final(heap).live(b) == old(heap).live(b),
    {
        let ghost a = base.spec_addr() as nat;
        let ghost h0 = *heap;
        let ghost start_size = self.spec_start_layout().size as int;
        proof {
            self.lemma_fields();
            h0.lemma_live_block(a);
        }
        let mut i: usize = 0;
        while i < values.len()
            invariant
                self.wf(),
                i <= values@.len(),
                values@.len() == self.spec_start().len(),
                self.offsets@.len() == values@.len(),
                forall|k: int| 0 <= k < values@.len() ==> (#[trigger] values@[k])@.len() == self.spec_start()[k].size,
                forall|k: int|
                    0 <= k < self.spec_start().len() ==> #[trigger] self.spec_offsets()[k] + self.spec_start()[k].size
                        <= start_size,
                forall|k: int, j: int|
                    0 <= k < j < self.spec_start().len() ==> #[trigger] self.spec_offsets()[k]
                        + self.spec_start()[k].size <= #[trigger] self.spec_offsets()[j],
                start_size == self.spec_start_layout().size,
                start_size <= h0.layout_at(a).size,
                a == base.spec_addr(),
                heap.wf(),
                heap.spec_limit() == h0.spec_limit(),
                heap.spec_in_use() == h0.spec_in_use(),
                heap.live(a),
                heap.layout_at(a) == h0.layout_at(a),
                heap.bytes_at(a).len() == h0.bytes_at(a).len(),
                h0.bytes_at(a).len() == h0.layout_at(a).size,
                forall|k: int|
                    0 <= k < i ==> #[trigger] heap.bytes_at(a).subrange(
                        self.spec_offsets()[k] as int,
                        (self.spec_offsets()[k] + self.spec_start()[k].size) as int,
                    ) == values@[k]@,
                heap.bytes_at(a).skip(start_size) == h0.bytes_at(a).skip(start_size),
                keeps_others(&h0, heap, a),
                heap.used() == h0.used(),
                heap.count() == h0.count(),
                forall|b: nat| #[trigger] heap.live(b) == h0.live(b),
            decreases values@.len() - i,
        {
            let ghost h1 = *heap;
            let offset = self.offsets[i];
            proof {
                assert(self.spec_offsets()[i as int] == offset as nat);
            }
            heap.write(base, offset, values[i].as_slice());
            proof {
                let o = offset as int;
                let d = values@[i as int]@;
                lemma_splice_index(h1.bytes_at(a), o, d);
                assert forall|k: int| 0 <= k < i + 1 implies #[trigger] heap.bytes_at(a).subrange(
                    self.spec_offsets()[k] as int,
                    (self.spec_offsets()[k] + self.spec_start()[k].size) as int,
                ) == values@[k]@ by {
                    let lo = self.spec_offsets()[k] as int;
                    let hi = (self.spec_offsets()[k] + self.spec_start()[k].size) as int;
                    if k < i {
                        assert(heap.bytes_at(a).subrange(lo, hi) =~= h1.bytes_at(a).subrange(lo, hi));
                    } else {
                        assert(heap.bytes_at(a).subrange(lo, hi) =~= d);
                    }
                }
                assert(heap.bytes_at(a).skip(start_size) =~= h1.bytes_at(a).skip(start_size));
            }
            i += 1;
        }
        proof {
            assert(self.field_bytes(heap.bytes_at(a)) =~= byte_views(values@));
        }
    }

    /// Reads the start fields of the aggregate in the block at `base`.
    pub fn read_start(&self, heap: &Heap, base: NonNull) -> (r: Vec<Vec<u8>>)
        requires
            self.wf(),
            heap.wf(),
            heap.live(base.spec_addr() as nat),
            heap.layout_at(base.spec_addr() as nat).size >= self.spec_start_layout().size,
        ensures
            byte_views(r@) == self.field_bytes(heap.bytes_at(base.spec_addr() as nat)),
    {
        let ghost a = base.spec_addr() as nat;
        proof {
            self.lemma_fields();
        }
        let mut out: Vec<Vec<u8>> = Vec::new();
        let mut i: usize = 0;
        while i < self.start.len()
            invariant
                self.wf(),
                i <= self.start@.len(),
                self.offsets@.len() == self.start@.len(),
                self.start@.len() == self.spec_start().len(),
                forall|k: int|
                    0 <= k < self.spec_start().len() ==> #[trigger] self.spec_offsets()[k] + self.spec_start()[k].size
                        <= self.spec_start_layout().size,
                heap.wf(),
                heap.live(a),
                a == base.spec_addr(),
                heap.layout_at(a).size >= self.spec_start_layout().size,
                byte_views(out@) == self.field_bytes(heap.bytes_at(a)).take(i as int),
            decreases self.start@.len() - i,
        {
            let offset = self.offsets[i];
            let size = self.start[i].size();
            proof {
                assert(self.spec_offsets()[i as int] == offset as nat);
                assert(self.spec_start()[i as int] == self.start@[i as int]@);
            }
            let field = heap.read(base, offset, size);
            let ghost prev = out@;
            let ghost fv = field@;
            out.push(field);
            i += 1;
            proof {
                assert(byte_views(out@) =~= byte_views(prev).push(fv));
                assert(byte_views(out@) =~= self.field_bytes(heap.bytes_at(a)).take(i as int));
            }
        }
        proof {
            assert(self.field_bytes(heap.bytes_at(a)).take(i as int) =~= self.field_bytes(heap.bytes_at(a)));
        }
        out
    }

    /// Copies the last field that `last` points to into the aggregate in the
    /// block at `base`, at the last field's offset. The two may overlap.
    pub fn write_last(&self, heap: &mut Heap, base: NonNull, last: NonNull) -> (r: Result<(), FieldError>)
        requires
            self.wf(),
            old(heap).wf(),
            old(heap).live(base.spec_addr() as nat),
            old(heap).live(last.spec_addr() as nat),
            self.spec_layout_with_last(last.spec_metadata()) matches Some((l, offset, last_layout)) ==> {
                &&& old(heap).layout_at(base.spec_addr() as nat).size >= offset + last_layout.size
                &&& old(heap).layout_at(last.spec_addr() as nat).size >= last_layout.size
            },
        ensures
            r is Ok <==> self.spec_layout_with_last(last.spec_metadata()) is Some,
            r is Err ==> *final(heap) == *old(heap),
            self.spec_last() is None ==> r == Err::<(), FieldError>(FieldError::NoLastField),
            final(heap).wf(),
            final(heap).spec_limit() == old(heap).spec_limit(),
            final(heap).spec_in_use() == old(heap).spec_in_use(),
            final(heap).live(base.spec_addr() as nat),
            final(heap).layout_at(base.spec_addr() as nat) == old(heap).layout_at(base.spec_addr() as nat),
            keeps_others(old(heap), final(heap), base.spec_addr() as nat),
            final(heap).used() == old(heap).used(),
            final(heap).count() == old(heap).count(),
            forall|b: nat| #[trigger] final(heap).live(b) == old(heap).live(b),
            self.spec_layout_with_last(last.spec_metadata()) matches Some((l, offset, last_layout)) ==> final(heap).bytes_at(
                base.spec_addr() as nat,
            ) == splice(
                old(heap).bytes_at(base.spec_addr() as nat),
                offset as int,
                old(heap).bytes_at(last.spec_addr() as nat).take(last_layout.size as int),
            ),
    {
        let (_, offset, layout) = match self.layout_with_last_field(&last) {
            Ok(data) => data,
            Err(e) => return Err(e),
        };
        heap.copy(last, 0, base, offset, layout.size());
        proof {
            assert(old(heap).bytes_at(last.spec_addr() as nat).subrange(0, layout@.size as int)
                =~= old(heap).bytes_at(last.spec_addr() as nat).take(layout@.size as int));
        }
        Ok(())
    }

    /// Copies the last field of the aggregate in the block at `base` to the
    /// start of the block that `last` points to. The two may overlap.
    pub fn read_last(&self, heap: &mut Heap, base: NonNull, last: NonNull) -> (r: Result<(), FieldError>)
        requires
            self.wf(),
            old(heap).wf(),
            old(heap).live(base.spec_addr() as nat),
            old(heap).live(last.spec_addr() as nat),
            self.spec_layout_with_last(last.spec_metadata()) matches Some((l, offset, last_layout)) ==> {
                &&& old(heap).layout_at(base.spec_addr() as nat).size >= offset + last_layout.size
                &&& old(heap).layout_at(last.spec_addr() as nat).size >= last_layout.size
            },
        ensures
            r is Ok <==> self.spec_layout_with_last(last.spec_metadata()) is Some,
            r is Err ==> *final(heap) == *old(heap),
            self.spec_last() is None ==> r == Err::<(), FieldError>(FieldError::NoLastField),
            final(heap).wf(),
            final(heap).spec_limit() == old(heap).spec_limit(),
            final(heap).spec_in_use() == old(heap).spec_in_use(),
            final(heap).live(last.spec_addr() as nat),
            final(heap).layout_at(last.spec_addr() as nat) == old(heap).layout_at(last.spec_addr() as nat),
            keeps_others(old(heap), final(heap), last.spec_addr() as nat),
            final(heap).used() == old(heap).used(),
            final(heap).count() == old(heap).count(),
            forall|b: nat| #[trigger] final(heap).live(b) == old(heap).live(b),
            self.spec_layout_with_last(last.spec_metadata()) matches Some((l, offset, last_layout)) ==> final(heap).bytes_at(
                last.spec_addr() as nat,
            ) == splice(
                old(heap).bytes_at(last.spec_addr() as nat),
                0,
                old(heap).bytes_at(base.spec_addr() as nat).subrange(offset as int, (offset + last_layout.size) as int),
            ),
    {
        let (_, offset, layout) = match self.layout_with_last_field(&last) {
            Ok(data) => data,
            Err(e) => return Err(e),
        };
        heap.copy(base, offset, last, 0, layout.size());
        Ok(())
    }

    /// Layout of the start fields together, unpadded.
    pub fn start_layout(&self) -> (r: Layout)
        ensures
            r@ == self.spec_start_layout(),
    {
        self.start_layout
    }
}

/// `agg` points to the aggregate that expanding the last field at `last` in
/// `h0`, with start fields `fields`, leaves in `h1`: a new block of the
/// whole layout, the fields at their offsets and the last field's bytes at
/// its offset; the last field's own block is gone and no other block changed.
pub open spec fn expanded(ft: FieldTuple, h0: Heap, h1: Heap, last: NonNull, fields: Seq<Seq<u8>>, agg: NonNull) -> bool {
    match ft.spec_layout_with_last(last.spec_metadata()) {
        None => false,
        Some((full, offset, last_layout)) => {
            &&& h1.wf()
            &&& h1.spec_limit() == h0.spec_limit()
            &&& agg.spec_metadata() == last.spec_metadata()
            &&& !h0.live(agg.spec_addr() as nat)
            &&& h1.live(agg.spec_addr() as nat)
            &&& !h1.live(last.spec_addr() as nat)
            &&& h1.layout_at(agg.spec_addr() as nat) == full
            &&& h1.bytes_at(agg.spec_addr() as nat).len() == full.size
            &&& ft.field_bytes(h1.bytes_at(agg.spec_addr() as nat)) == fields
            &&& h1.bytes_at(agg.spec_addr() as nat).subrange(offset as int, (offset + last_layout.size) as int)
                == h0.bytes_at(last.spec_addr() as nat)
            &&& h1.spec_in_use() + last_layout.size == h0.spec_in_use() + full.size
            &&& keeps_others(&h0, &h1, last.spec_addr() as nat)
        },
    }
}

/// Splitting the aggregate at `agg` in `h1` left its last field at `last`
/// and returned its start fields `fields`, in `h2`. With `try_shrink`, when
/// the heap has room, the last field gets a block of exactly its layout and
/// the aggregate's block is freed; otherwise the last field stays at the
/// start of the aggregate's block.
pub open spec fn split_off(ft: FieldTuple, h1: Heap, h2: Heap, agg: NonNull, try_shrink: bool, last: NonNull, fields: Seq<Seq<u8>>) -> bool {
    match ft.spec_layout_with_last(agg.spec_metadata()) {
        None => false,
        Some((full, offset, last_layout)) => {
            &&& h2.wf()
            &&& h2.spec_limit() == h1.spec_limit()
            &&& last.spec_metadata() == agg.spec_metadata()
            &&& h2.live(last.spec_addr() as nat)
            &&& fields == ft.field_bytes(h1.bytes_at(agg.spec_addr() as nat))
            &&& h2.bytes_at(last.spec_addr() as nat).take(last_layout.size as int)
                == h1.bytes_at(agg.spec_addr() as nat).subrange(offset as int, (offset + last_layout.size) as int)
            &&& keeps_others(&h1, &h2, agg.spec_addr() as nat)
            &&& if try_shrink && h1.has_room(last_layout.size, full.size) {
                &&& !h1.live(last.spec_addr() as nat)
                &&& h2.layout_at(last.spec_addr() as nat) == last_layout
                &&& !h2.live(agg.spec_addr() as nat)
                &&& h2.spec_in_use() + full.size == h1.spec_in_use() + last_layout.size
            } else {
                &&& last.spec_addr() == agg.spec_addr()
                &&& h2.layout_at(last.spec_addr() as nat) == full
                &&& h2.spec_in_use() == h1.spec_in_use()
            }
        },
    }
}

/// An aggregate laid out as a C struct, described by its fields.
pub struct ReprC {
    fields: FieldTuple,
}

impl ReprC {
    pub closed spec fn spec_fields(&self) -> FieldTuple {
        self.fields
    }

    pub open spec fn wf(&self) -> bool {
        self.spec_fields().wf()
    }

    /// The aggregate with the given fields.
    pub fn new(fields: FieldTuple) -> (r: ReprC)
        ensures
            r.spec_fields() == fields,
    {
        ReprC { fields }
    }

    /// Its fields.
    pub fn fields(&self) -> (r: &FieldTuple)
        ensures
            *r == self.spec_fields(),
    {
        &self.fields
    }

    /// Turns the boxed last field at `last` (a block of exactly its layout)
    /// into a boxed aggregate: grows the block to the whole layout, moves the
    /// last field to its offset, then writes the start `fields` before it.
    /// The returned pointer keeps the metadata of `last`.
    ///
    /// Fails, changing nothing, when the heap has no room for the grown
    /// block; `last` then still owns its block.
    pub fn expand(&self, heap: &mut Heap, last: NonNull, fields: &Vec<Vec<u8>>) -> (r: Result<NonNull, AllocError>)
        requires
            self.wf(),
            old(heap).wf(),
            old(heap).live(last.spec_addr() as nat),
            self.spec_fields().spec_layout_with_last(last.spec_metadata()) matches Some((full, offset, last_layout))
                && old(heap).layout_at(last.spec_addr() as nat) == last_layout,
            fields@.len() == self.spec_fields().spec_start().len(),
            forall|i: int| 0 <= i < fields@.len() ==> (#[trigger] fields@[i])@.len() == self.spec_fields().spec_start()[i].size,
        ensures
            self.spec_fields().spec_layout_with_last(last.spec_metadata()) matches Some((full, offset, last_layout))
                && (r is Ok <==> old(heap).has_room(full.size, last_layout.size))
                && (r matches Err(e) ==> e.spec_layout()@ == full),
            r is Err ==> *final(heap) == *old(heap),
            r matches Ok(agg) ==> expanded(self.spec_fields(), *old(heap), *final(heap), last, byte_views(fields@), agg),
    {
        let ghost ft = self.fields;
        let ghost h0 = *heap;
        let (full, offset, last_layout) = match self.fields.layout_with_last_field(&last) {
            Ok(data) => data,
            Err(_) => unreached(),
        };
        proof {
            ft.lemma_fields();
            let ll = last_layout@;
            lemma_extend_offset(ft.spec_start_layout(), ll);
            h0.lemma_live_block(last.spec_addr() as nat);
        }
        let this = match grow_with(last, last_layout, full, heap) {
            Ok(p) => p,
            Err(e) => return Err(e),
        };
        let ghost h1 = *heap;
        let ghost a = this.spec_addr() as nat;
        let _ = self.fields.write_last(heap, this, this);
        let ghost h2 = *heap;
        self.fields.write_start(heap, this, fields);
        proof {
            let ss = ft.spec_start_layout().size as int;
            let o = offset as int;
            let n = last_layout@.size as int;
            heap.lemma_live_block(a);
            h2.lemma_live_block(a);
            h1.lemma_live_block(a);
            lemma_keeps_others_trans(&h0, &h1, &h2, last.spec_addr() as nat, a);
            lemma_keeps_others_trans(&h0, &h2, heap, last.spec_addr() as nat, a);
            lemma_splice_index(h1.bytes_at(a), o, h1.bytes_at(a).take(n));
            assert(h2.bytes_at(a).subrange(o, o + n) =~= h0.bytes_at(last.spec_addr() as nat));
            assert(heap.bytes_at(a).subrange(o, o + n) =~= h2.bytes_at(a).subrange(o, o + n)) by {
                assert forall|j: int| o <= j < o + n implies heap.bytes_at(a)[j] == h2.bytes_at(a)[j] by {
                    assert(heap.bytes_at(a).skip(ss)[j - ss] == h2.bytes_at(a).skip(ss)[j - ss]);
                }
            }
        }
        Ok(this)
    }

    /// Splits the boxed aggregate at `this` (a block of exactly its layout)
    /// into its last field and its start fields: reads the start fields,
    /// moves the last field to the start of the block, then, with
    /// `try_shrink`, shrinks the block to the last field's layout. Should
    /// shrinking fail, the last field keeps the larger block. The returned
    /// pointer keeps the metadata of `this`.
    pub fn split(&self, heap: &mut Heap, this: NonNull, try_shrink: bool) -> (r: (NonNull, Vec<Vec<u8>>))
        requires
            self.wf(),
            old(heap).wf(),
            old(heap).live(this.spec_addr() as nat),
            self.spec_fields().spec_layout_with_last(this.spec_metadata()) matches Some((full, offset, last_layout))
                && old(heap).layout_at(this.spec_addr() as nat) == full,
        ensures
            split_off(self.spec_fields(), *old(heap), *final(heap), this, try_shrink, r.0, byte_views(r.1@)),
    {
        let ghost ft = self.fields;
        let ghost h0 = *heap;
        let ghost a = this.spec_addr() as nat;
        let (full, offset, last_layout) = match self.fields.layout_with_last_field(&this) {
            Ok(data) => data,
            Err(_) => unreached(),
        };
        proof {
            ft.lemma_fields();
            lemma_extend_offset(ft.spec_start_layout(), last_layout@);
            h0.lemma_live_block(a);
        }
        let start = self.fields.read_start(heap, this);
        let _ = self.fields.read_last(heap, this, this);
        let ghost h1 = *heap;
        let ghost o = offset as int;
        let ghost n = last_layout@.size as int;
        proof {
            lemma_splice_index(h0.bytes_at(a), 0, h0.bytes_at(a).subrange(o, o + n));
            assert(h1.bytes_at(a).take(n) =~= h0.bytes_at(a).subrange(o, o + n));
        }
        if try_shrink {
            match shrink_with(this, full, last_layout, heap) {
                Ok(p) => {
                    proof {
                        lemma_keeps_others_trans(&h0, &h1, heap, a, a);
                        let q = p.spec_addr() as nat;
                        heap.lemma_live_block(q);
                        assert(heap.bytes_at(q).take(n) =~= heap.bytes_at(q));
                    }
                    (p, start)
                },
                Err(_) => (this, start),
            }
        } else {
            (this, start)
        }
    }
}

/// Splitting, with shrinking, the aggregate just expanded from a boxed last
/// field gives back that last field (same metadata, layout and bytes) and
/// the same start fields, and the heap holds as many live bytes as before.
pub proof fn lemma_expand_split_round_trip(
    ft: FieldTuple,
    h0: Heap,
    h1: Heap,
    h2: Heap,
    last: NonNull,
    fields: Seq<Seq<u8>>,
    agg: NonNull,
    back: NonNull,
    back_fields: Seq<Seq<u8>>,
)
    requires
        h0.wf(),
        h0.live(last.spec_addr() as nat),
        ft.spec_layout_with_last(last.spec_metadata()) matches Some((full, offset, last_layout))
            && h0.layout_at(last.spec_addr() as nat) == last_layout
            && h1.has_room(last_layout.size, full.size),
        expanded(ft, h0, h1, last, fields, agg),
        split_off(ft, h1, h2, agg, true, back, back_fields),
    ensures
        back.spec_metadata() == last.spec_metadata(),
        h2.live(back.spec_addr() as nat),
        h2.layout_at(back.spec_addr() as nat) == h0.layout_at(last.spec_addr() as nat),
        h2.bytes_at(back.spec_addr() as nat) == h0.bytes_at(last.spec_addr() as nat),
        back_fields == fields,
        h2.spec_in_use() == h0.spec_in_use(),
        keeps_others(&h0, &h2, last.spec_addr() as nat),
{
    let (full, offset, ll) = ft.spec_layout_with_last(last.spec_metadata())->0;
    h0.lemma_live_block(last.spec_addr() as nat);
    h2.lemma_live_block(back.spec_addr() as nat);
    assert(h2.bytes_at(back.spec_addr() as nat).take(ll.size as int) =~= h2.bytes_at(back.spec_addr() as nat));
    assert forall|b: nat| b != last.spec_addr() && #[trigger] h0.live(b) implies {
        &&& h2.live(b)
        &&& h2.layout_at(b) == h0.layout_at(b)
        &&& h2.bytes_at(b) == h0.bytes_at(b)
    } by {
        assert(h1.live(b));
    }
}

} // verus!
