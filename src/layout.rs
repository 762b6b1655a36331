//! Size and alignment of memory blocks, and how blocks compose.
use vstd::arithmetic::div_mod::*;
use vstd::arithmetic::power2::is_pow2;
use vstd::layout::{align_of, layout_for_type_is_valid, size_of};
use crate::hint::{likely, unlikely};
use vstd::prelude::*;

verus! {

/// Mathematical value of a [`Layout`].
pub struct LayoutView {
    pub size: nat,
    pub align: nat,
}

/// Bytes to add after `size` bytes so that the total is a multiple of `align`.
pub open spec fn padding(size: nat, align: nat) -> nat {
    if align == 0 {
        0
    } else {
        ((align - size % align) % align as int) as nat
    }
}

/// `size` rounded up to the next multiple of `align`.
pub open spec fn round_up(size: nat, align: nat) -> nat {
    size + padding(size, align)
}

/// A block of `size` bytes aligned to `align` can be described: `align` is a
/// power of two and `size` rounded up to it fits in a `usize`.
pub open spec fn valid_layout(size: nat, align: nat) -> bool {
    is_pow2(align as int) && round_up(size, align) <= usize::MAX
}

pub open spec fn spec_max(a: nat, b: nat) -> nat {
    if a >= b {
        a
    } else {
        b
    }
}

impl LayoutView {
    pub open spec fn valid(self) -> bool {
        valid_layout(self.size, self.align)
    }

    /// The layout padded at its end up to its own alignment.
    pub open spec fn pad_to_align(self) -> LayoutView {
        LayoutView { size: round_up(self.size, self.align), align: self.align }
    }

    /// `self` followed by `next` at the first offset aligned for `next`: the
    /// combined (unpadded) layout and that offset, when it can be described.
    pub open spec fn extend(self, next: LayoutView) -> Option<(LayoutView, nat)> {
        let offset = round_up(self.size, next.align);
        let combined = LayoutView {
            size: offset + next.size,
            align: spec_max(self.align, next.align),
        };
        if combined.valid() {
            Some((combined, offset))
        } else {
            None
        }
    }
}

/// Left fold of [`LayoutView::extend`] over `layouts`, starting at `start`,
/// collecting the offset of each layout.
pub open spec fn extend_all(start: LayoutView, layouts: Seq<LayoutView>) -> Option<(LayoutView, Seq<nat>)>
    decreases layouts.len(),
{
    if layouts.len() == 0 {
        Some((start, Seq::empty()))
    } else {
        match extend_all(start, layouts.drop_last()) {
            None => None,
            Some((acc, offsets)) => match acc.extend(layouts.last()) {
                None => None,
                Some((combined, offset)) => Some((combined, offsets.push(offset))),
            },
        }
    }
}

/// The layouts' mathematical values.
pub open spec fn views(layouts: Seq<Layout>) -> Seq<LayoutView> {
    layouts.map_values(|l: Layout| l@)
}

/// Offsets as natural numbers.
pub open spec fn nats(offsets: Seq<usize>) -> Seq<nat> {
    offsets.map_values(|o: usize| o as nat)
}

/// Layout of a `#[repr(C)]`-style aggregate with `fields` in order: the
/// fields extended from the empty layout, padded to the final alignment.
pub open spec fn repr_c(fields: Seq<LayoutView>) -> Option<(LayoutView, Seq<nat>)> {
    match extend_all(LayoutView { size: 0, align: 1 }, fields) {
        None => None,
        Some((layout, offsets)) => Some((layout.pad_to_align(), offsets)),
    }
}

/// Extending over `s + t` is extending over `s`, then over `t` from the
/// layout reached; the offsets of `t` follow those of `s`.
pub proof fn lemma_extend_all_concat(start: LayoutView, s: Seq<LayoutView>, t: Seq<LayoutView>)
    ensures
        extend_all(start, s + t) == match extend_all(start, s) {
            None => None,
            Some((mid, first)) => match extend_all(mid, t) {
                None => None,
                Some((end, rest)) => Some((end, first + rest)),
            },
        },
    decreases t.len(),
{
    if t.len() == 0 {
        assert(s + t =~= s);
        if let Some((mid, first)) = extend_all(start, s) {
            assert(first + Seq::<nat>::empty() =~= first);
        }
    } else {
        assert((s + t).drop_last() =~= s + t.drop_last());
        assert((s + t).last() == t.last());
        lemma_extend_all_concat(start, s, t.drop_last());
        if let Some((mid, first)) = extend_all(start, s) {
            if let Some((end, rest)) = extend_all(mid, t.drop_last()) {
                if let Some((l, o)) = end.extend(t.last()) {
                    assert(first + rest.push(o) =~= (first + rest).push(o));
                }
            }
        }
    }
}

/// Folding `extend` over three layouts gives the same layout and offsets as
/// extending the first by the second, then the result by the third.
pub proof fn lemma_extend_many_three(l0: LayoutView, l1: LayoutView, l2: LayoutView)
    ensures
        extend_all(l0, seq![l1, l2]) == match l0.extend(l1) {
            None => None,
            Some((a, o1)) => match a.extend(l2) {
                None => None,
                Some((b, o2)) => Some((b, seq![o1, o2])),
            },
        },
{
    let s = seq![l1, l2];
    assert(s.drop_last() =~= seq![l1]);
    assert(seq![l1].drop_last() =~= Seq::<LayoutView>::empty());
    reveal_with_fuel(extend_all, 3);
    if let Some((a, o1)) = l0.extend(l1) {
        assert(Seq::<nat>::empty().push(o1) =~= seq![o1]);
        if let Some((b, o2)) = a.extend(l2) {
            assert(seq![o1].push(o2) =~= seq![o1, o2]);
        }
    }
}

/// Where the layouts before some index cannot be combined, neither can all.
proof fn lemma_extend_all_prefix_none(start: LayoutView, s: Seq<LayoutView>, i: int)
    requires
        0 <= i <= s.len(),
        extend_all(start, s.take(i)) is None,
    ensures
        extend_all(start, s) is None,
{
    lemma_extend_all_concat(start, s.take(i), s.skip(i));
    assert(s.take(i) + s.skip(i) =~= s);
}

/// The offset that `extend` gives is aligned for the second layout and comes
/// after the first; the result has the larger alignment and holds both.
pub proof fn lemma_extend_offset(a: LayoutView, b: LayoutView)
    requires
        a.valid(),
        b.valid(),
    ensures
        a.extend(b) matches Some((c, offset)) ==> {
            &&& offset % b.align == 0
            &&& offset >= a.size
            &&& c.align == spec_max(a.align, b.align)
            &&& c.size >= offset + b.size
        },
{
    lemma_pow2_positive(b.align as int);
    lemma_padding(a.size, b.align);
}

/// Padding a layout to its alignment a second time changes nothing.
pub proof fn lemma_pad_to_align_idempotent(l: LayoutView)
    requires
        l.valid(),
    ensures
        l.pad_to_align().pad_to_align() == l.pad_to_align(),
        l.pad_to_align().valid(),
{
    lemma_pow2_positive(l.align as int);
    lemma_padding(l.size, l.align);
    lemma_round_up_multiple(round_up(l.size, l.align), l.align);
}

/// A whole number of copies of a size that its alignment already divides
/// needs no padding.
pub proof fn lemma_multiple_of_align(n: nat, l: LayoutView)
    requires
        l.valid(),
        round_up(l.size, l.align) == l.size,
    ensures
        round_up(n * l.size, l.align) == n * l.size,
{
    lemma_pow2_positive(l.align as int);
    lemma_padding(l.size, l.align);
    let k = l.size / l.align;
    lemma_fundamental_div_mod(l.size as int, l.align as int);
    assert(n * l.size == (n * k) * l.align) by (nonlinear_arith)
        requires
            l.size == l.align * k,
    ;
    lemma_mod_multiples_basic((n * k) as int, l.align as int);
    lemma_round_up_multiple(n * l.size, l.align);
}

/// The layouts folded by [`extend_all`] lie one after another, in order,
/// at or after the start's end and within the result.
pub proof fn lemma_extend_all_bounds(start: LayoutView, layouts: Seq<LayoutView>)
    requires
        start.valid(),
        forall|i: int| 0 <= i < layouts.len() ==> (#[trigger] layouts[i]).valid(),
    ensures
        extend_all(start, layouts) matches Some((l, offsets)) ==> {
            &&& l.valid()
            &&& offsets.len() == layouts.len()
            &&& start.size <= l.size
            &&& forall|i: int| 0 <= i < layouts.len() ==> start.size <= #[trigger] offsets[i]
            &&& forall|i: int| 0 <= i < layouts.len() ==> #[trigger] offsets[i] + layouts[i].size <= l.size
            &&& forall|i: int, j: int|
                0 <= i < j < layouts.len() ==> #[trigger] offsets[i] + layouts[i].size <= #[trigger] offsets[j]
        },
    decreases layouts.len(),
{
    if layouts.len() > 0 {
        let init = layouts.drop_last();
        lemma_extend_all_bounds(start, init);
        if let Some((acc, offs)) = extend_all(start, init) {
            lemma_extend_offset(acc, layouts.last());
        }
    }
}

/// Why a layout could not be built.
#[derive(Debug, Clone, Copy, PartialEq, Eq, Structural)]
pub enum LayoutError {
    /// The alignment is not a power of two, or the size overflows once padded.
    InvalidLayout,
    /// Composing layouts overflows the address space.
    LayoutOverflow,
}

/// Size and alignment of a block of memory.
#[derive(Debug, Clone, Copy, PartialEq, Eq, Structural)]
pub struct Layout {
    size: usize,
    align: usize,
}

impl View for Layout {
    type V = LayoutView;

    closed spec fn view(&self) -> LayoutView {
        LayoutView { size: self.size as nat, align: self.align as nat }
    }
}

proof fn lemma_padding(size: nat, align: nat)
    requires
        align > 0,
    ensures
        padding(size, align) < align,
        round_up(size, align) % align == 0,
        size % align == 0 ==> padding(size, align) == 0,
        size % align != 0 ==> padding(size, align) == align - size % align,
{
    let r = size % align;
    lemma_fundamental_div_mod(size as int, align as int);
    lemma_mod_bound(size as int, align as int);
    if r == 0 {
        lemma_mod_self_0(align as int);
    } else {
        lemma_small_mod((align - r) as nat, align);
        let q = size / align;
        assert(round_up(size, align) == (q + 1) * align) by (nonlinear_arith)
            requires
                size == align * q + r,
                round_up(size, align) == size + (align - r),
        ;
        lemma_mod_multiples_basic((q + 1) as int, align as int);
    }
}

/// Rounding up a multiple of `align` leaves it unchanged.
proof fn lemma_round_up_multiple(size: nat, align: nat)
    requires
        align > 0,
        size % align == 0,
    ensures
        round_up(size, align) == size,
{
    lemma_padding(size, align);
}

proof fn lemma_pow2_positive(n: int)
    requires
        is_pow2(n),
    ensures
        n > 0,
{
    reveal(is_pow2);
}

/// `n` is a power of two.
fn is_power_of_two(n: usize) -> (r: bool)
    ensures
        r == is_pow2(n as int),
{
    reveal(is_pow2);
    if n == 0 {
        return false;
    }
    let mut m: usize = n;
    while m > 1 && m % 2 == 0
        invariant
            m > 0,
            is_pow2(n as int) == is_pow2(m as int),
        decreases m,
    {
        proof {
            reveal(is_pow2);
            assert(is_pow2(m as int) == is_pow2(m as int / 2));
        }
        m = m / 2;
    }
    if m == 1 {
        true
    } else {
        false
    }
}

/// Maximum of two `usize`s.
fn max(a: usize, b: usize) -> (r: usize)
    ensures
        r == spec_max(a as nat, b as nat),
{
    if likely(a >= b) {
        a
    } else {
        b
    }
}

/// `size` overflows a `usize` once rounded up to `align`.
fn overflow_padded(size: usize, align: usize) -> (r: bool)
    requires
        align > 0,
    ensures
        r == (round_up(size as nat, align as nat) > usize::MAX),
{
    proof {
        lemma_padding(size as nat, align as nat);
    }
    let rem = size % align;
    let pad = if rem == 0 {
        0
    } else {
        align - rem
    };
    size > usize::MAX - pad
}

impl Layout {
    #[verifier::type_invariant]
    closed spec fn inv(self) -> bool {
        valid_layout(self.size as nat, self.align as nat)
    }

    /// Layout of `size` bytes aligned to `align`.
    ///
    /// Fails with `InvalidLayout` exactly when `align` is not a power of two
    /// or `size` rounded up to `align` overflows a `usize`.
    pub fn from_size_align(size: usize, align: usize) -> (r: Result<Layout, LayoutError>)
        ensures
            valid_layout(size as nat, align as nat) <==> r is Ok,
            r matches Ok(l) ==> l@ == (LayoutView { size: size as nat, align: align as nat }),
            r matches Err(e) ==> e == LayoutError::InvalidLayout,
    {
        if unlikely(!is_power_of_two(align)) {
            return Err(LayoutError::InvalidLayout);
        }
        proof {
            lemma_pow2_positive(align as int);
        }
        if unlikely(overflow_padded(size, align)) {
            return Err(LayoutError::InvalidLayout);
        }
        Ok(Layout { size, align })
    }

    /// Size in bytes.
    pub fn size(&self) -> (r: usize)
        ensures
            r as nat == self@.size,
            self@.valid(),
    {
        proof {
            use_type_invariant(self);
        }
        self.size
    }

    /// Alignment in bytes: a power of two.
    pub fn align(&self) -> (r: usize)
        ensures
            r as nat == self@.align,
            r > 0,
            self@.valid(),
    {
        proof {
            use_type_invariant(self);
            lemma_pow2_positive(self.align as int);
        }
        self.align
    }

    /// Layout of a value of type `T`.
    pub fn new<T>() -> (r: Layout)
        ensures
            r@.size == size_of::<T>(),
            r@.align == align_of::<T>(),
    {
        layout_for_type_is_valid::<T>();
        let size = core::mem::size_of::<T>();
        let align = core::mem::align_of::<T>();
        proof {
            lemma_pow2_positive(align as int);
            lemma_round_up_multiple(size as nat, align as nat);
        }
        Layout { size, align }
    }

    /// The layout of a zero-sized block with alignment 1, the identity of
    /// [`Layout::extend`].
    pub fn empty() -> (r: Layout)
        ensures
            r@ == (LayoutView { size: 0, align: 1 }),
    {
        proof {
            reveal(is_pow2);
            lemma_padding(0, 1);
        }
        Layout { size: 0, align: 1 }
    }

    /// Smallest padding after this layout's size that reaches a multiple of
    /// `align`.
    pub fn padding_needed_for(&self, align: usize) -> (r: usize)
        requires
            align > 0,
        ensures
            r as nat == padding(self@.size, align as nat),
            r < align,
            (self@.size + r) % (align as int) == 0,
    {
        proof {
            lemma_padding(self.size as nat, align as nat);
        }
        let rem = self.size % align;
        if rem == 0 {
            0
        } else {
            align - rem
        }
    }

    /// This layout with its size rounded up to its alignment.
    pub fn pad_to_align(&self) -> (r: Layout)
        ensures
            r@ == self@.pad_to_align(),
    {
        proof {
            use_type_invariant(self);
            lemma_pow2_positive(self.align as int);
            lemma_padding(self.size as nat, self.align as nat);
            lemma_round_up_multiple(round_up(self.size as nat, self.align as nat), self.align as nat);
        }
        let pad = self.padding_needed_for(self.align);
        Layout { size: self.size + pad, align: self.align }
    }

    /// Layout of `self` followed by `next`, with the padding that aligns
    /// `next`, and the offset at which `next` starts. The result is not
    /// padded at its end.
    ///
    /// Fails with `LayoutOverflow` exactly when the combined layout cannot be
    /// described.
    pub fn extend(&self, next: Layout) -> (r: Result<(Layout, usize), LayoutError>)
        ensures
            self@.extend(next@) is Some <==> r is Ok,
            r matches Ok((l, offset)) ==> self@.extend(next@) == Some((l@, offset as nat)),
            r matches Err(e) ==> e == LayoutError::LayoutOverflow,
            self@.valid(),
            next@.valid(),
            r matches Ok((l, offset)) ==> {
                &&& offset as nat % next@.align == 0
                &&& offset as nat >= self@.size
                &&& l@.align == spec_max(self@.align, next@.align)
                &&& l@.size >= offset as nat + next@.size
            },
    {
        proof {
            use_type_invariant(self);
            use_type_invariant(&next);
            lemma_pow2_positive(next.align as int);
            lemma_extend_offset(self@, next@);
        }
        let new_align = max(self.align, next.align);
        let pad = self.padding_needed_for(next.align);
        let offset = match self.size.checked_add(pad) {
            Some(offset) => offset,
            None => return Err(LayoutError::LayoutOverflow),
        };
        let new_size = match offset.checked_add(next.size) {
            Some(size) => size,
            None => return Err(LayoutError::LayoutOverflow),
        };
        match Layout::from_size_align(new_size, new_align) {
            Err(_) => Err(LayoutError::LayoutOverflow),
            Ok(layout) => Ok((layout, offset)),
        }
    }

    /// Repeatedly apply [`Layout::extend`], left to right, collecting the
    /// offset of each layout. Stops at the first overflow.
    pub fn extend_many(&self, layouts: &[Layout]) -> (r: Result<(Layout, Vec<usize>), LayoutError>)
        ensures
            extend_all(self@, views(layouts@)) is Some <==> r is Ok,
            r matches Ok((l, offsets)) ==> extend_all(self@, views(layouts@)) == Some((l@, nats(offsets@))),
            r matches Err(e) ==> e == LayoutError::LayoutOverflow,
            r is Ok ==> forall|i: int| 0 <= i < layouts@.len() ==> (#[trigger] layouts@[i])@.valid(),
    {
        let ghost all = views(layouts@);
        let mut offsets: Vec<usize> = Vec::new();
        let mut layout = *self;
        let mut i: usize = 0;
        proof {
            assert(all.take(0) =~= Seq::<LayoutView>::empty());
            assert(nats(offsets@) =~= Seq::<nat>::empty());
        }
        while likely(i < layouts.len())
            invariant
                i <= layouts.len(),
                all == views(layouts@),
                extend_all(self@, all.take(i as int)) == Some((layout@, nats(offsets@))),
                forall|k: int| 0 <= k < i ==> (#[trigger] layouts@[k])@.valid(),
            decreases layouts.len() - i,
        {
            proof {
                assert(all.take(i + 1).drop_last() =~= all.take(i as int));
                assert(all.take(i + 1).last() == layouts@[i as int]@);
            }
            let (new, offset) = match layout.extend(layouts[i]) {
                Ok(data) => data,
                Err(err) => {
                    proof {
                        lemma_extend_all_prefix_none(self@, all, i + 1);
                        assert(all.take(layouts@.len() as int) =~= all);
                    }
                    return Err(err);
                },
            };
            let ghost prev = offsets@;
            offsets.push(offset);
            layout = new;
            i += 1;
            proof {
                assert(nats(offsets@) =~= nats(prev).push(offset as nat));
            }
        }
        proof {
            assert(all.take(layouts@.len() as int) =~= all);
        }
        Ok((layout, offsets))
    }

    /// Layout of a `#[repr(C)]`-style aggregate with the given fields in
    /// order, padded to its alignment, and the offset of each field.
    pub fn for_repr_c(fields: &[Layout]) -> (r: Result<(Layout, Vec<usize>), LayoutError>)
        ensures
            repr_c(views(fields@)) is Some <==> r is Ok,
            r matches Ok((l, offsets)) ==> repr_c(views(fields@)) == Some((l@, nats(offsets@))),
            r matches Err(e) ==> e == LayoutError::LayoutOverflow,
    {
        match Layout::empty().extend_many(fields) {
            Ok((layout, offsets)) => Ok((layout.pad_to_align(), offsets)),
            Err(err) => Err(err),
        }
    }

    /// Both layouts have the same size and alignment.
    pub fn eq(&self, other: &Layout) -> (r: bool)
        ensures
            r == (self@ == other@),
    {
        self.size == other.size && self.align == other.align
    }
}

} // verus!
