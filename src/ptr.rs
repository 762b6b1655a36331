//! Pointers modelled as a data address plus, for fat pointers, one
//! metadata word (the element count of a slice).
use crate::layout::{Layout, LayoutError, LayoutView, round_up};
use vstd::prelude::*;

verus! {

/// A non-null pointer: a nonzero data address and, when the pointer is fat,
/// its metadata word. It never owns what it points to.
#[derive(Debug, Clone, Copy, PartialEq, Eq)]
pub struct NonNull {
    addr: usize,
    metadata: Option<usize>,
}

impl NonNull {
    pub closed spec fn spec_addr(&self) -> usize {
        self.addr
    }

    pub closed spec fn spec_metadata(&self) -> Option<usize> {
        self.metadata
    }

    #[verifier::type_invariant]
    closed spec fn inv(self) -> bool {
        self.addr != 0
    }

    /// Pointers with the same address and metadata are the same.
    pub proof fn lemma_eq(a: NonNull, b: NonNull)
        requires
            a.spec_addr() == b.spec_addr(),
            a.spec_metadata() == b.spec_metadata(),
        ensures
            a == b,
    {
    }

    /// A pointer to `addr` carrying `metadata`; `None` for the null address.
    pub fn new(addr: usize, metadata: Option<usize>) -> (r: Option<NonNull>)
        ensures
            r is None <==> addr == 0,
            r matches Some(p) ==> p.spec_addr() == addr && p.spec_metadata() == metadata,
    {
        if addr != 0 {
            Some(NonNull { addr, metadata })
        } else {
            None
        }
    }

    /// A pointer to `addr`, which must not be null, carrying `metadata`.
    pub fn new_unchecked(addr: usize, metadata: Option<usize>) -> (r: NonNull)
        requires
            addr != 0,
        ensures
            r.spec_addr() == addr,
            r.spec_metadata() == metadata,
    {
        NonNull { addr, metadata }
    }

    /// The data address.
    pub fn as_ptr(self) -> (r: usize)
        ensures
            r == self.spec_addr(),
            r != 0,
    {
        proof {
            use_type_invariant(&self);
        }
        self.addr
    }

    /// The metadata word, for a fat pointer.
    pub fn metadata(&self) -> (r: Option<usize>)
        ensures
            r == self.spec_metadata(),
    {
        self.metadata
    }

    /// The same address as a thin pointer to a sized type.
    pub fn cast(self) -> (r: NonNull)
        ensures
            r.spec_addr() == self.spec_addr(),
            r.spec_metadata() is None,
    {
        proof {
            use_type_invariant(&self);
        }
        NonNull { addr: self.addr, metadata: None }
    }

    /// The pointer carries metadata.
    pub fn is_fat_pointer(&self) -> (r: bool)
        ensures
            r == self.spec_metadata() is Some,
    {
        self.metadata.is_some()
    }

    /// The address and the metadata word of a fat pointer; `None` for a
    /// thin one.
    pub fn split(&self) -> (r: Option<(usize, usize)>)
        ensures
            r is Some <==> self.spec_metadata() is Some,
            r matches Some((addr, metadata)) ==> addr == self.spec_addr() && Some(metadata) == self.spec_metadata(),
    {
        match self.metadata {
            Some(m) => Some((self.addr, m)),
            None => None,
        }
    }

    /// The address of `data` with the metadata of `self`.
    pub fn update(self, data: NonNull) -> (r: NonNull)
        ensures
            r.spec_addr() == data.spec_addr(),
            r.spec_metadata() == self.spec_metadata(),
    {
        proof {
            use_type_invariant(&data);
        }
        NonNull { addr: data.addr, metadata: self.metadata }
    }

    /// The address of `self` with `metadata` in place of its own; `None`
    /// for a thin pointer, which has no metadata to replace.
    pub fn update_metadata(self, metadata: usize) -> (r: Option<NonNull>)
        ensures
            r is Some <==> self.spec_metadata() is Some,
            r matches Some(p) ==> p.spec_addr() == self.spec_addr() && p.spec_metadata() == Some(metadata),
    {
        proof {
            use_type_invariant(&self);
        }
        if self.metadata.is_some() {
            Some(NonNull { addr: self.addr, metadata: Some(metadata) })
        } else {
            None
        }
    }
}

/// What a pointer points to: a sized value of a given layout (thin
/// pointer), or a slice of elements of a given layout (fat pointer whose
/// metadata is the length).
#[derive(Debug, Clone, Copy, PartialEq, Eq)]
pub enum Pointee {
    Sized(Layout),
    Slice(Layout),
}

/// Layout of `len` elements of `elem` placed one after another.
pub open spec fn array_layout(elem: LayoutView, len: nat) -> LayoutView {
    LayoutView { size: len * round_up(elem.size, elem.align), align: elem.align }
}

impl Pointee {
    /// The pointee is a slice.
    pub open spec fn spec_is_fat(&self) -> bool {
        self is Slice
    }

    /// Layout of the value a pointer with `metadata` points to, when the
    /// metadata fits the pointee and the size fits in a `usize`.
    pub open spec fn value_layout(&self, metadata: Option<usize>) -> Option<LayoutView> {
        match (*self, metadata) {
            (Pointee::Sized(l), None) => Some(l@),
            (Pointee::Slice(e), Some(len)) => {
                let l = array_layout(e@, len as nat);
                if l.size <= usize::MAX {
                    Some(l)
                } else {
                    None
                }
            },
            _ => None,
        }
    }

    /// Layout of the value that `ptr` points to.
    ///
    /// Fails with `InvalidLayout` when `ptr` is thin and the pointee a slice
    /// or the reverse, and with `LayoutOverflow` when the slice is too long.
    pub fn layout_for(&self, ptr: &NonNull) -> (r: Result<Layout, LayoutError>)
        ensures
            r is Ok <==> self.value_layout(ptr.spec_metadata()) is Some,
            r matches Ok(l) ==> self.value_layout(ptr.spec_metadata()) == Some(l@),
            r matches Err(e) ==> e == if self.spec_is_fat() == (ptr.spec_metadata() is Some) {
                LayoutError::LayoutOverflow
            } else {
                LayoutError::InvalidLayout
            },
    {
        match (*self, ptr.metadata()) {
            (Pointee::Sized(l), None) => Ok(l),
            (Pointee::Slice(e), Some(len)) => {
                let stride = e.pad_to_align();
                let align = e.align();
                proof {
                    crate::layout::lemma_pad_to_align_idempotent(e@);
                }
                match len.checked_mul(stride.size()) {
                    None => Err(LayoutError::LayoutOverflow),
                    Some(size) => {
                        proof {
                            crate::layout::lemma_multiple_of_align(len as nat, stride@);
                        }
                        match Layout::from_size_align(size, align) {
                            Ok(l) => Ok(l),
                            Err(_) => Err(LayoutError::LayoutOverflow),
                        }
                    },
                }
            },
            _ => Err(LayoutError::InvalidLayout),
        }
    }
}

/// Pointers to `pointee` carry no metadata.
pub fn is_thin_pointer(pointee: &Pointee) -> (r: bool)
    ensures
        r == !pointee.spec_is_fat(),
{
    match pointee {
        Pointee::Sized(_) => true,
        Pointee::Slice(_) => false,
    }
}

/// Pointers to `pointee` carry a metadata word.
pub fn is_fat_pointer(pointee: &Pointee) -> (r: bool)
    ensures
        r == pointee.spec_is_fat(),
{
    !is_thin_pointer(pointee)
}

} // verus!
