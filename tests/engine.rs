use dsrs::heap::{grow_with, shrink_with, Heap};
use dsrs::layout::{Layout, LayoutError};
use dsrs::ptr::{is_fat_pointer, is_thin_pointer, NonNull, Pointee};
use dsrs::repr_c::{FieldError, FieldTuple, ReprC};

fn layout(size: usize, align: usize) -> Layout {
    Layout::from_size_align(size, align).unwrap()
}

/// A boxed `[u8]` holding `bytes`: a fat pointer whose metadata is the length.
fn boxed_slice(heap: &mut Heap, bytes: &[u8]) -> NonNull {
    let thin = heap.allocate(layout(bytes.len(), 1)).unwrap();
    heap.write(thin, 0, bytes);
    NonNull::new(thin.as_ptr(), Some(bytes.len())).unwrap()
}

/// Shape `[u32, tail: [u8]]`.
fn u32_then_bytes() -> ReprC {
    let fields = FieldTuple::new(vec![Layout::new::<u32>()], Some(Pointee::Slice(Layout::new::<u8>()))).unwrap();
    ReprC::new(fields)
}

#[test]
fn pointer_parts() {
    assert!(NonNull::new(0, None).is_none());
    assert!(NonNull::new(0, Some(3)).is_none());
    let thin = NonNull::new(5, None).unwrap();
    let fat = NonNull::new(9, Some(3)).unwrap();
    assert!(!thin.is_fat_pointer());
    assert!(fat.is_fat_pointer());
    assert_eq!(fat.as_ptr(), 9);
    assert_eq!(fat.cast(), NonNull::new(9, None).unwrap());
    let moved = fat.update(thin);
    assert_eq!((moved.as_ptr(), moved.metadata()), (5, Some(3)));
    assert_eq!(thin.update(fat).metadata(), None);
    assert_eq!(thin.update_metadata(7), None);
    assert_eq!(fat.update_metadata(7), Some(NonNull::new(9, Some(7)).unwrap()));
    assert_eq!(NonNull::new_unchecked(4, Some(1)), NonNull::new(4, Some(1)).unwrap());
}

#[test]
fn pointee_kinds() {
    let slice = Pointee::Slice(Layout::new::<u32>());
    let sized = Pointee::Sized(Layout::new::<u64>());
    assert!(is_fat_pointer(&slice) && !is_thin_pointer(&slice));
    assert!(is_thin_pointer(&sized) && !is_fat_pointer(&sized));
    let fat = NonNull::new(1, Some(3)).unwrap();
    let thin = NonNull::new(1, None).unwrap();
    assert_eq!(slice.layout_for(&fat), Ok(layout(12, 4)));
    assert_eq!(sized.layout_for(&thin), Ok(layout(8, 8)));
    assert_eq!(slice.layout_for(&thin), Err(LayoutError::InvalidLayout));
    assert_eq!(sized.layout_for(&fat), Err(LayoutError::InvalidLayout));
    let padded = Pointee::Slice(layout(3, 2));
    assert_eq!(padded.layout_for(&fat), Ok(layout(12, 2)));
    let huge = NonNull::new(1, Some(usize::MAX / 2)).unwrap();
    assert_eq!(slice.layout_for(&huge), Err(LayoutError::LayoutOverflow));
}

#[test]
fn heap_blocks() {
    let mut heap = Heap::new(64);
    let a = heap.allocate(layout(8, 8)).unwrap();
    let b = heap.allocate(layout(4, 4)).unwrap();
    assert_ne!(a, b);
    assert_eq!(heap.in_use(), 12);
    assert_eq!(heap.read(a, 0, 8), vec![0; 8]);
    heap.write(a, 2, &[1, 2, 3]);
    heap.write(b, 0, &[9, 9, 9, 9]);
    assert_eq!(heap.read(a, 0, 8), vec![0, 0, 1, 2, 3, 0, 0, 0]);
    assert_eq!(heap.read(b, 1, 2), vec![9, 9]);
    heap.deallocate(b, layout(4, 4));
    assert_eq!(heap.in_use(), 8);
    assert_eq!(heap.read(a, 2, 3), vec![1, 2, 3]);
}

#[test]
fn heap_budget() {
    let mut heap = Heap::new(10);
    assert!(heap.room_for(10, 0));
    assert!(!heap.room_for(11, 0));
    let a = heap.allocate(layout(6, 1)).unwrap();
    let err = heap.allocate(layout(5, 1)).unwrap_err();
    assert_eq!(err.layout(), layout(5, 1));
    assert_eq!(heap.in_use(), 6);
    assert!(heap.grow(a, layout(6, 1), layout(11, 1)).is_err());
    let g = heap.grow(a, layout(6, 1), layout(10, 1)).unwrap();
    assert_eq!(heap.in_use(), 10);
    let s = heap.shrink(g, layout(10, 1), layout(2, 1)).unwrap();
    assert_eq!(heap.in_use(), 2);
    heap.deallocate(s, layout(2, 1));
    assert_eq!(heap.in_use(), 0);
}

#[test]
fn overlapping_copy() {
    let mut heap = Heap::new(64);
    let p = heap.allocate(layout(8, 1)).unwrap();
    heap.write(p, 0, &[1, 2, 3, 4, 5, 6, 7, 8]);
    heap.copy(p, 0, p, 2, 5);
    assert_eq!(heap.read(p, 0, 8), vec![1, 2, 1, 2, 3, 4, 5, 8]);
    heap.copy(p, 3, p, 0, 4);
    assert_eq!(heap.read(p, 0, 8), vec![2, 3, 4, 5, 3, 4, 5, 8]);
}

#[test]
fn grow_keeps_slice_metadata() {
    let mut heap = Heap::new(1024);
    let tail = boxed_slice(&mut heap, &[1, 2, 3]);
    let grown = grow_with(tail, layout(3, 1), layout(8, 4), &mut heap).unwrap();
    assert_eq!(grown.metadata(), Some(3));
    assert_ne!(grown.as_ptr(), tail.as_ptr());
    assert_eq!(heap.read(grown, 0, 3), vec![1, 2, 3]);
    assert_eq!(heap.in_use(), 8);
    let shrunk = shrink_with(grown, layout(8, 4), layout(3, 1), &mut heap).unwrap();
    assert_eq!(shrunk.metadata(), Some(3));
    assert_eq!(heap.read(shrunk, 0, 3), vec![1, 2, 3]);
    assert_eq!(heap.in_use(), 3);
    let thin = heap.allocate(layout(2, 1)).unwrap();
    assert_eq!(grow_with(thin, layout(2, 1), layout(4, 2), &mut heap).unwrap().metadata(), None);
}

#[test]
fn layout_with_last() {
    let repr = u32_then_bytes();
    let fat = NonNull::new(1, Some(3)).unwrap();
    assert_eq!(repr.fields().start_layout(), layout(4, 4));
    assert_eq!(repr.fields().layout_with_last_field(&fat), Ok((layout(8, 4), 4, layout(3, 1))));
    let thin = NonNull::new(1, None).unwrap();
    assert_eq!(
        repr.fields().layout_with_last_field(&thin),
        Err(FieldError::Layout(LayoutError::InvalidLayout))
    );
    let three = FieldTuple::new(
        vec![Layout::new::<u8>(), Layout::new::<u64>()],
        Some(Pointee::Sized(Layout::new::<u16>())),
    )
    .unwrap();
    assert_eq!(three.start_layout(), layout(16, 8));
    assert_eq!(three.layout_with_last_field(&thin), Ok((layout(24, 8), 16, layout(2, 2))));
}

#[test]
fn no_last_field() {
    let unit = FieldTuple::new(vec![Layout::new::<u64>()], None).unwrap();
    assert_eq!(unit.start_layout(), Layout::empty());
    let mut heap = Heap::new(64);
    let p = heap.allocate(layout(8, 8)).unwrap();
    assert_eq!(unit.layout_with_last_field(&p), Err(FieldError::NoLastField));
    assert_eq!(unit.write_last(&mut heap, p, p), Err(FieldError::NoLastField));
    assert_eq!(unit.read_last(&mut heap, p, p), Err(FieldError::NoLastField));
    assert_eq!(heap.read(p, 0, 8), vec![0; 8]);
}

#[test]
fn start_fields_written_and_read() {
    let fields = FieldTuple::new(
        vec![Layout::new::<u8>(), Layout::new::<u32>(), Layout::new::<u16>()],
        Some(Pointee::Sized(Layout::new::<u8>())),
    )
    .unwrap();
    let mut heap = Heap::new(64);
    let p = heap.allocate(layout(12, 4)).unwrap();
    heap.write(p, 0, &[0xee; 12]);
    let values = vec![vec![1], vec![2, 3, 4, 5], vec![6, 7]];
    fields.write_start(&mut heap, p, &values);
    assert_eq!(heap.read(p, 0, 12), vec![1, 0xee, 0xee, 0xee, 2, 3, 4, 5, 6, 7, 0xee, 0xee]);
    assert_eq!(fields.read_start(&heap, p), values);
}

#[test]
fn expand_split_scenario() {
    let repr = u32_then_bytes();
    let mut heap = Heap::new(1 << 16);
    let tail = boxed_slice(&mut heap, &[1, 2, 3]);
    let prefix = vec![7u32.to_le_bytes().to_vec()];

    let agg = repr.expand(&mut heap, tail, &prefix).unwrap();
    assert_eq!(agg.metadata(), Some(3));
    assert_eq!(repr.fields().layout_with_last_field(&agg), Ok((layout(8, 4), 4, layout(3, 1))));
    assert_eq!(heap.in_use(), 8);
    assert_eq!(heap.read(agg, 0, 7), vec![7, 0, 0, 0, 1, 2, 3]);

    let (back, fields) = repr.split(&mut heap, agg, true);
    assert_eq!(fields, vec![vec![7, 0, 0, 0]]);
    assert_eq!(u32::from_le_bytes([fields[0][0], fields[0][1], fields[0][2], fields[0][3]]), 7);
    assert_eq!(back.metadata(), Some(3));
    assert_eq!(heap.read(back, 0, 3), vec![1, 2, 3]);
    // the only live block is the tail's, of exactly 3 bytes
    assert_eq!(heap.in_use(), 3);
    heap.deallocate(back, layout(3, 1));
    assert_eq!(heap.in_use(), 0);
}

#[test]
fn split_without_shrinking() {
    let repr = u32_then_bytes();
    let mut heap = Heap::new(1 << 16);
    let tail = boxed_slice(&mut heap, &[4, 5]);
    let agg = repr.expand(&mut heap, tail, &vec![vec![1, 0, 0, 0]]).unwrap();
    let (back, fields) = repr.split(&mut heap, agg, false);
    assert_eq!(back, agg);
    assert_eq!(fields, vec![vec![1, 0, 0, 0]]);
    assert_eq!(heap.read(back, 0, 2), vec![4, 5]);
    assert_eq!(heap.in_use(), 8);
}

#[test]
fn expand_without_room() {
    let repr = u32_then_bytes();
    let mut heap = Heap::new(5);
    let tail = boxed_slice(&mut heap, &[1, 2, 3]);
    let err = repr.expand(&mut heap, tail, &vec![vec![7, 0, 0, 0]]).unwrap_err();
    assert_eq!(err.layout(), layout(8, 4));
    assert_eq!(heap.in_use(), 3);
    assert_eq!(heap.read(tail, 0, 3), vec![1, 2, 3]);
}

#[test]
fn repeated_cycles_leak_nothing() {
    let repr = u32_then_bytes();
    let mut heap = Heap::new(1 << 20);
    for i in 0..300usize {
        let len = (i * 37) % 4097;
        let bytes: Vec<u8> = (0..len).map(|k| (k % 251) as u8).collect();
        let tail = boxed_slice(&mut heap, &bytes);
        let prefix = vec![(i as u32).to_le_bytes().to_vec()];
        let agg = repr.expand(&mut heap, tail, &prefix).unwrap();
        let (back, fields) = repr.split(&mut heap, agg, true);
        assert_eq!(fields, prefix);
        assert_eq!(back.metadata(), Some(len));
        assert_eq!(heap.read(back, 0, len), bytes);
        assert_eq!(heap.in_use(), len);
        heap.deallocate(back, layout(len, 1));
        assert_eq!(heap.in_use(), 0);
    }
}

#[test]
fn sized_last_field() {
    let fields = FieldTuple::new(vec![Layout::new::<u8>()], Some(Pointee::Sized(Layout::new::<u64>()))).unwrap();
    let repr = ReprC::new(fields);
    let mut heap = Heap::new(256);
    let tail = heap.allocate(Layout::new::<u64>()).unwrap();
    heap.write(tail, 0, &42u64.to_le_bytes());
    let agg = repr.expand(&mut heap, tail, &vec![vec![9]]).unwrap();
    assert_eq!(agg.metadata(), None);
    assert_eq!(heap.read(agg, 0, 1), vec![9]);
    assert_eq!(heap.read(agg, 8, 8), 42u64.to_le_bytes().to_vec());
    assert_eq!(heap.in_use(), 16);
    let (back, fields) = repr.split(&mut heap, agg, true);
    assert_eq!(fields, vec![vec![9]]);
    assert_eq!(heap.read(back, 0, 8), 42u64.to_le_bytes().to_vec());
    assert_eq!(heap.in_use(), 8);
}
