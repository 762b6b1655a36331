use dsrs::heap::Heap;
use dsrs::layout::Layout;
use dsrs::list::{LinkedList, Node};
use dsrs::ptr::{NonNull, Pointee};

fn boxed_bytes(heap: &mut Heap, bytes: &[u8]) -> NonNull {
    let thin = heap.allocate(Layout::from_size_align(bytes.len(), 1).unwrap()).unwrap();
    heap.write(thin, 0, bytes);
    NonNull::new(thin.as_ptr(), Some(bytes.len())).unwrap()
}

fn pop_i32(list: &mut LinkedList, heap: &mut Heap) -> Option<i32> {
    list.pop(heap).map(|b| i32::from_le_bytes([b[0], b[1], b[2], b[3]]))
}

#[test]
fn push_and_pop_values() {
    let mut heap = Heap::new(1 << 12);
    let mut list = LinkedList::new(Pointee::Sized(Layout::new::<i32>()));
    assert!(list.is_empty());
    list.push_head(&mut heap, &12i32.to_le_bytes()).unwrap();
    assert_eq!(list.len(), 1);
    assert_eq!(pop_i32(&mut list, &mut heap), Some(12));
    assert_eq!(pop_i32(&mut list, &mut heap), None);

    list.push_head(&mut heap, &27i32.to_le_bytes()).unwrap();
    list.push_head(&mut heap, &56i32.to_le_bytes()).unwrap();
    list.push_tail(&mut heap, &34i32.to_le_bytes()).unwrap();
    assert_eq!(list.len(), 3);
    assert_eq!(pop_i32(&mut list, &mut heap), Some(56));
    assert_eq!(pop_i32(&mut list, &mut heap), Some(27));
    assert_eq!(pop_i32(&mut list, &mut heap), Some(34));
    assert!(list.is_empty());
    assert_eq!(heap.in_use(), 0);
}

#[test]
fn push_tail_onto_empty() {
    let mut heap = Heap::new(1 << 12);
    let mut list = LinkedList::new(Pointee::Sized(Layout::new::<u16>()));
    list.push_tail(&mut heap, &[1, 0]).unwrap();
    list.push_tail(&mut heap, &[2, 0]).unwrap();
    list.push_head(&mut heap, &[3, 0]).unwrap();
    assert_eq!(list.pop(&mut heap), Some(vec![3, 0]));
    assert_eq!(list.pop(&mut heap), Some(vec![1, 0]));
    assert_eq!(list.pop(&mut heap), Some(vec![2, 0]));
    assert_eq!(list.pop(&mut heap), None);
}

#[test]
fn boxed_slices_keep_their_length() {
    let mut heap = Heap::new(1 << 12);
    let mut list = LinkedList::new(Pointee::Slice(Layout::new::<u8>()));
    let a = boxed_bytes(&mut heap, &[1, 2, 3]);
    let b = boxed_bytes(&mut heap, &[4, 5]);
    let c = boxed_bytes(&mut heap, &[]);
    list.push_head_boxed(&mut heap, a).unwrap();
    list.push_tail_boxed(&mut heap, b).unwrap();
    list.push_head_boxed(&mut heap, c).unwrap();
    assert_eq!(list.len(), 3);

    let first = list.pop_boxed(&mut heap).unwrap();
    assert_eq!(first.metadata(), Some(0));
    let second = list.pop_boxed(&mut heap).unwrap();
    assert_eq!(second.metadata(), Some(3));
    assert_eq!(heap.read(second, 0, 3), vec![1, 2, 3]);
    let third = list.pop_boxed(&mut heap).unwrap();
    assert_eq!(third.metadata(), Some(2));
    assert_eq!(heap.read(third, 0, 2), vec![4, 5]);
    assert!(list.pop_boxed(&mut heap).is_none());
    // only the three payload boxes are left, at their own size
    assert_eq!(heap.in_use(), 5);
}

#[test]
fn push_fails_without_room() {
    // a node is a 16-byte next pointer and a `u32`, padded to 24 bytes
    let mut heap = Heap::new(28);
    let mut list = LinkedList::new(Pointee::Sized(Layout::new::<u32>()));
    list.push_head(&mut heap, &[1, 1, 1, 1]).unwrap();
    assert_eq!(heap.in_use(), 24);
    let err = list.push_tail(&mut heap, &[2, 2, 2, 2]).unwrap_err();
    assert_eq!(err.layout(), Layout::from_size_align(24, 8).unwrap());
    assert_eq!(list.len(), 1);
    assert_eq!(heap.in_use(), 24);
    assert_eq!(list.pop(&mut heap), Some(vec![1, 1, 1, 1]));
    assert_eq!(heap.in_use(), 0);
}

#[test]
fn node_build_and_split() {
    let mut heap = Heap::new(1 << 12);
    let node = Node::new(Pointee::Slice(Layout::new::<u8>()));
    assert_eq!(node.payload(), Pointee::Slice(Layout::new::<u8>()));
    let data = boxed_bytes(&mut heap, &[9, 8, 7]);
    let other = NonNull::new(77, Some(5)).unwrap();
    let built = node.build(&mut heap, data, Some(other)).unwrap();
    assert_eq!(built.metadata(), Some(3));
    assert_eq!(heap.read(built, 16, 3), vec![9, 8, 7]);
    let mut link = 77usize.to_le_bytes().to_vec();
    link.extend_from_slice(&5usize.to_le_bytes());
    assert_eq!(heap.read(built, 0, 16), link);
    let (payload, next) = node.split(&mut heap, built);
    assert_eq!(next, Some(other));
    assert_eq!(payload.metadata(), Some(3));
    assert_eq!(heap.read(payload, 0, 3), vec![9, 8, 7]);

    let last = node.build(&mut heap, payload, None).unwrap();
    assert_eq!(heap.read(last, 0, 16), vec![0; 16]);
    assert_eq!(node.split(&mut heap, last).1, None);
}
