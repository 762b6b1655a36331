use dsrs::layout::{Layout, LayoutError};
use std::alloc::Layout as Inner;

fn layout(size: usize, align: usize) -> Layout {
    Layout::from_size_align(size, align).unwrap()
}

#[test]
fn repr_c_macro() {
    // a C struct of one `i32`, and one of two `u32`s
    let int = layout(4, 4);
    let strukt = layout(8, 4);
    let only_layout = |r: Result<(Layout, Vec<usize>), LayoutError>| r.map(|(l, _)| l);
    let only_offsets = |r: Result<(Layout, Vec<usize>), LayoutError>| r.map(|(_, o)| o);

    assert_eq!(Ok((Layout::new::<()>(), vec![])), Layout::for_repr_c(&[]));
    assert_eq!(Ok((int, vec![0])), Layout::for_repr_c(&[Layout::new::<i32>()]));

    assert_eq!(Ok((int, vec![0])), Layout::for_repr_c(&[Layout::new::<i32>()]));
    assert_eq!(Ok((int, vec![0])), Layout::for_repr_c(&[Layout::new::<i32>()]));
    assert_eq!(
        Ok((strukt, vec![0, 4])),
        Layout::for_repr_c(&[Layout::new::<u32>(), Layout::new::<u32>()])
    );

    assert_eq!(Ok(Layout::new::<()>()), only_layout(Layout::for_repr_c(&[])));
    assert_eq!(Ok(int), only_layout(Layout::for_repr_c(&[Layout::new::<i32>()])));
    assert_eq!(
        Ok(strukt),
        only_layout(Layout::for_repr_c(&[Layout::new::<u32>(), Layout::new::<u32>()]))
    );

    assert_eq!(Ok(vec![]), only_offsets(Layout::for_repr_c(&[])));
    assert_eq!(Ok(vec![0]), only_offsets(Layout::for_repr_c(&[Layout::new::<i32>()])));
    assert_eq!(
        Ok(vec![0, 4]),
        only_offsets(Layout::for_repr_c(&[Layout::new::<u32>(), Layout::new::<u32>()]))
    );

    assert_eq!(Ok(int), only_layout(Layout::for_repr_c(&[Layout::new::<i32>()])));
    assert_eq!(
        Ok(strukt),
        only_layout(Layout::for_repr_c(&[Layout::new::<u32>(), Layout::new::<u32>()]))
    );
    assert_eq!(Ok(vec![0]), only_offsets(Layout::for_repr_c(&[Layout::new::<i32>()])));
    assert_eq!(
        Ok(vec![0, 4]),
        only_offsets(Layout::for_repr_c(&[Layout::new::<u32>(), Layout::new::<u32>()]))
    );
}

#[test]
fn layout_equivalent_methods() {
    let same = |l: Layout, i: Inner| l.size() == i.size() && l.align() == i.align();
    let layout1 = Layout::new::<()>();
    let layout2 = Layout::new::<String>();

    assert!(same(layout1, Inner::new::<()>()));
    assert!(same(layout2, Inner::new::<String>()));

    assert!(same(Layout::from_size_align(10, 4).unwrap(), Inner::from_size_align(10, 4).unwrap()));
    assert!(Layout::from_size_align(13, 7).is_err());
    assert!(Inner::from_size_align(13, 7).is_err());
    const MAX: usize = usize::MAX;
    assert!(Layout::from_size_align(MAX, 16).is_err());
    assert!(Inner::from_size_align(MAX, 16).is_err());

    assert_eq!(layout1.align(), Inner::new::<()>().align());
    assert_eq!(layout2.size(), Inner::new::<String>().size());

    assert_eq!(
        layout2.padding_needed_for(256),
        (256 - Inner::new::<String>().size() % 256) % 256
    );
    assert!(same(layout1.pad_to_align(), Inner::new::<()>().pad_to_align()));

    let (l, offset) = layout1.extend(layout2).unwrap();
    let (i, i_offset) = Inner::new::<()>().extend(Inner::new::<String>()).unwrap();
    assert!(same(l, i));
    assert_eq!(offset, i_offset);
    let overflow = Layout::from_size_align(MAX - 4, 2).unwrap();
    assert_eq!(layout2.extend(overflow), Err(LayoutError::LayoutOverflow));
}

#[test]
fn layout_round_trip() {
    for (size, align) in [(0, 1), (10, 4), (7, 8), (24, 8), (usize::MAX, 1), (usize::MAX - 7, 8)] {
        let l = Layout::from_size_align(size, align).unwrap();
        assert_eq!((l.size(), l.align()), (size, align));
    }
}

#[test]
fn invalid_alignment_rejected() {
    assert_eq!(Layout::from_size_align(8, 0), Err(LayoutError::InvalidLayout));
    assert_eq!(Layout::from_size_align(8, 3), Err(LayoutError::InvalidLayout));
    assert_eq!(Layout::from_size_align(8, 12), Err(LayoutError::InvalidLayout));
}

#[test]
fn overflow_rejected() {
    assert_eq!(Layout::from_size_align(usize::MAX, 2), Err(LayoutError::InvalidLayout));
    assert_eq!(Layout::from_size_align(usize::MAX - 6, 8), Err(LayoutError::InvalidLayout));
    assert!(Layout::from_size_align(usize::MAX - 1, 2).is_ok());
}

#[test]
fn padding_values() {
    assert_eq!(layout(13, 1).padding_needed_for(8), 3);
    assert_eq!(layout(16, 1).padding_needed_for(8), 0);
    assert_eq!(layout(0, 1).padding_needed_for(4), 0);
    assert_eq!(layout(1, 1).padding_needed_for(4096), 4095);
    assert_eq!(layout(24, 8).padding_needed_for(256), 232);
}

#[test]
fn pad_to_align_idempotent() {
    for (size, align) in [(0, 1), (1, 2), (13, 8), (16, 8), (usize::MAX - 7, 8)] {
        let p = layout(size, align).pad_to_align();
        assert!(p.pad_to_align().eq(&p));
        assert_eq!(p.pad_to_align(), p);
        assert_eq!(p.size() % align, 0);
    }
    assert_eq!(layout(13, 8).pad_to_align(), layout(16, 8));
}

#[test]
fn extend_offsets() {
    let (l, offset) = layout(1, 1).extend(layout(4, 4)).unwrap();
    assert_eq!((l, offset), (layout(8, 4), 4));
    let (l, offset) = layout(6, 2).extend(layout(3, 1)).unwrap();
    assert_eq!((l, offset), (layout(9, 2), 6));
    let pairs = [(layout(0, 1), layout(0, 1)), (layout(3, 1), layout(16, 16)), (layout(9, 8), layout(1, 2))];
    for (a, b) in pairs {
        let (c, offset) = a.extend(b).unwrap();
        assert_eq!(offset % b.align(), 0);
        assert!(offset >= a.size());
        assert_eq!(c.align(), a.align().max(b.align()));
        assert!(c.size() >= offset + b.size());
    }
}

#[test]
fn empty_is_identity() {
    let e = Layout::empty();
    assert_eq!((e.size(), e.align()), (0, 1));
    let l = layout(12, 4);
    assert_eq!(e.extend(l), Ok((l, 0)));
    assert_eq!(l.extend(e), Ok((l, 12)));
}

#[test]
fn extend_many_is_left_fold() {
    let l0 = layout(1, 1);
    let l1 = layout(8, 8);
    let l2 = layout(2, 2);
    let (folded, offsets) = l0.extend_many(&[l1, l2]).unwrap();
    let (a, o1) = l0.extend(l1).unwrap();
    let (b, o2) = a.extend(l2).unwrap();
    assert_eq!(folded, b);
    assert_eq!(offsets, vec![o1, o2]);
    assert_eq!((folded, offsets), (layout(18, 8), vec![8, 16]));
}

#[test]
fn extend_many_stops_at_overflow() {
    let big = layout(usize::MAX / 2, 1);
    assert_eq!(
        Layout::empty().extend_many(&[big, big, big]),
        Err(LayoutError::LayoutOverflow)
    );
    assert_eq!(layout(5, 1).extend_many(&[]), Ok((layout(5, 1), vec![])));
}

#[test]
fn repr_c_pads_the_end() {
    let fields = [Layout::new::<u64>(), Layout::new::<u8>()];
    assert_eq!(Layout::for_repr_c(&fields), Ok((layout(16, 8), vec![0, 8])));
    let fields = [Layout::new::<u8>(), Layout::new::<u32>(), Layout::new::<u16>()];
    assert_eq!(Layout::for_repr_c(&fields), Ok((layout(12, 4), vec![0, 4, 8])));
}
