use dsrs::hint::{likely, unlikely};
use std::num::NonZeroU32;

#[test]
fn boolen_identity() {
    assert!(likely(true));
    assert!(!likely(false));
    assert!(unlikely(true));
    assert!(!unlikely(false));
}

fn sub2(num: u32) -> Option<u32> {
    let sub = u32::wrapping_sub;

    if likely(num > 0) {
        let num = sub(num, 1);

        if unlikely(num == 0) {
            None
        } else {
            Some(sub(num, 1))
        }
    } else {
        None
    }
}

fn sub2n(num: NonZeroU32) -> Option<u32> {
    sub2(num.get())
}

fn check_sub2(num: u32, ans: Option<u32>) {
    let nonzero = NonZeroU32::new(num);

    assert_eq!(sub2(num), nonzero.and_then(sub2n));
    assert_eq!(sub2(num), ans)
}

#[test]
fn conditions_const_context() {
    for i in 0..=5 {
        check_sub2(i, if i > 1 { Some(i - 2) } else { None })
    }
}
