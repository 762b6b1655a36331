use dsrs::word::{word_bytes, word_from, WORD_BYTES};

#[test]
fn words_round_trip() {
    for x in [0usize, 1, 255, 256, 0x0102_0304, usize::MAX] {
        let bytes = word_bytes(x);
        assert_eq!(bytes.len(), WORD_BYTES);
        assert_eq!(bytes, (x as u64).to_le_bytes().to_vec());
        assert_eq!(word_from(&bytes, 0), Some(x));
    }
    let mut shifted = vec![0xaa; 3];
    shifted.extend_from_slice(&word_bytes(513));
    assert_eq!(word_from(&shifted, 3), Some(513));
    assert_eq!(word_bytes(0x0102), vec![2, 1, 0, 0, 0, 0, 0, 0]);
}
