use sigdig::codecs::not::Not;

#[test]
fn not_inverts_every_byte() {
    let mut codec = Not::new();
    assert_eq!(
        codec.process(vec![0x00, 0xFF, 0xA5, 0x5A]),
        vec![0xFF, 0x00, 0x5A, 0xA5]
    );
    assert_eq!(codec.flush(), Vec::<u8>::new());
}

#[test]
fn not_twice_is_identity() {
    let input = vec![1u8, 2, 3, 250, 128, 0, 255];
    let mut codec = Not::new();
    let once = codec.process(input.clone());
    let twice = codec.process(once);
    assert_eq!(twice, input);
}
