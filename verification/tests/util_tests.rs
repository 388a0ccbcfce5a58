use sigdig::util::{bools_to_bytes, bytes_to_bools, BitQueue};

#[test]
fn push_pop_front() {
    let mut bq = BitQueue::new();
    assert!(bq.pop_front() == None);
    bq.push_front(true);
    bq.push_front(true);
    bq.push_front(false);
    assert!(bq.pop_front() == Some(false));
    assert!(bq.pop_front() == Some(true));
    assert!(bq.pop_front() == Some(true));
    assert!(bq.pop_front() == None);
}

#[test]
fn push_pop_back() {
    let mut bq = BitQueue::new();
    assert!(bq.pop_back() == None);
    bq.push_back(true);
    bq.push_back(true);
    bq.push_back(false);
    assert!(bq.pop_back() == Some(false));
    assert!(bq.pop_back() == Some(true));
    assert!(bq.pop_back() == Some(true));
    assert!(bq.pop_back() == None);
}

#[test]
fn from_u8s() {
    let slice: &[u8] = &[0b11111111u8, 0b10101010u8, 0b00000000u8];
    let mut bq = BitQueue::from(slice);
    println!("bitqueue: {:?}", bq.as_vec());
    println!("internal: {:?}", bytes_to_bools(slice));
    assert!(bq.len() == 24);
    assert!(bq.pop_back() == Some(true));
    assert!(bq.pop_back() == Some(true));
    assert!(bq.pop_front() == Some(false));
    assert!(bq.pop_front() == Some(false));
    assert!(bq.len() == 20);
}

#[test]
fn to_u8s() {
    let slice: &[u8] = &[0b11111111u8, 0b10101010u8, 0b00000000u8];
    let bq = BitQueue::from(slice);
    println!("bitqueue: {:?}", bq.to_u8s().as_slice());
    println!("internal: {:?}", slice);
    let vec_out = bq.to_u8s();
    for i in 0..slice.len() {
        assert_eq!(*vec_out.get(i).unwrap(), slice[i]);
    }
}

#[test]
fn bools_to_u8s() {
    assert_eq!(
        bools_to_bytes(&[false, true, true, false, true, true, true, true]),
        &[0b01101111u8]
    );
    assert_eq!(bools_to_bytes(&[false, true, true, false]), &[0b01100000u8]);
    assert_eq!(
        bools_to_bytes(&[false, true, true, false, true, true, true, true, false]),
        &[0b01101111u8, 0b00000000]
    );
    assert_eq!(
        bools_to_bytes(&[
            true, true, true, true, true, true, true, true, true, false, true, false, true, false,
            true, false, false, false, false, false, false, false, false, false
        ]),
        &[255, 170, 0]
    );
}

#[test]
fn u8s_to_bools() {
    assert_eq!(
        bytes_to_bools(&[0b01011010u8, 0b01001000u8]),
        vec![
            false, true, false, true, true, false, true, false, false, true, false, false, true,
            false, false, false
        ]
    );
    assert_eq!(
        bytes_to_bools(&[0]),
        vec![false, false, false, false, false, false, false, false]
    );
}

#[test]
fn push_back_u8s_is_msb_first() {
    let mut bq = BitQueue::new();
    bq.push_back_u8s(&[0b10110000u8]);
    assert_eq!(bq.len(), 8);
    assert_eq!(bq.pop_front(), Some(true));
    assert_eq!(bq.pop_front(), Some(false));
    assert_eq!(bq.pop_front(), Some(true));
    assert_eq!(bq.pop_front(), Some(true));
    assert_eq!(bq.pop_front(), Some(false));
}

#[test]
fn partial_to_u8s_clamps_to_whole_bytes() {
    let slice: &[u8] = &[0x12u8, 0x34u8];
    let bq = BitQueue::from(slice);
    assert_eq!(bq.partial_to_u8s(1), vec![0x12u8]);
    assert_eq!(bq.partial_to_u8s(9), vec![0x12u8, 0x34u8]);
    assert_eq!(bq.partial_to_u8s(0), Vec::<u8>::new());
}

#[test]
fn append_and_copy_from() {
    let mut a = BitQueue::new();
    a.push_back(true);
    let mut b = BitQueue::new();
    b.push_back(false);
    b.push_back(true);
    a.copy_from(&b);
    assert_eq!(a.len(), 3);
    assert_eq!(b.len(), 2);
    a.append(&mut b);
    assert_eq!(a.len(), 5);
    assert_eq!(b.len(), 0);
    assert_eq!(a.pop_front(), Some(true));
    assert_eq!(a.pop_front(), Some(false));
    assert_eq!(a.pop_front(), Some(true));
    assert_eq!(a.pop_front(), Some(false));
    assert_eq!(a.pop_front(), Some(true));
}

#[test]
fn as_vec_from_vec_invert_each_other() {
    let slice: &[u8] = &[0xC3u8];
    let bq = BitQueue::from(slice);
    let v = bq.as_vec();
    assert_eq!(
        v,
        vec![true, true, false, false, false, false, true, true]
    );
    let bq2 = BitQueue::from_vec(v);
    assert_eq!(bq2.to_u8s(), vec![0xC3u8]);
}
