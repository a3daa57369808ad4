use cope::packet_data::PacketData;

#[test]
fn test_xor_same_len() {
    let input0 = PacketData::new(vec![0xFF; 4]);
    let input1 = PacketData::new(vec![0x00; 4]);

    let res0 = input0.clone().xor(&input0);
    let exp0 = PacketData::new(vec![0x00; 4]);
    let res1 = input0.clone().xor(&input1);
    let exp1 = PacketData::new(vec![0xFF; 4]);

    assert_eq!(exp0.0, res0.0);
    assert_eq!(exp1.0, res1.0);
}

#[test]
fn test_xor_different_len() {
    let input0 = PacketData::new(vec![0xFF; 8]);
    let input1 = PacketData::new(vec![0xFF; 4]);
    let input2 = PacketData::new(vec![0x00; 4]);

    let res0 = input0.clone().xor(&input1);
    let mut vec0 = vec![0x00; 4];
    vec0.extend(vec![0xFF; 4]);
    let exp0 = PacketData::new(vec0);
    let res1 = input0.clone().xor(&input2);
    let exp1 = PacketData::new(vec![0xFF; 8]);

    assert_eq!(exp0.0, res0.0);
    assert_eq!(exp1.0, res1.0);
}

#[test]
fn test_right_pad() {
    let input = PacketData::new(vec![0xFF, 0xFF, 0xFF]);
    let res0 = input.clone().right_pad(1, 0);
    let res1 = input.clone().right_pad(3, 0);
    let res2 = input.clone().right_pad(8, 0);
    let exp0 = PacketData::new(vec![0xFF, 0xFF, 0xFF]);
    let exp1 = PacketData::new(vec![0xFF, 0xFF, 0xFF]);
    let exp2 = PacketData::new(vec![0xFF, 0xFF, 0xFF, 0, 0, 0, 0, 0]);
    assert_eq!(exp0.0, res0.0);
    assert_eq!(exp1.0, res1.0);
    assert_eq!(exp2.0, res2.0);
}

#[test]
fn xor_is_its_own_inverse() {
    let data = PacketData::new(vec![0x13, 0x37, 0x00, 0xAB]);
    let other = PacketData::new(vec![0x55, 0xAA, 0x0F, 0xF0]);
    let back = data.clone().xor(&other).xor(&other);
    assert_eq!(data.0, back.0);
}
