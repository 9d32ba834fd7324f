use streamconv::order::ByteOrder;

#[test]
fn read_spells_the_bytes_in_either_order() {
    let bytes = [0x01u8, 0x02, 0x03, 0x04, 0x05, 0x06, 0x07, 0x08, 0x09];
    assert_eq!(ByteOrder::Little.read(&bytes, 0, 1), 0x01);
    assert_eq!(ByteOrder::Big.read(&bytes, 0, 1), 0x01);
    assert_eq!(ByteOrder::Little.read(&bytes, 0, 2), 0x0201);
    assert_eq!(ByteOrder::Big.read(&bytes, 0, 2), 0x0102);
    assert_eq!(ByteOrder::Little.read(&bytes, 1, 4), 0x0504_0302);
    assert_eq!(ByteOrder::Big.read(&bytes, 1, 4), 0x0203_0405);
    assert_eq!(ByteOrder::Little.read(&bytes, 1, 8), 0x0908_0706_0504_0302);
    assert_eq!(ByteOrder::Big.read(&bytes, 1, 8), 0x0203_0405_0607_0809);
    assert_eq!(ByteOrder::Little.read(&bytes, 9, 0), 0);
    assert_eq!(ByteOrder::Big.read(&bytes, 3, 3), 0x04_0506);
}

#[test]
fn read_agrees_with_the_standard_library() {
    let bytes = [0xffu8, 0x00, 0x80, 0x7f, 0x12, 0xfe, 0xdc, 0xba];
    assert_eq!(ByteOrder::Little.read(&bytes, 0, 8), u64::from_le_bytes(bytes));
    assert_eq!(ByteOrder::Big.read(&bytes, 0, 8), u64::from_be_bytes(bytes));
    assert_eq!(
        ByteOrder::Little.read(&bytes, 4, 4),
        u32::from_le_bytes([0x12, 0xfe, 0xdc, 0xba]) as u64
    );
    assert_eq!(
        ByteOrder::Big.read(&bytes, 4, 4),
        u32::from_be_bytes([0x12, 0xfe, 0xdc, 0xba]) as u64
    );
}

#[test]
fn write_appends_the_bytes_in_either_order() {
    let mut out = vec![0xaau8];
    ByteOrder::Little.write(0x0102_0304_0506_0708, 8, &mut out);
    assert_eq!(out, [0xaa, 8, 7, 6, 5, 4, 3, 2, 1]);
    ByteOrder::Big.write(0x0102_0304_0506_0708, 8, &mut out);
    assert_eq!(out, [0xaa, 8, 7, 6, 5, 4, 3, 2, 1, 1, 2, 3, 4, 5, 6, 7, 8]);

    let mut out = Vec::new();
    ByteOrder::Little.write(0xbeef, 2, &mut out);
    ByteOrder::Big.write(0xbeef, 2, &mut out);
    ByteOrder::Little.write(0x1234_5678, 4, &mut out);
    ByteOrder::Big.write(0x1234_5678, 4, &mut out);
    ByteOrder::Big.write(0x7f, 1, &mut out);
    assert_eq!(
        out,
        [0xef, 0xbe, 0xbe, 0xef, 0x78, 0x56, 0x34, 0x12, 0x12, 0x34, 0x56, 0x78, 0x7f]
    );
}

#[test]
fn write_keeps_the_low_bytes_only() {
    let mut out = Vec::new();
    ByteOrder::Little.write(0x1234_5678, 2, &mut out);
    ByteOrder::Big.write(0x1234_5678, 2, &mut out);
    ByteOrder::Big.write(0x1234_5678, 0, &mut out);
    assert_eq!(out, [0x78, 0x56, 0x56, 0x78]);
}

#[test]
fn a_word_survives_unpacking_and_packing() {
    let bytes: Vec<u8> = (0..=255u8).rev().collect();
    for order in [ByteOrder::Little, ByteOrder::Big] {
        for width in [1usize, 2, 3, 4, 8] {
            let mut at = 0;
            while at + width <= bytes.len() {
                let mut out = Vec::new();
                order.write(order.read(&bytes, at, width), width, &mut out);
                assert_eq!(out, &bytes[at..at + width]);
                at += width;
            }
        }
    }
}

#[test]
fn a_pattern_survives_packing_and_unpacking() {
    for order in [ByteOrder::Little, ByteOrder::Big] {
        for v in [0u64, 1, 0xff, 0x100, 0x8000, 0xdead_beef, u64::MAX, 1 << 63] {
            let mut out = Vec::new();
            order.write(v, 8, &mut out);
            assert_eq!(order.read(&out, 0, 8), v);
            let mut out = Vec::new();
            order.write(v, 4, &mut out);
            assert_eq!(order.read(&out, 0, 4), v % (1 << 32));
        }
    }
}

#[test]
fn the_probe_tells_the_order() {
    assert_eq!(ByteOrder::from_probe([1, 0]), ByteOrder::Little);
    assert_eq!(ByteOrder::from_probe([0, 1]), ByteOrder::Big);
    assert_eq!(ByteOrder::from_probe(1u16.to_le_bytes()), ByteOrder::Little);
    assert_eq!(ByteOrder::from_probe(1u16.to_be_bytes()), ByteOrder::Big);
}

#[test]
fn native_is_the_order_of_this_machine() {
    let native = ByteOrder::native();
    let x: u64 = 0x0102_0304_0506_0708;
    let mut out = Vec::new();
    native.write(x, 8, &mut out);
    assert_eq!(out, x.to_ne_bytes());
    assert_eq!(native.read(&x.to_ne_bytes(), 0, 8), x);
    if 1u16.to_ne_bytes() == [1, 0] {
        assert_eq!(native, ByteOrder::Little);
    } else {
        assert_eq!(native, ByteOrder::Big);
    }
}
