use gdeflate::endian::{get_u16_le, get_u32_le, put_u16_le, put_u32_le};

#[test]
fn numbers_are_written_low_byte_first() {
    let mut out = vec![0xaa];
    put_u16_le(&mut out, 0x1234);
    put_u32_le(&mut out, 0x89ab_cdef);
    put_u16_le(&mut out, 0);
    put_u32_le(&mut out, u32::MAX);
    assert_eq!(
        out,
        vec![0xaa, 0x34, 0x12, 0xef, 0xcd, 0xab, 0x89, 0, 0, 0xff, 0xff, 0xff, 0xff]
    );
}

#[test]
fn numbers_are_read_low_byte_first() {
    let bytes = [0xaa, 0x34, 0x12, 0xef, 0xcd, 0xab, 0x89];
    assert_eq!(get_u16_le(&bytes, 1), 0x1234);
    assert_eq!(get_u16_le(&bytes, 0), 0x34aa);
    assert_eq!(get_u16_le(&bytes, 5), 0x89ab);
    assert_eq!(get_u32_le(&bytes, 3), 0x89ab_cdef);
    assert_eq!(get_u32_le(&bytes, 0), 0xef12_34aa);
}

#[test]
fn written_numbers_read_back() {
    for n in [0u32, 1, 255, 256, 65535, 65536, 0x0102_0304, u32::MAX] {
        let mut out = Vec::new();
        put_u32_le(&mut out, n);
        assert_eq!(out.len(), 4);
        assert_eq!(get_u32_le(&out, 0), n);
    }
    for n in [0u16, 1, 255, 256, 0x0102, u16::MAX] {
        let mut out = Vec::new();
        put_u16_le(&mut out, n);
        assert_eq!(out.len(), 2);
        assert_eq!(get_u16_le(&out, 0), n);
    }
}
