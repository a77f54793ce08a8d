use sandlock_core::byte_order::{read_u16, read_u32, read_u64, write_u16, write_u32, ByteOrder};

#[test]
fn numbers_are_read_in_the_order_of_the_machine() {
    let bytes = [9, 1, 2, 3, 4, 5, 6, 7, 8];
    assert_eq!(read_u16(&bytes[1..3], ByteOrder::Little), 0x0201);
    assert_eq!(read_u16(&bytes[1..3], ByteOrder::Big), 0x0102);
    assert_eq!(read_u32(&bytes[1..5], ByteOrder::Little), 0x04030201);
    assert_eq!(read_u32(&bytes[1..5], ByteOrder::Big), 0x01020304);
    assert_eq!(read_u64(&bytes[1..9], ByteOrder::Little), 0x0807060504030201);
    assert_eq!(read_u64(&bytes[1..9], ByteOrder::Big), 0x0102030405060708);
}

#[test]
fn numbers_are_read_back() {
    for order in [ByteOrder::Little, ByteOrder::Big] {
        assert_eq!(read_u16(&write_u16(0xbeef, order), order), 0xbeef);
        assert_eq!(read_u32(&write_u32(0xdeadbeef, order), order), 0xdeadbeef);
    }
}
