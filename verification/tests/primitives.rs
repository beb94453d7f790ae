use bytes::{Bytes, BytesMut};
use falcon_protocol::buf::{ReadBuf, WriteBuf};
use falcon_protocol::collections::{array_read, bytearray_read, iter_read, slice_size, write_slice};
use falcon_protocol::error::{ReadError, WriteError};
use falcon_protocol::packet_bytes::PacketBytes;
use falcon_protocol::string::PacketString;
use falcon_protocol::traits::{PacketRead, PacketReadSeed, PacketSize, PacketWrite, PacketWriteSeed};
use falcon_protocol::uuids::{StringUuid, Uuid};
use falcon_protocol::varint::{VarI32, VarI64};

#[test]
fn test_bytearray() {
    let mut buffer = ReadBuf::from_slice(&[0, 1, 3, 4, 2]);
    let bytes: [u8; 3] = bytearray_read(&mut buffer).unwrap();
    assert_eq!(&[0, 1, 3], bytes.as_slice());
    assert!(bytearray_read::<3>(&mut buffer).is_err());
}

#[test]
fn test_array() {
    let mut buffer = ReadBuf::from_slice(&[0, 2, 0, 4, 0, 3]);
    let bytes: [u16; 3] = array_read(&mut buffer).unwrap();
    assert_eq!(&[2, 4, 3], bytes.as_slice());
    assert_eq!(Err(ReadError::NoMoreBytes), array_read::<u16, 3>(&mut buffer));
}

#[test]
fn boolean_test_size() {
    assert_eq!(1, true.size());
    assert_eq!(1, false.size());
}

#[test]
fn boolean_test_write() {
    let mut buffer = WriteBuf::with_limit(2);
    true.write(&mut buffer).unwrap();
    assert_eq!(&[1], buffer.as_slice());
    false.write(&mut buffer).unwrap();
    assert_eq!(&[1, 0], buffer.as_slice());
    assert!(true.write(&mut buffer).is_err());
}

#[test]
fn boolean_test_read() {
    let mut buffer = ReadBuf::new(vec![]);
    assert!(bool::read(&mut buffer).is_err());
    let mut buffer = ReadBuf::from_slice(&[0, 1, 0]);
    assert!(bool::read(&mut buffer).unwrap() == false);
    assert!(bool::read(&mut buffer).unwrap() == true);
    assert!(bool::read(&mut buffer).unwrap() == false);
    assert!(bool::read(&mut buffer).is_err());
}

#[test]
fn test_bytes_read() {
    let mut buffer = ReadBuf::from_slice(&[0, 1, 2, 3]);
    assert!(PacketReadSeed::<Bytes>::read(5usize, &mut buffer).is_err());
    let result: Bytes = PacketReadSeed::<Bytes>::read(1usize, &mut buffer).unwrap();
    assert_eq!(&[0], result.as_ref());
    let result: Bytes = PacketReadSeed::<Bytes>::read(3usize, &mut buffer).unwrap();
    assert_eq!(&[1, 2, 3], result.as_ref());
}

#[test]
fn test_bytes_write() {
    let bytes = Bytes::from_static(&[0, 1, 2, 3, 4]);
    assert_eq!(5, bytes.size());
    assert_eq!(5, bytes.len());
    let mut buffer = WriteBuf::with_limit(4);
    assert!(bytes.write(&mut buffer).is_err());
    let mut buffer = WriteBuf::new();
    bytes.write(&mut buffer).unwrap();
    assert_eq!(&[0, 1, 2, 3, 4], buffer.as_slice());

    let bytes = [4, 3, 2, 1];
    let bytes = Bytes::copy_from_slice(&bytes[..]);
    bytes.write(&mut buffer).unwrap();
    assert_eq!(&[0, 1, 2, 3, 4, 4, 3, 2, 1], buffer.as_slice());
}

#[test]
fn test_packet_read() {
    let mut buffer = ReadBuf::from_slice(&[0, 1, 2, 3]);
    assert!(PacketReadSeed::<PacketBytes>::read(5usize, &mut buffer).is_err());
    let result: PacketBytes = PacketReadSeed::<PacketBytes>::read(1usize, &mut buffer).unwrap();
    assert_eq!(&[0], result.as_ref());
    let result: PacketBytes = PacketReadSeed::<PacketBytes>::read(3usize, &mut buffer).unwrap();
    assert_eq!(&[1, 2, 3], result.as_ref());
}

#[test]
fn test_packet_write() {
    let bytes = PacketBytes::from_static(&[0, 1, 2, 3, 4]);
    assert_eq!(5, bytes.size());
    assert_eq!(5, bytes.len());
    let mut buffer = WriteBuf::with_limit(4);
    assert!(bytes.write(&mut buffer).is_err());
    let mut buffer = WriteBuf::new();
    bytes.write(&mut buffer).unwrap();
    assert_eq!(&[0, 1, 2, 3, 4], buffer.as_slice());

    let bytes = [4, 3, 2, 1];
    let bytes = PacketBytes::from_slice(&bytes[..]);
    bytes.write(&mut buffer).unwrap();
    assert_eq!(&[0, 1, 2, 3, 4, 4, 3, 2, 1], buffer.as_slice());
}

#[test]
fn test_iter() {
    let mut buffer = ReadBuf::from_slice(&[0, 1, 2, 3]);
    let result: PacketBytes = PacketReadSeed::<PacketBytes>::read(4usize, &mut buffer).unwrap();
    for (check, &i) in result.as_ref().iter().enumerate() {
        assert_eq!(check as u8, i);
    }
    let mut iter = result.into_iter();
    let mut check = 0u8;
    while let Some(i) = iter.next() {
        assert_eq!(check, i);
        check += 1;
    }
    assert_eq!(4, check);
}

#[test]
fn num_test_size() {
    let num = VarI32::from(3);
    assert_eq!(1, num.size());
    let num = VarI32::from(0b1_1111_1111_1111);
    assert_eq!(2, num.size());
    let num = VarI32::from(200);
    assert_eq!(2, num.size());
    let num = VarI32::from(4000);
    assert_eq!(2, num.size());
    let num = VarI32::from(0b1111_1111_1111_1111);
    assert_eq!(3, num.size());
}

#[test]
fn num_test_write() {
    let mut buffer = WriteBuf::with_limit(2);
    assert!(VarI32::from(1).write(&mut buffer).is_ok());
    assert!(VarI32::from(0b1111_1111).write(&mut buffer).is_err());

    let mut buffer = WriteBuf::new();
    VarI32::from(-1).write(&mut buffer).unwrap();
    assert_eq!(&[0xff, 0xff, 0xff, 0xff, 0x0f], buffer.as_slice());
    buffer.clear();
    VarI32::from(-2147483648).write(&mut buffer).unwrap();
    assert_eq!(&[0x80, 0x80, 0x80, 0x80, 0x08], buffer.as_slice());
    buffer.clear();
    VarI32::from(128).write(&mut buffer).unwrap();
    VarI32::from(255).write(&mut buffer).unwrap();
    VarI32::from(2).write(&mut buffer).unwrap();
    VarI32::from(127).write(&mut buffer).unwrap();
    assert_eq!([0x80, 0x01, 0xff, 0x01, 0x02, 0x7f], buffer.as_slice());
}

#[test]
fn num_test_read() {
    let mut buffer = ReadBuf::from_slice(&[0xff, 0xff, 0xff, 0xff]);
    assert!(VarI32::read(&mut buffer).is_err());
    let mut buffer = ReadBuf::from_slice(&[0xff, 0xff, 0xff, 0xff, 0xff, 0xff]);
    assert!(VarI32::read(&mut buffer).is_err());
    let mut buffer = ReadBuf::from_slice(&[0xff, 0xff, 0xff, 0xff, 0x7f]);
    assert_eq!(-1, VarI32::read(&mut buffer).unwrap().val());
}

#[test]
fn rest_test_read() {
    let mut buffer = ReadBuf::from_slice(&[0, 1, 2, 3, 4]);
    assert!(u8::read(&mut buffer).is_ok());
    let bytes: PacketBytes = PacketReadSeed::<PacketBytes>::read((), &mut buffer).unwrap();
    assert_eq!(&[1, 2, 3, 4], bytes.as_ref());

    let mut buffer = ReadBuf::from_slice(&[0, 1, 2, 3, 4]);
    assert!(u8::read(&mut buffer).is_ok());
    let bytes: Bytes = PacketReadSeed::<Bytes>::read((), &mut buffer).unwrap();
    assert_eq!(&[1, 2, 3, 4], bytes.as_ref());

    let mut buffer = ReadBuf::from_slice(&[0, 1, 2, 3, 4]);
    assert!(u8::read(&mut buffer).is_ok());
    let bytes: BytesMut = PacketReadSeed::<BytesMut>::read((), &mut buffer).unwrap();
    assert_eq!(&[1, 2, 3, 4], bytes.as_ref());
}

#[test]
fn slices_test_write() {
    let mut buffer = WriteBuf::new();
    let bytes = [0u8, 1, 2, 3];
    write_slice(&bytes[..], &mut buffer).unwrap();
    assert_eq!(&[0, 1, 2, 3], buffer.as_slice());

    let bytes = [0i8, 1, 2, 3];
    write_slice(&bytes[..], &mut buffer).unwrap();
    assert_eq!(&[0, 1, 2, 3, 0, 1, 2, 3], buffer.as_slice());

    let bytes = [true, false, true, false];
    write_slice(&bytes[..], &mut buffer).unwrap();
    assert_eq!(&[0, 1, 2, 3, 0, 1, 2, 3, 1, 0, 1, 0], buffer.as_slice());

    let bytes = [3i32];
    write_slice(&bytes[..], &mut buffer).unwrap();
    assert_eq!(&[0, 1, 2, 3, 0, 1, 2, 3, 1, 0, 1, 0, 0, 0, 0, 3], buffer.as_slice());
}

#[test]
fn slices_test_size() {
    let bytes = [0u8, 1, 2, 3];
    assert_eq!(4, slice_size(&bytes[..]));
    let bytes = [0i8, 1, 2, 3];
    assert_eq!(4, slice_size(&bytes[..]));
    let bytes = [true, false, true, false];
    assert_eq!(4, slice_size(&bytes[..]));
    let bytes = [0i32, 1, 2, 3];
    assert_eq!(16, slice_size(&bytes[..]));
}

#[test]
fn string_test_read() {
    let mut buffer = ReadBuf::from_slice(&[0x06, 0x4e, 0x6f, 0x74, 0x63, 0x68]);
    assert_eq!(Err(ReadError::NoMoreBytes), PacketReadSeed::<PacketString>::read(10usize, &mut buffer));
    let mut buffer = ReadBuf::from_slice(&[0x06, 0x4e, 0x6f, 0x74, 0x63, 0x68]);
    assert_eq!(Err(ReadError::NoMoreBytes), PacketReadSeed::<PacketString>::read(3usize, &mut buffer));
    let mut buffer = ReadBuf::from_slice(&[0x05, 0x4e, 0x6f, 0x74, 0x63, 0x68]);
    assert_eq!(
        Err(ReadError::StringTooLong(3, 5)),
        PacketReadSeed::<PacketString>::read(3usize, &mut buffer)
    );
    let mut buffer = ReadBuf::from_slice(&[0x05, 0x4e, 0x6f, 0x74, 0x63, 0x68]);
    assert_eq!("Notch", PacketReadSeed::<PacketString>::read(5usize, &mut buffer).unwrap().as_str());
    let mut buffer = ReadBuf::from_slice(&[0x05, 0x4e, 0x6f, 0x74, 0x63, 0x68, 0x03, 0x4a, 0x65, 0x62]);
    assert_eq!("Notch", PacketReadSeed::<PacketString>::read(5usize, &mut buffer).unwrap().as_str());
    assert_eq!("Jeb", PacketReadSeed::<PacketString>::read(4usize, &mut buffer).unwrap().as_str());
}

#[test]
fn string_test_write() {
    let mut buffer = WriteBuf::with_limit(3);
    let str = PacketString::from("Jeb");
    assert_eq!(Err(WriteError::EndOfBuffer), PacketWriteSeed::<PacketString>::write(4usize, &str, &mut buffer));
    let mut buffer = WriteBuf::new();
    PacketWriteSeed::<PacketString>::write(4usize, &str, &mut buffer).unwrap();
    assert_eq!(&[0x03, 0x4a, 0x65, 0x62], buffer.as_slice());
    let notch = PacketString::from("Notch");
    assert_eq!(
        Err(WriteError::StringTooLong(4, 5)),
        PacketWriteSeed::<PacketString>::write(4usize, &notch, &mut buffer)
    );
    PacketWriteSeed::<PacketString>::write(5usize, &notch, &mut buffer).unwrap();
    assert_eq!(&[0x03, 0x4a, 0x65, 0x62, 0x05, 0x4e, 0x6f, 0x74, 0x63, 0x68], buffer.as_slice());
}

#[test]
fn uuid_test_read() {
    let mut buffer = ReadBuf::from_slice(&[
        0x8b, 0x9f, 0xe9, 0xc4, 0xd6, 0x4e, 0x4c, 0x2c, 0xaa, 0x21, 0x0c, 0x0c, 0xdb, 0x82, 0x92, 0x53,
    ]);
    let uuid = Uuid::read(&mut buffer).unwrap();
    assert_eq!(
        "8b9fe9c4-d64e-4c2c-aa21-0c0cdb829253",
        String::from_utf8(uuid.hyphenated_lower().to_vec()).unwrap()
    );
    let mut buffer = ReadBuf::from_slice(&[0x01, 0x02]);
    assert_eq!(Err(ReadError::NoMoreBytes), Uuid::read(&mut buffer));
    let mut buffer = ReadBuf::from_slice(&[
        0x8b, 0x9f, 0xe9, 0xc4, 0xd6, 0x4e, 0x4c, 0x2c, 0xaa, 0x21, 0x0c, 0x0c, 0xdb, 0x82, 0x92, 0x53, 0x24,
    ]);
    let _ = Uuid::read(&mut buffer).unwrap();
    assert_eq!(&[0x24], buffer.as_slice());
}

#[test]
fn uuid_test_write() {
    let mut buffer = WriteBuf::with_limit(15);
    let uuid = Uuid::parse_str("8b9fe9c4-d64e-4c2c-aa21-0c0cdb829253").unwrap();
    assert_eq!(Err(WriteError::EndOfBuffer), uuid.write(&mut buffer));
    let mut buffer = WriteBuf::new();
    let uuid = Uuid::parse_str("8b9fe9c4-d64e-4c2c-aa21-0c0cdb829253").unwrap();
    uuid.write(&mut buffer).unwrap();
    assert_eq!(
        &[0x8b, 0x9f, 0xe9, 0xc4, 0xd6, 0x4e, 0x4c, 0x2c, 0xaa, 0x21, 0x0c, 0x0c, 0xdb, 0x82, 0x92, 0x53],
        buffer.as_slice()
    );
}

#[test]
fn test_str_read() {
    let mut bytes = vec![36u8];
    bytes.extend_from_slice(b"8b9fe9c4-d64e-4c2c-aa21-0c0cdb829253");
    let mut buffer = ReadBuf::new(bytes);

    let uuid = Uuid::parse_str("8b9fe9c4-d64e-4c2c-aa21-0c0cdb829253").unwrap();
    assert_eq!(uuid, StringUuid::read(&mut buffer).unwrap().into());
}

#[test]
fn test_str_write() {
    let mut buffer = WriteBuf::new();
    let uuid: StringUuid = Uuid::parse_str("8b9fe9c4-d64e-4c2c-aa21-0c0cdb829253").unwrap().into();
    uuid.write(&mut buffer).unwrap();

    let mut out = ReadBuf::new(buffer.into_vec());
    assert_eq!(36, out.get_u8());
    assert_eq!(b"8b9fe9c4-d64e-4c2c-aa21-0c0cdb829253", out.as_slice());
}

#[test]
fn vec_test_read() {
    let mut buffer = ReadBuf::from_slice(&[0, 0, 0, 2, 0, 0, 0, 3]);
    let nums: Vec<u16> = iter_read(4, &mut buffer).unwrap();
    assert_eq!(&[0, 2, 0, 3], &nums[..]);

    let mut buffer = ReadBuf::from_slice(&[0, 0, 0, 2, 0, 0]);
    assert_eq!(Err(ReadError::NoMoreBytes), iter_read::<u16>(4, &mut buffer));
}

#[test]
fn vari64_writes_and_reads_back() {
    let mut buffer = WriteBuf::new();
    VarI64::from(-1i64).write(&mut buffer).unwrap();
    assert_eq!(10, buffer.len());
    let mut input = ReadBuf::new(buffer.into_vec());
    assert_eq!(-1, VarI64::read(&mut input).unwrap().val());
}

#[test]
fn uuid_matches_outside_parser() {
    let text = "8b9fe9c4-d64e-4c2c-aa21-0c0cdb829253";
    let ours = Uuid::parse_str(text).unwrap();
    assert_eq!(uuid::Uuid::parse_str(text).unwrap().as_u128(), ours.as_u128());
    assert_eq!(Err(ReadError::UuidError), Uuid::parse_str("not a uuid"));
}

#[test]
fn string_writes_and_reads_back() {
    let text = "héllo wörld ✓";
    let mut buffer = WriteBuf::new();
    PacketWriteSeed::<str>::write(13usize, text, &mut buffer).unwrap();
    buffer.put_slice(&[0xAB]);
    let mut input = ReadBuf::new(buffer.into_vec());
    let back = PacketReadSeed::<PacketString>::read(13usize, &mut input).unwrap();
    assert_eq!(text, back.as_str());
    assert_eq!(&[0xAB], input.as_slice());
}

#[test]
fn items_write_and_read_back() {
    let items: Vec<u16> = vec![1, 700, 65535, 0];
    let mut buffer = WriteBuf::new();
    write_slice(&items, &mut buffer).unwrap();
    buffer.put_slice(&[9]);
    let mut input = ReadBuf::new(buffer.into_vec());
    let back: Vec<u16> = iter_read(4, &mut input).unwrap();
    assert_eq!(items, back);
    assert_eq!(&[9], input.as_slice());
}

#[test]
fn string_uuid_derefs_to_its_uuid() {
    let u = Uuid { value: 0x0123_4567_89ab_cdef_0123_4567_89ab_cdef };
    let s = StringUuid::from(u);
    assert_eq!(u, *s);
    assert_eq!(u, s.into_inner());
    assert_eq!(0, StringUuid::new().into_inner().value);
}

#[test]
fn failed_bytes_write_leaves_the_buffer() {
    let bytes = Bytes::from_static(&[0, 1, 2, 3, 4]);
    let mut buf = WriteBuf::with_limit(4);
    assert!(bytes.write(&mut buf).is_err());
    assert!(buf.as_slice().is_empty());
}

#[test]
fn packet_string_from_str_shares_a_copy() {
    let s = PacketString::from("Dinnerbone");
    assert!(matches!(s, PacketString::Slice(_)));
    assert_eq!(b"Dinnerbone".as_slice(), s.as_bytes());
    assert_eq!("Dinnerbone", s.as_str());
}
