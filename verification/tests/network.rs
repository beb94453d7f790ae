use cfb8::cipher::{AsyncStreamCipher, KeyIvInit};
use falcon_protocol::buf::{ReadBuf, WriteBuf};
use falcon_protocol::error::NetworkError;
use falcon_protocol::reader::{parse_frame_header, FrameHeader, McReader};
use falcon_protocol::traits::{PacketRead, PacketWrite};
use falcon_protocol::varint::VarI32;
use falcon_protocol::writer::{write_var32_unchecked, McWriter};

#[test]
fn reader_test_single_no_compression() {
    let mut reader = McReader::new(false, false);
    reader.put_slice(&[0x05, 0x01, 0x0, 0x0, 0x0, 0x4]);
    let packet = reader.next_packet().unwrap().unwrap();
    assert_eq!(&[0x01, 0x0, 0x0, 0x0, 0x04], &packet[..]);
    assert!(reader.next_packet().unwrap().is_none());
    assert!(reader.input_is_empty());
}

#[test]
fn reader_test_multiple_no_compression() {
    let mut reader = McReader::new(false, false);
    reader.put_slice(&[0x05, 0x01, 0x0, 0x0, 0x0, 0x4, 0xA, 0x2, 0x01, 0x0, 0x0, 0x0, 0x0, 0x0, 0x0, 0x0, 0x0]);
    let packet = reader.next_packet().unwrap().unwrap();
    assert_eq!(&[0x01, 0x0, 0x0, 0x0, 0x4], &packet[..]);
    let packet = reader.next_packet().unwrap().unwrap();
    assert_eq!(&[0x2, 0x01, 0x0, 0x0, 0x0, 0x0, 0x0, 0x0, 0x0, 0x0], &packet[..]);
    assert!(reader.next_packet().unwrap().is_none());
    assert!(reader.next_packet().unwrap().is_none());
    assert!(reader.input_is_empty());
}

#[test]
fn test_too_long_no_compression() {
    let mut reader = McReader::new(false, false);
    reader.put_slice(&[0xff, 0xff, 0xff, 0xef, 0x0]);
    let error = reader.next_packet().err().unwrap();
    assert_eq!(NetworkError::InvalidData, error);
}

#[test]
fn test_single_no_compression_separated() {
    let mut reader = McReader::new(false, false);
    reader.put_slice(&[0x0a, 0x01, 0x0, 0x0, 0x0, 0x4]);
    assert!(reader.next_packet().unwrap().is_none());
    reader.put_slice(&[0x0, 0x0, 0x0, 0x0]);
    assert!(reader.next_packet().unwrap().is_none());
    reader.put_u8(0x0);
    let packet = reader.next_packet().unwrap().unwrap();
    assert_eq!(&[0x01, 0x0, 0x0, 0x0, 0x04, 0x0, 0x0, 0x0, 0x0, 0x0], &packet[..]);
    assert!(reader.next_packet().unwrap().is_none());
    assert!(reader.input_is_empty());
}

#[test]
fn test_multiple_no_compression_separated() {
    let mut reader = McReader::new(false, false);
    reader.put_slice(&[0x0a, 0x01, 0x2, 0x3, 0x4, 0x5]);
    assert!(reader.next_packet().unwrap().is_none());
    reader.put_slice(&[0x6, 0x7, 0x8, 0x9]);
    assert!(reader.next_packet().unwrap().is_none());
    reader.put_slice(&[0xa, 0x06, 0x01]);
    let packet = reader.next_packet().unwrap().unwrap();
    assert_eq!(&[0x01, 0x2, 0x3, 0x4, 0x5, 0x6, 0x7, 0x8, 0x9, 0xa], &packet[..]);
    assert!(reader.next_packet().unwrap().is_none());
    reader.put_slice(&[0x03, 0x02, 0x4, 0x5, 0x6]);
    let packet = reader.next_packet().unwrap().unwrap();
    assert_eq!(&[0x01, 0x03, 0x02, 0x4, 0x5, 0x6], &packet[..]);
    assert!(reader.next_packet().unwrap().is_none());
    assert!(reader.input_is_empty());
}

#[test]
fn reader_test_single_compression_small() {
    let mut reader = McReader::new(true, false);
    reader.put_slice(&[0x06, 0x00, 0x01, 0x0, 0x0, 0x0, 0x4]);
    let packet = reader.next_packet().unwrap().unwrap();
    assert_eq!(&[0x01, 0x0, 0x0, 0x0, 0x04], &packet[..]);
    assert!(reader.next_packet().unwrap().is_none());
    assert!(reader.input_is_empty());
}

#[test]
fn test_multiple_compression_small() {
    let mut reader = McReader::new(true, false);
    reader.put_slice(&[
        0x6, 0x0, 0x1, 0x0, 0x0, 0x0, 0x4, 0xB, 0x0, 0x2, 0x01, 0x0, 0x0, 0x0, 0x0, 0x0, 0x0, 0x0, 0x0,
    ]);
    let packet = reader.next_packet().unwrap().unwrap();
    assert_eq!(&[0x01, 0x0, 0x0, 0x0, 0x4], &packet[..]);
    let packet = reader.next_packet().unwrap().unwrap();
    assert_eq!(&[0x2, 0x01, 0x0, 0x0, 0x0, 0x0, 0x0, 0x0, 0x0, 0x0], &packet[..]);
    assert!(reader.next_packet().unwrap().is_none());
    assert!(reader.next_packet().unwrap().is_none());
    assert!(reader.input_is_empty());
}

#[test]
fn reader_test_single_compression_large() {
    let mut reader = McReader::new(true, false);
    // 100 `0x00` bytes zlib compressed
    reader.put_slice(&[0x0d, 0x64, 0x78, 0x5e, 0x63, 0x60, 0xa0, 0x3d, 0x00, 0x00, 0x00, 0x64, 0x00, 0x01]);
    let packet = reader.next_packet().unwrap().unwrap();
    assert_eq!(100, packet.len());
    let actual = [0; 100];
    assert_eq!(&actual[..], &packet[..]);
    assert!(reader.next_packet().unwrap().is_none());
    assert!(reader.input_is_empty());
}

#[test]
fn test_multiple_compression_large() {
    let mut reader = McReader::new(true, false);
    reader.put_slice(&[
        0x0d, 0x64, 0x78, 0x5e, 0x63, 0x60, 0xa0, 0x3d, 0x00, 0x00, 0x00, 0x64, 0x00, 0x01, 0x0e, 0xc8, 0x01, 0x78,
        0x5e, 0x63, 0x64, 0x1c, 0x1e, 0x00, 0x00, 0x4f, 0x4c, 0x00, 0xc9,
    ]);
    // 100 zeros
    let packet = reader.next_packet().unwrap().unwrap();
    assert_eq!(100, packet.len());
    let actual = [0; 100];
    assert_eq!(&actual[..], &packet[..]);
    // 200 ones
    let packet = reader.next_packet().unwrap().unwrap();
    assert_eq!(200, packet.len());
    let actual = [1; 200];
    assert_eq!(&actual[..], &packet[..]);
    assert!(reader.next_packet().unwrap().is_none());
    assert!(reader.input_is_empty());
}

#[test]
fn reader_test_multiple_compression_varied() {
    let mut reader = McReader::new(true, false);
    reader.put_slice(&[
        0x06, 0x00, 0x01, 0x00, 0x00, 0x00, 0x04, 0x0e, 0xc8, 0x01, 0x78, 0x5e, 0x63, 0x64, 0x1c, 0x1e, 0x00, 0x00,
        0x4f, 0x4c, 0x00, 0xc9,
    ]);
    // 5 bytes
    let packet = reader.next_packet().unwrap().unwrap();
    assert_eq!(&[1, 0, 0, 0, 4], &packet[..]);
    // 200 ones
    let packet = reader.next_packet().unwrap().unwrap();
    assert_eq!(200, packet.len());
    let actual = [1; 200];
    assert_eq!(&actual[..], &packet[..]);
    assert!(reader.next_packet().unwrap().is_none());
    assert!(reader.input_is_empty());
}

#[test]
fn too_too_long_stream_compression() {
    let mut reader = McReader::new(true, false);
    reader.put_slice(&[0xff, 0xff, 0xff, 0xef, 0x0]);
    let error = reader.next_packet().err().unwrap();
    assert_eq!(NetworkError::InvalidData, error);
}

#[test]
fn test_too_long_actual_compression() {
    let mut reader = McReader::new(true, false);
    reader.put_slice(&[0x0a, 0xff, 0xff, 0xff, 0xef, 0x00]);
    let error = reader.next_packet().err().unwrap();
    assert_eq!(NetworkError::InvalidData, error);
}

#[test]
fn test_single_compression_separated() {
    let mut reader = McReader::new(true, false);
    // 100 `0x00` bytes zlib compressed
    reader.put_slice(&[0x0d, 0x64, 0x78, 0x5e, 0x63, 0x60, 0xa0, 0x3d]);
    assert!(reader.next_packet().unwrap().is_none());
    assert!(reader.input_is_empty());
    reader.put_slice(&[0x00, 0x00, 0x00, 0x64, 0x00, 0x01]);
    let packet = reader.next_packet().unwrap().unwrap();
    assert_eq!(100, packet.len());
    let actual = [0; 100];
    assert_eq!(&actual[..], &packet[..]);
    assert!(reader.next_packet().unwrap().is_none());
    assert!(reader.input_is_empty());
}

#[test]
fn test_multiple_compression_separated() {
    let mut reader = McReader::new(true, false);
    reader.put_slice(&[0x0d, 0x64, 0x78, 0x5e, 0x63]);
    assert!(reader.next_packet().unwrap().is_none() && reader.input_is_empty());
    reader.put_slice(&[0x60, 0xa0, 0x3d, 0x00, 0x00, 0x00, 0x64, 0x00, 0x01, 0x0e]);
    // 100 zeros
    let packet = reader.next_packet().unwrap().unwrap();
    assert_eq!(100, packet.len());
    let actual = [0; 100];
    assert_eq!(&actual[..], &packet[..]);
    assert!(reader.next_packet().unwrap().is_none() && !reader.input_is_empty());
    reader.put_slice(&[0xc8, 0x01, 0x78, 0x5e, 0x63, 0x64]);
    assert!(reader.next_packet().unwrap().is_none() && reader.input_is_empty());
    reader.put_slice(&[0x1c, 0x1e, 0x00, 0x00, 0x4f, 0x4c, 0x00, 0xc9]);
    // 200 ones
    let packet = reader.next_packet().unwrap().unwrap();
    assert_eq!(200, packet.len());
    let actual = [1; 200];
    assert_eq!(&actual[..], &packet[..]);
    assert!(reader.next_packet().unwrap().is_none());
    assert!(reader.input_is_empty());
}

#[test]
fn test_invalid_varint_no_compression() {
    let mut reader = McReader::new(false, false);
    reader.put_slice(&[0xff, 0xff, 0xff, 0xff, 0xff, 0xff]);
    let error = reader.next_packet().err().unwrap();
    assert_eq!(NetworkError::InvalidData, error);
}

#[test]
fn test_invalid_varint_compression() {
    let mut reader = McReader::new(true, false);
    reader.put_slice(&[0xff, 0xff, 0xff, 0xff, 0xff, 0xff]);
    let error = reader.next_packet().err().unwrap();
    assert_eq!(NetworkError::InvalidData, error);

    let mut reader = McReader::new(true, false);
    reader.put_slice(&[0x0a, 0xff, 0xff, 0xff, 0xff, 0xff]);
    let error = reader.next_packet().err().unwrap();
    assert_eq!(NetworkError::InvalidData, error);
}

#[test]
fn really_large_input() {
    let mut reader = McReader::new(false, false);
    let mut header = WriteBuf::new();
    VarI32::from(9000).write(&mut header).unwrap();
    reader.put_slice(header.as_slice());
    reader.put_slice(&[1; 9000]);
    let packet = reader.next_packet().unwrap().unwrap();
    assert_eq!(&[1; 9000], &packet[..]);
}

#[test]
fn test_single_packet_mode_correct_usage() {
    let mut reader = McReader::new(false, true);
    reader.put_slice(&[0x02, 0x01, 0x03, 0x04, 0x00, 0x02, 0x03, 0x01]);
    let packet = reader.next_packet().unwrap().unwrap();
    assert_eq!(&[0x01, 0x03], &packet[..]);
    reader.compression(true);
    let packet = reader.next_packet().unwrap().unwrap();
    assert_eq!(&[0x02, 0x03, 0x01], &packet[..]);
}

#[test]
fn test_single_packet_mode_correct_usage_separated() {
    let mut reader = McReader::new(false, true);
    reader.put_slice(&[0x02, 0x01, 0x03, 0x04, 0x00]);
    let packet = reader.next_packet().unwrap().unwrap();
    assert_eq!(&[0x01, 0x03], &packet[..]);
    assert!(reader.next_packet().unwrap().is_none());
    reader.put_slice(&[0x02, 0x03, 0x01]);
    reader.compression(true);
    let packet = reader.next_packet().unwrap().unwrap();
    assert_eq!(&[0x02, 0x03, 0x01], &packet[..]);
}

#[test]
fn single_packet_mode_has_a_window_of_four_kib() {
    let mut reader = McReader::new(false, true);
    assert_eq!(4096, reader.remaining_mut());
    reader.put_slice(&[0x01, 0x07]);
    assert_eq!(4094, reader.remaining_mut());
}

#[test]
fn corrupt_compressed_packet_is_invalid_input() {
    let mut reader = McReader::new(true, false);
    reader.put_slice(&[0x04, 0x05, 0x01, 0x02, 0x03]);
    assert_eq!(NetworkError::InvalidInput, reader.next_packet().err().unwrap());
}

#[test]
fn reader_stops_where_framing_failed() {
    // The packet's bytes were taken before it failed to inflate: nothing is
    // left to frame afterwards.
    let mut reader = McReader::new(true, false);
    reader.put_slice(&[0x04, 0x05, 0x01, 0x02, 0x03]);
    assert_eq!(NetworkError::InvalidInput, reader.next_packet().err().unwrap());
    assert!(reader.input_is_empty());
    assert!(reader.next_packet().unwrap().is_none());
    // A malformed header is left where it was, and fails again.
    let mut reader = McReader::new(false, false);
    reader.put_slice(&[0xff, 0xff, 0xff, 0xff, 0xff, 0x01]);
    assert_eq!(NetworkError::InvalidData, reader.next_packet().err().unwrap());
    assert!(!reader.input_is_empty());
    assert_eq!(NetworkError::InvalidData, reader.next_packet().err().unwrap());
}

/// Frames of `count` packets, the `i`th holding `len` bytes of value `i`.
fn plain_frames(count: u32, len: u8) -> (Vec<u8>, Vec<Vec<u8>>) {
    let mut stream = Vec::new();
    let mut packets = Vec::new();
    for i in 0..count {
        let packet = vec![i as u8; len as usize];
        stream.push(len);
        stream.extend_from_slice(&packet);
        packets.push(packet);
    }
    (stream, packets)
}

fn encrypted(key: [u8; 16], plain: &[u8]) -> Vec<u8> {
    let mut data = plain.to_vec();
    cfb8::Encryptor::<aes::Aes128>::new_from_slices(&key, &key).unwrap().encrypt(&mut data);
    data
}

#[test]
fn encrypted_stream_reads_back_however_cut() {
    let key = [0x2b, 0x7e, 0x15, 0x16, 0x28, 0xae, 0xd2, 0xa6, 0xab, 0xf7, 0x15, 0x88, 0x09, 0xcf, 0x4f, 0x3c];
    let (plain, packets) = plain_frames(500, 20);
    let cipher = encrypted(key, &plain);
    assert_ne!(plain, cipher);
    for cut in [1usize, 7, 16, 100, 4096, 5000, cipher.len()] {
        let mut reader = McReader::new(false, false);
        reader.encryption(key);
        let mut received = Vec::new();
        for piece in cipher.chunks(cut) {
            reader.put_slice(piece);
            while let Some(p) = reader.next_packet().unwrap() {
                received.push(p.to_vec());
            }
        }
        assert_eq!(packets, received, "cut into pieces of {}", cut);
        assert!(reader.input_is_empty());
    }
}

#[test]
fn encryption_enabled_midway_decrypts_only_what_follows() {
    let key = [9; 16];
    let mut reader = McReader::new(false, false);
    reader.put_slice(&[0x02, 0xaa, 0xbb]);
    assert_eq!(&[0xaa, 0xbb], &reader.next_packet().unwrap().unwrap()[..]);
    reader.encryption(key);
    reader.put_slice(&encrypted(key, &[0x03, 0x01, 0x02, 0x03]));
    assert_eq!(&[0x01, 0x02, 0x03], &reader.next_packet().unwrap().unwrap()[..]);
    assert!(reader.next_packet().unwrap().is_none());
}

#[test]
fn encrypted_reader_decrypts_before_framing() {
    let mut reader = McReader::new(false, false);
    reader.encryption([7; 16]);
    reader.put_slice(&[0x00; 8]);
    // The decrypted stream is not a frame of zeros; whatever it is, the reader
    // does not hand the ciphertext out unchanged.
    match reader.next_packet() {
        Ok(Some(p)) => assert_ne!(&[0u8; 7][..], &p[..]),
        Ok(None) | Err(_) => {},
    }
}

#[test]
fn frame_header_cases() {
    assert_eq!(FrameHeader::NeedMore, parse_frame_header(&[0x80], false, false));
    assert_eq!(FrameHeader::Invalid, parse_frame_header(&[0xff, 0xff, 0xff, 0xff, 0xff], false, false));
    assert_eq!(
        FrameHeader::Start { consumed: 1, expected: 5, prefix: 5, compressed: false },
        parse_frame_header(&[0x05, 1], false, false)
    );
    assert_eq!(FrameHeader::NeedMore, parse_frame_header(&[0x05, 1], false, true));
    assert_eq!(
        FrameHeader::Start { consumed: 2, expected: 5, prefix: 5, compressed: false },
        parse_frame_header(&[0x06, 0x00], true, false)
    );
    assert_eq!(
        FrameHeader::Start { consumed: 2, expected: 12, prefix: 100, compressed: true },
        parse_frame_header(&[0x0d, 0x64], true, false)
    );
}

#[test]
fn writer_test_single_no_compression() {
    let mut writer = McWriter::new(None);
    writer.start_packet(6).unwrap();
    writer.put_bytes(2, 6);
    writer.finish_packet();
    let chunk = writer.copy_to_bytes(9);
    let mut chunk = ReadBuf::from_slice(&chunk);
    let length = VarI32::read(&mut chunk).unwrap().val();
    assert_eq!(6, length);
    assert_eq!(&[0x02, 0x02, 0x02, 0x02, 0x02, 0x02], chunk.as_slice());
    assert!(writer.is_input_empty() && writer.is_output_empty());
}

#[test]
fn writer_test_multiple_no_compression() {
    let mut writer = McWriter::new(None);
    writer.start_packet(6).unwrap();
    writer.put_bytes(2, 6);
    writer.finish_packet();
    assert!(writer.is_input_empty());
    writer.start_packet(3).unwrap(); // protection against bad size estimates
    writer.put_slice(&[0x04, 0x05]);
    writer.finish_packet();
    assert!(writer.is_input_empty());
    // first packet
    let chunk = writer.copy_to_bytes(9);
    let mut chunk = ReadBuf::from_slice(&chunk);
    let length = VarI32::read(&mut chunk).unwrap().val();
    assert_eq!(6, length);
    assert_eq!(&[0x02, 0x02, 0x02, 0x02, 0x02, 0x02], chunk.as_slice());
    // second packet
    let chunk = writer.copy_to_bytes(5);
    let mut chunk = ReadBuf::from_slice(&chunk);
    let length = VarI32::read(&mut chunk).unwrap().val();
    assert_eq!(2, length);
    assert_eq!(&[0x04, 0x05], chunk.as_slice());
    assert!(writer.is_input_empty() && writer.is_output_empty());
}

#[test]
fn test_too_long_no_compresion() {
    let mut writer = McWriter::new(None);
    let error = writer.start_packet(2usize.pow(22)).err().unwrap();
    assert_eq!(NetworkError::InvalidInput, error);
}

#[test]
fn writer_test_single_compression_small() {
    let mut writer = McWriter::new(Some(1000));
    writer.start_packet(10).unwrap();
    writer.put_slice(&[1; 10]);
    writer.finish_packet();
    let len = writer.remaining();
    assert_eq!(14, len);
    let chunk = writer.copy_to_bytes(len);
    let mut chunk = ReadBuf::from_slice(&chunk);
    let stream_len = VarI32::read(&mut chunk).unwrap();
    assert_eq!(11, stream_len.val());
    let actual_len = VarI32::read(&mut chunk).unwrap();
    assert_eq!(0, actual_len.val());
    assert_eq!(&[1; 10], chunk.as_slice());
}

#[test]
fn writer_test_single_compression_large() {
    let mut writer = McWriter::new(Some(1000));
    writer.start_packet(9000).unwrap();
    writer.put_slice(&[1; 9000]);
    writer.finish_packet();
    let len = writer.remaining();
    assert_eq!(38, len);
    let chunk = writer.copy_to_bytes(len);
    let mut chunk = ReadBuf::from_slice(&chunk);
    let stream_len = VarI32::read(&mut chunk).unwrap();
    assert_eq!(35, stream_len.val());
    let actual_len = VarI32::read(&mut chunk).unwrap();
    assert_eq!(9000, actual_len.val());
    assert_eq!(
        &[
            0x78, 0xda, 0xed, 0xc1, 0x01, 0x0d, 0x00, 0x00, 0x00, 0xc2, 0xa0, 0xbd, 0x7f, 0x69, 0x7b, 0x38, 0xa0,
            0x00, 0x00, 0x00, 0x00, 0x00, 0x00, 0x00, 0x00, 0xe0, 0xdf, 0x00, 0x54, 0x12, 0x23, 0x29
        ],
        chunk.as_slice()
    );
}

#[test]
fn writer_test_multiple_compression_varied() {
    let mut writer = McWriter::new(Some(1000));
    writer.start_packet(9000).unwrap();
    writer.put_slice(&[1; 9000]);
    writer.finish_packet();
    assert_eq!(38, writer.remaining());
    writer.start_packet(10).unwrap();
    writer.put_slice(&[1; 10]);
    writer.finish_packet();
    assert_eq!(52, writer.remaining());
    let chunk = writer.copy_to_bytes(52);
    let mut chunk = ReadBuf::from_slice(&chunk);
    // first packet
    let stream_len = VarI32::read(&mut chunk).unwrap();
    assert_eq!(35, stream_len.val());
    let actual_len = VarI32::read(&mut chunk).unwrap();
    assert_eq!(9000, actual_len.val());
    assert_eq!(
        &[
            0x78, 0xda, 0xed, 0xc1, 0x01, 0x0d, 0x00, 0x00, 0x00, 0xc2, 0xa0, 0xbd, 0x7f, 0x69, 0x7b, 0x38, 0xa0,
            0x00, 0x00, 0x00, 0x00, 0x00, 0x00, 0x00, 0x00, 0xe0, 0xdf, 0x00, 0x54, 0x12, 0x23, 0x29
        ],
        &chunk.as_slice()[..stream_len.as_usize() - 3]
    );
    // use the bytes
    chunk.advance(stream_len.as_usize() - 3);
    // second packet
    let stream_len = VarI32::read(&mut chunk).unwrap();
    assert_eq!(11, stream_len.val());
    let actual_len = VarI32::read(&mut chunk).unwrap();
    assert_eq!(0, actual_len.val());
    assert_eq!(&[1; 10], chunk.as_slice());
}

#[test]
fn writer_output_reads_back_through_reader() {
    let mut writer = McWriter::new(Some(1000));
    writer.start_packet(9000).unwrap();
    writer.put_slice(&[3; 9000]);
    writer.finish_packet();
    writer.start_packet(4).unwrap();
    writer.put_slice(&[9, 8, 7, 6]);
    writer.finish_packet();
    let len = writer.remaining();
    let out = writer.copy_to_bytes(len);
    let mut reader = McReader::new(true, false);
    reader.put_slice(&out);
    let first = reader.next_packet().unwrap().unwrap();
    assert_eq!(&[3u8; 9000][..], &first[..]);
    let second = reader.next_packet().unwrap().unwrap();
    assert_eq!(&[9, 8, 7, 6], &second[..]);
    assert!(reader.next_packet().unwrap().is_none());
}

#[test]
fn padded_length_slots() {
    let mut slot = [0x80, 0x80, 0x00];
    write_var32_unchecked(6, &mut slot);
    assert_eq!([0x86, 0x80, 0x00], slot);
    let mut slot = [0x80, 0x80, 0x00];
    write_var32_unchecked(300, &mut slot);
    assert_eq!([0xac, 0x82, 0x00], slot);
    let mut slot = [0x80, 0x80, 0x00];
    write_var32_unchecked(2097151, &mut slot);
    assert_eq!([0xff, 0xff, 0x7f], slot);
}

#[test]
fn writer_chunk_and_advance() {
    let mut writer = McWriter::new(None);
    writer.start_packet(1).unwrap();
    writer.put_u8(0x2a);
    assert_eq!(0, writer.remaining());
    writer.finish_packet();
    assert_eq!(&[0x81, 0x80, 0x00, 0x2a], writer.chunk());
    writer.advance(2);
    assert_eq!(&[0x00, 0x2a], writer.chunk());
}

#[test]
fn checked_finish_refuses_an_oversized_packet() {
    let mut writer = McWriter::new(None);
    writer.start_packet(6).unwrap();
    writer.put_bytes(2, 6);
    assert_eq!(Ok(()), writer.try_finish_packet());
    assert_eq!(9, writer.remaining());
    assert_eq!(&[0x86, 0x80, 0x00, 2, 2, 2, 2, 2, 2], writer.chunk());
    let mut writer = McWriter::new(None);
    writer.start_packet(2097151).unwrap();
    writer.put_bytes(1, 2097152);
    assert_eq!(Err(NetworkError::InvalidInput), writer.try_finish_packet());
    assert!(writer.is_input_empty() && writer.is_output_empty());
}

#[test]
fn writer_room_is_what_the_output_can_grow_by() {
    let mut writer = McWriter::new(None);
    assert_eq!(isize::MAX as usize, writer.remaining_mut());
    writer.start_packet(6).unwrap();
    writer.put_bytes(2, 6);
    writer.finish_packet();
    assert_eq!(isize::MAX as usize - 9, writer.remaining_mut());
}

#[test]
fn reader_doc_compressed_stream() {
    let mut reader = McReader::new(true, false);
    reader.put_slice(&[0x06, 0x00, 0x01, 0x02, 0x03, 0x04, 0x05]);
    let packet = reader.next_packet().unwrap().unwrap();
    assert_eq!(&[0x01, 0x02, 0x03, 0x04, 0x05], &packet[..]);
}

#[test]
fn reader_doc_two_byte_packet() {
    let mut reader = McReader::new(false, false);
    reader.put_slice(&[0x02, 0x01, 0x02]);
    let packet = reader.next_packet().unwrap().unwrap();
    assert_eq!(&[0x01, 0x02], &packet[..]);
}

#[test]
fn reader_doc_packet_completed_later() {
    let mut reader = McReader::new(false, false);
    reader.put_slice(&[0x03, 0x01, 0x02, 0x03, 0x02, 0x00]);
    let packet = reader.next_packet().unwrap().unwrap();
    assert_eq!(&[0x01, 0x02, 0x03], &packet[..]);
    assert!(reader.next_packet().unwrap().is_none());
    reader.put_u8(0x01);
    let packet = reader.next_packet().unwrap().unwrap();
    assert_eq!(&[0x00, 0x01], &packet[..]);
}

fn framed(threshold: Option<i32>, packet: &[u8]) -> Vec<u8> {
    let mut writer = McWriter::new(threshold);
    writer.start_packet(packet.len()).unwrap();
    writer.put_slice(packet);
    writer.finish_packet();
    let len = writer.remaining();
    writer.copy_to_bytes(len).to_vec()
}

#[test]
fn frame_reads_back_however_it_is_cut() {
    let packet: Vec<u8> = (0..10000u32).map(|i| (i * 7 % 251) as u8).collect();
    for threshold in [None, Some(100), Some(20000)] {
        let frame = framed(threshold, &packet);
        for cut in [1usize, 3, 4095, 4096, 4097, 5000, frame.len()] {
            let mut reader = McReader::new(threshold.is_some(), false);
            for piece in frame.chunks(cut) {
                reader.put_slice(piece);
            }
            let back = reader.next_packet().unwrap().unwrap();
            assert_eq!(&packet[..], &back[..]);
            assert!(reader.next_packet().unwrap().is_none());
        }
    }
}

#[test]
fn packets_read_back_in_order_however_cut() {
    let packets: Vec<Vec<u8>> = vec![
        vec![1],
        (0..5000u32).map(|i| (i % 13) as u8).collect(),
        vec![7; 300],
        (0..9000u32).map(|i| (i * 31 % 256) as u8).collect(),
        vec![42, 43],
    ];
    for threshold in [None, Some(256), Some(100000)] {
        let mut writer = McWriter::new(threshold);
        for p in &packets {
            writer.start_packet(p.len()).unwrap();
            writer.put_slice(p);
            writer.finish_packet();
        }
        let len = writer.remaining();
        let stream = writer.copy_to_bytes(len).to_vec();
        for cut in [1usize, 2, 5, 100, 4095, 4096, 4097, stream.len()] {
            let mut reader = McReader::new(threshold.is_some(), false);
            for piece in stream.chunks(cut) {
                reader.put_slice(piece);
            }
            for p in &packets {
                let back = reader.next_packet().unwrap().unwrap();
                assert_eq!(&p[..], &back[..]);
            }
            assert!(reader.next_packet().unwrap().is_none());
        }
    }
}

fn written_frames(packets: &[Vec<u8>], threshold: Option<i32>) -> Vec<u8> {
    let mut writer = McWriter::new(threshold);
    for p in packets {
        writer.start_packet(p.len()).unwrap();
        writer.put_slice(p);
        writer.finish_packet();
    }
    let n = writer.remaining();
    writer.copy_to_bytes(n).to_vec()
}

fn asked_between_bytes(single: bool, threshold: Option<i32>) {
    let packets = vec![vec![7u8; 3], vec![1, 2, 3, 4, 5], vec![9u8; 300]];
    let stream = written_frames(&packets, threshold);
    let mut reader = McReader::new(threshold.is_some(), single);
    let mut received = Vec::new();
    for b in &stream {
        reader.put_slice(&[*b]);
        if let Some(p) = reader.next_packet().unwrap() {
            received.push(p.to_vec());
        }
        // Asking again before more bytes arrive hands out nothing new
        // unless another packet is complete.
        if let Some(p) = reader.next_packet().unwrap() {
            received.push(p.to_vec());
        }
    }
    assert!(reader.next_packet().unwrap().is_none());
    assert_eq!(packets, received);
}

#[test]
fn packets_asked_for_between_bytes() {
    asked_between_bytes(false, None);
    asked_between_bytes(false, Some(256));
    asked_between_bytes(true, None);
    asked_between_bytes(true, Some(256));
}

#[test]
fn plain_frames_with_short_lengths_read_back_in_any_cut() {
    let packets = vec![vec![7u8], vec![1, 2, 3, 4, 5], vec![9u8; 200], vec![4u8; 20000]];
    let mut stream = Vec::new();
    for p in &packets {
        let mut header = WriteBuf::new();
        VarI32::from(p.len()).write(&mut header).unwrap();
        stream.extend_from_slice(header.as_slice());
        stream.extend_from_slice(p);
    }
    // The lengths take one, one, two and three bytes.
    assert_eq!(1 + 1 + 1 + 5 + 2 + 200 + 3 + 20000, stream.len());
    for cut in [1usize, 2, 3, 7, 64, 5000, stream.len()] {
        let mut reader = McReader::new(false, false);
        let mut received = Vec::new();
        for chunk in stream.chunks(cut) {
            reader.put_slice(chunk);
            while let Some(p) = reader.next_packet().unwrap() {
                received.push(p.to_vec());
            }
        }
        assert!(reader.next_packet().unwrap().is_none());
        assert_eq!(packets, received);
    }
}
