use bytes::Bytes;
use falcon_protocol::buf::{ReadBuf, WriteBuf};
use falcon_protocol::config::{FalconConfig, TracingLevel};
use falcon_protocol::error::WriteError;
use falcon_protocol::nbt::{Counter, Reader, Writer};
use falcon_protocol::send::batch::{send_batch, ConnectionLogic, PacketLog};
use falcon_protocol::send::ids::write_packet;
use falcon_protocol::send::specs::{
    ChunkDataSpec, ChunkSectionDataSpec, JoinGameSpec, LoginSuccessSpec, PaletteBlock, ServerDifficultySpec,
};
use falcon_protocol::send::util::HeightMap;
use falcon_protocol::send::v1_12_2::KeepAlivePacket;
use falcon_protocol::send::v1_13;
use falcon_protocol::send::v1_14;
use falcon_protocol::send::v1_15;
use falcon_protocol::send::v1_16;
use falcon_protocol::send::v1_8_9;
use falcon_protocol::send::v1_9::UnloadChunkPacket;
use falcon_protocol::traits::PacketWrite;
use falcon_protocol::uuids::Uuid;

fn written<T: PacketWrite>(p: &T) -> Vec<u8> {
    let mut buffer = WriteBuf::new();
    p.write(&mut buffer).unwrap();
    assert_eq!(buffer.len(), p.size());
    buffer.into_vec()
}

#[test]
fn spanning_pack_puts_fields_end_to_end() {
    let words = v1_13::build_compacted_data_array(14, 2, &[1, 2, 3, 4, 5]);
    // 70 bits: one full word, the last six bits of the fifth entry are dropped.
    let expected = 1u64 | (2u64 << 14) | (3u64 << 28) | (4u64 << 42) | (5u64 << 56);
    assert_eq!(vec![expected], words);
    let words = v1_13::build_compacted_data_array(14, 2, &[0, 0, 0, 0, 0x3fff, 0, 0, 0, 0]);
    // the fifth entry straddles the first two words; the second word is never full
    assert_eq!(vec![0xff00_0000_0000_0000u64], words);
    let words = v1_13::build_compacted_data_array(14, 2, &[0, 0, 0, 0, 0x3fff, 0, 0, 0, 0x3ff, 0]);
    // ten entries fill two words: the second holds the top of the fifth entry and the ninth at bit 48
    assert_eq!(vec![0xff00_0000_0000_0000u64, 0x3f | (0x3ffu64 << 48)], words);
    let words = v1_13::build_compacted_data_array(4, 64, &[0xf; 4096]);
    assert_eq!(256, words.len());
    assert!(words.iter().all(|&w| w == u64::MAX));
}

#[test]
fn aligned_pack_never_straddles() {
    let words = v1_16::play::build_compacted_data_array(9, 2, &[1, 2, 3, 4, 5, 6, 7, 8]);
    let mut first = 0u64;
    for i in 0..7u64 {
        first |= (i + 1) << (9 * i);
    }
    assert_eq!(vec![first, 8], words);
    let words = v1_16::play::build_compacted_data_array(15, 0, &[]);
    assert!(words.is_empty());
    let words = v1_16::play::build_compacted_data_array(16, 1, &[1, 2, 3, 4]);
    assert_eq!(vec![0x0004_0003_0002_0001u64], words);
}

fn section(index: usize, solid_at: &[(usize, usize, usize)]) -> ChunkSectionDataSpec {
    let mut solid = vec![false; 4096];
    for &(x, y, z) in solid_at {
        solid[y * 256 + z * 16 + x] = true;
    }
    ChunkSectionDataSpec { section_index: index, protocol_version: 498, solid }
}

#[test]
fn height_map_of_no_sections_is_flat() {
    let map = HeightMap::from_sections(&[]);
    assert_eq!(vec![0u16; 256], map.motion_blocking());
}

#[test]
fn height_map_takes_highest_block_of_column() {
    let sections = vec![section(0, &[(0, 5, 0)]), section(2, &[(0, 3, 0), (0, 1, 0)])];
    let map = HeightMap::from_sections(&sections);
    assert_eq!(vec![2 * 16 + 3 + 1], map.motion_blocking());
    let sections = vec![section(0, &[])];
    let map = HeightMap::from_sections(&sections);
    assert!(map.motion_blocking().is_empty());
}

#[test]
fn height_map_words() {
    let sections = vec![section(0, &[(0, 0, 0), (1, 1, 0)])];
    let map = HeightMap::from_sections(&sections);
    let packed = v1_14::PacketHeightMap::from_map(map);
    // two heights of nine bits fill no word
    assert!(packed.motion_blocking.is_empty());
    let sections = vec![section(0, &[(0, 0, 0)])];
    let packed = v1_16::play::PacketHeightMap::from_map(HeightMap::from_sections(&sections));
    assert_eq!(vec![1i64], packed.motion_blocking);
}

#[test]
fn bits_per_block_bounds() {
    assert_eq!(4, v1_13::bits_per_block(0));
    assert_eq!(4, v1_13::bits_per_block(3));
    assert_eq!(5, v1_13::bits_per_block(5));
    assert_eq!(8, v1_13::bits_per_block(8));
    assert_eq!(14, v1_13::bits_per_block(9));
}

fn air() -> PaletteBlock {
    PaletteBlock { global_id: Some(0), blocks_movement: false, is_air: true }
}

fn stone() -> PaletteBlock {
    PaletteBlock { global_id: Some(1), blocks_movement: true, is_air: false }
}

#[test]
fn sections_count_blocks_and_pick_palettes() {
    let unknown = PaletteBlock { global_id: None, blocks_movement: true, is_air: false };
    let blocks = [air(), stone(), stone(), unknown];
    assert_eq!(2, v1_14::count_blocks(&blocks));
    let small = v1_14::into_chunk_section(2, 14, &blocks, &[0, 1, 1, 0], Some(vec![0, 1]));
    assert_eq!(2, small.block_count);
    assert_eq!(4, small.bits_per_block);
    assert_eq!(Some(vec![0, 1]), small.palette);
    assert!(small.block_data.is_empty());
    let direct = v1_16::play::into_chunk_section(12, &blocks, &[0, 1, 1, 0], Some(vec![0, 1]));
    assert_eq!(15, direct.bits_per_block);
    assert_eq!(None, direct.palette);
    assert_eq!(vec![1u64 << 15 | 1u64 << 30], direct.block_data);
}

#[test]
fn section_1_13_layout() {
    let s = v1_13::ChunkSectionData::from_blocks(4, &[1; 16], Some(vec![0, 7]));
    let bytes = written(&s);
    assert_eq!(4, bytes[0]);
    assert_eq!(&[2, 0, 7, 1], &bytes[1..5]);
    assert_eq!(&[0x11; 8], &bytes[5..13]);
    assert!(bytes[13..].iter().all(|&b| b == 0xff));
    assert_eq!(13 + 2 * 2048, bytes.len());
    assert_eq!(Some(bytes.len()), s.checked_size());
}

#[test]
fn chunk_packet_1_13_layout() {
    let s = v1_13::ChunkSectionData::from_blocks(4, &[], None);
    let packet = v1_13::ChunkDataPacket::new(-1, 2, 1, vec![s]);
    let bytes = written(&packet);
    assert_eq!(&[0xff, 0xff, 0xff, 0xff, 0, 0, 0, 2, 1, 1], &bytes[..10]);
    // the data length: the section (1 + 1 + 2 * 2048 bytes) and the biomes
    let data = 2 + 2 * 2048 + 1024;
    assert_eq!(&[(data % 128 + 128) as u8, (data / 128) as u8], &bytes[10..12]);
    assert_eq!(12 + data + 1, bytes.len());
    assert_eq!(0, bytes[bytes.len() - 1]);
}

#[test]
fn section_1_14_layout() {
    let s = v1_14::ChunkSectionData { block_count: 300, bits_per_block: 4, palette: None, block_data: vec![1] };
    assert_eq!(&[0x01, 0x2c, 4, 1, 0, 0, 0, 0, 0, 0, 0, 1], written(&s).as_slice());
    let mut buffer = WriteBuf::new();
    v1_14::data_write(&vec![s], &mut buffer).unwrap();
    assert_eq!(12 + 1024, buffer.len());
}

fn join_spec(level_type: &str) -> JoinGameSpec {
    JoinGameSpec::new(7, 1, -1, 2, 20, String::from(level_type), 99, 10, false, true)
}

#[test]
fn join_game_1_14() {
    let packet = v1_14::JoinGamePacket::from(join_spec("flat"));
    let mut buffer = WriteBuf::new();
    packet.write(&mut buffer).unwrap();
    assert_eq!(
        &[0, 0, 0, 7, 1, 0xff, 0xff, 0xff, 0xff, 20, 4, b'f', b'l', b'a', b't', 10, 0],
        buffer.as_slice()
    );
    assert_eq!(buffer.len(), packet.size());
    let long = v1_14::JoinGamePacket::from(join_spec("abcdefghijklmnopq"));
    let mut buffer = WriteBuf::new();
    assert_eq!(Err(WriteError::StringTooLong(16, 17)), long.write(&mut buffer));
}

#[test]
fn join_game_other_versions() {
    let packet = falcon_protocol::send::v1_15::JoinGamePacket::from(join_spec("default"));
    let mut buffer = WriteBuf::new();
    packet.write(&mut buffer).unwrap();
    assert_eq!(buffer.len(), packet.size());
    assert_eq!(&[0, 0, 0, 0, 0, 0, 0, 99], &buffer.as_slice()[9..17]);
    let packet = falcon_protocol::send::v1_9_1::JoinGamePacket::from(join_spec("default"));
    let mut buffer = WriteBuf::new();
    packet.write(&mut buffer).unwrap();
    assert_eq!(&[0, 0, 0, 7, 1, 0xff, 0xff, 0xff, 0xff, 2, 20, 7], &buffer.as_slice()[..12]);
    let packet = v1_8_9::play::JoinGamePacket::from(JoinGameSpec::new(
        7,
        1,
        300,
        2,
        20,
        String::from("default"),
        0,
        0,
        true,
        false,
    ));
    assert_eq!(44, packet.dimension);
    let mut buffer = WriteBuf::new();
    packet.write(&mut buffer).unwrap();
    assert_eq!(&[0, 0, 0, 7, 1, 44, 2, 20, 7], &buffer.as_slice()[..9]);
    assert_eq!(1, buffer.as_slice()[buffer.len() - 1]);
}

#[test]
fn dimension_is_narrowed_to_a_byte() {
    assert_eq!(44, v1_8_9::play::i32_to_i8(300));
    assert_eq!(-1, v1_8_9::play::i32_to_i8(-1));
    assert_eq!(-128, v1_8_9::play::i32_to_i8(128));
}

#[test]
fn small_packets() {
    let difficulty = v1_14::ServerDifficultyPacket::from(ServerDifficultySpec::new(3, true));
    assert_eq!(vec![3, 1], written(&difficulty));
    let old_difficulty = v1_8_9::play::ServerDifficultyPacket::from(ServerDifficultySpec::new(3, true));
    assert_eq!(vec![3], written(&old_difficulty));
    let view = v1_14::UpdateViewPosition::from((300, -1));
    assert_eq!(vec![0xac, 0x02, 0xff, 0xff, 0xff, 0xff, 0x0f], written(&view));
    let unload = UnloadChunkPacket::from((1, -2));
    assert_eq!(vec![0, 0, 0, 1, 0xff, 0xff, 0xff, 0xfe], written(&unload));
    let keep_alive = KeepAlivePacket::from(258i64);
    assert_eq!(vec![0, 0, 0, 0, 0, 0, 1, 2], written(&keep_alive));
    let pong = v1_8_9::status::StatusPongPacket::from(-2i64);
    assert_eq!(vec![0xff, 0xff, 0xff, 0xff, 0xff, 0xff, 0xff, 0xfe], written(&pong));
}

#[test]
fn text_packets() {
    let response = v1_8_9::status::StatusResponsePacket::new(String::from("{}"));
    let mut buffer = WriteBuf::new();
    response.write(&mut buffer).unwrap();
    assert_eq!(&[2, b'{', b'}'], buffer.as_slice());
    assert_eq!(3, response.size());
    let disconnect = v1_8_9::login::DisconnectPacket::new(String::from("\"bye\""));
    let mut buffer = WriteBuf::new();
    disconnect.write(&mut buffer).unwrap();
    assert_eq!(&[5, b'"', b'b', b'y', b'e', b'"'], buffer.as_slice());
    let disconnect = v1_8_9::play::DisconnectPacket::new(String::from("x"));
    let mut buffer = WriteBuf::with_limit(1);
    assert_eq!(Err(WriteError::EndOfBuffer), disconnect.write(&mut buffer));
}

#[test]
fn login_success_packets() {
    let uuid = Uuid::parse_str("8b9fe9c4-d64e-4c2c-aa21-0c0cdb829253").unwrap();
    let packet = v1_8_9::login::LoginSuccess::from(LoginSuccessSpec::new(uuid, String::from("Notch")));
    let mut buffer = WriteBuf::new();
    packet.write(&mut buffer).unwrap();
    let bytes = buffer.into_vec();
    assert_eq!(36, bytes[0]);
    assert_eq!(b"8b9fe9c4-d64e-4c2c-aa21-0c0cdb829253", &bytes[1..37]);
    assert_eq!(&[5, b'N', b'o', b't', b'c', b'h'], &bytes[37..]);
    let packet = v1_16::login::LoginSuccessPacket::from(LoginSuccessSpec::new(uuid, String::from("Jeb")));
    let mut buffer = WriteBuf::new();
    packet.write(&mut buffer).unwrap();
    assert_eq!(&[0x8b, 0x9f], &buffer.as_slice()[..2]);
    assert_eq!(&[3, b'J', b'e', b'b'], &buffer.as_slice()[16..]);
    let long = v1_16::login::LoginSuccessPacket::from(LoginSuccessSpec::new(uuid, "x".repeat(17)));
    let mut buffer = WriteBuf::new();
    assert_eq!(Err(WriteError::StringTooLong(16, 17)), long.write(&mut buffer));
}

#[test]
fn join_game_1_16_defaults() {
    let packet = v1_16::play::JoinGamePacket::new(join_spec("default"), vec![10, 0, 0, 0]);
    assert_eq!(vec![String::from("falcon:world")], packet.worlds);
    assert_eq!("minecraft:overworld", packet.dimension);
    assert_eq!(1, packet.prev_gamemode);
    let mut buffer = WriteBuf::new();
    packet.write(&mut buffer).unwrap();
    let bytes = buffer.into_vec();
    assert_eq!(&[0, 0, 0, 7, 1, 1, 1, 12], &bytes[..8]);
    assert_eq!(b"falcon:world", &bytes[8..20]);
    assert_eq!(&[10, 0, 0, 0, 19], &bytes[20..25]);
    assert_eq!(&[0, 1, 0, 0], &bytes[bytes.len() - 4..]);
    assert_eq!(1, v1_16::play::worlds_value(&v1_16::play::init_worlds()));
    assert_eq!(13, v1_16::play::worlds_size(&v1_16::play::init_worlds()));
    let codec = v1_16::play::init_dimension_codec();
    assert_eq!("minecraft:overworld", codec.dimension[0].dimension.name());
    let mut buffer = WriteBuf::new();
    assert!(v1_16::play::worlds_write(&vec!["w".repeat(32768)], &mut buffer).is_err());
}

#[test]
fn batch_sends_converted_packets_in_order() {
    let mut connection = PacketLog::new();
    send_batch(vec![1u8, 2, 3, 4], |n: u8| if n % 2 == 0 { Some(Bytes::from(vec![n; 2])) } else { None }, &mut connection);
    assert_eq!(vec![vec![2, 2], vec![4, 4]], connection.packets);
    let mut log = PacketLog::new();
    log.send(&Bytes::from(vec![5u8, 6]));
    assert_eq!(vec![vec![5, 6]], log.packets);
}

#[test]
fn chunk_spec_empty() {
    let spec = ChunkDataSpec::empty(3, -4);
    assert_eq!(3, spec.chunk_x);
    assert_eq!(-4, spec.chunk_z);
    assert_eq!(0, spec.bitmask);
    assert!(spec.sections.is_empty());
}

#[test]
fn config_defaults_to_info() {
    let config = FalconConfig::<()>::default();
    assert_eq!(TracingLevel::Info, config.tracing_level);
    assert_eq!("info", config.tracing_level.name());
    assert_eq!("trace", TracingLevel::Trace.name());
}

#[test]
fn nbt_adapters() {
    let mut counter = Counter::new();
    assert_eq!(3, counter.write(&[1, 2, 3]));
    assert_eq!(2, counter.write(&[1, 2]));
    assert_eq!(5, counter.count());
    let mut writer = Writer::new(WriteBuf::with_limit(3));
    assert_eq!(2, writer.write(&[1, 2]));
    assert_eq!(1, writer.write(&[3, 4]));
    assert_eq!(&[1, 2, 3], writer.into_inner().as_slice());
    let mut reader = Reader::new(ReadBuf::from_slice(&[9, 8, 7]));
    let mut dst = [0u8; 2];
    assert_eq!(2, reader.read(&mut dst));
    assert_eq!([9, 8], dst);
    assert_eq!(1, reader.read(&mut dst));
    assert_eq!([7, 8], dst);
    assert_eq!(0, reader.into_inner().remaining());
}

fn small_section() -> v1_14::ChunkSectionData {
    v1_14::ChunkSectionData { block_count: 5, bits_per_block: 4, palette: Some(vec![0, 1]), block_data: vec![7] }
}

const SMALL_SECTION: [u8; 15] = [0, 5, 4, 2, 0, 1, 1, 0, 0, 0, 0, 0, 0, 0, 7];

#[test]
fn chunk_packet_1_14_layout() {
    let packet = v1_14::ChunkDataPacket::new(1, -1, 0, vec![10, 0, 0], vec![]);
    assert_eq!(0, packet.size);
    let bytes = written(&packet);
    assert_eq!(1040, bytes.len());
    assert_eq!(&[0, 0, 0, 1, 255, 255, 255, 255, 1, 0, 10, 0, 0, 0x80, 0x08], &bytes[..15]);
    assert!(bytes[15..1039].iter().all(|&b| b == 0));
    assert_eq!(0, bytes[1039]);
    let packet = v1_14::ChunkDataPacket::new(0, 0, 1, vec![], vec![small_section()]);
    let bytes = written(&packet);
    // the sections and the biomes: 15 + 1024 bytes
    assert_eq!(&[0, 0, 0, 0, 0, 0, 0, 0, 1, 1, 0x8f, 0x08], &bytes[..12]);
    assert_eq!(&SMALL_SECTION, &bytes[12..27]);
}

#[test]
fn chunk_packet_1_15_layout() {
    let packet = v1_15::ChunkDataPacket::new(1, -1, 0, vec![10, 0, 0], vec![small_section()]);
    let bytes = written(&packet);
    assert_eq!(4 + 4 + 1 + 1 + 3 + 4096 + 1 + 15 + 1, bytes.len());
    assert_eq!(&[0, 0, 0, 1, 255, 255, 255, 255, 1, 0, 10, 0, 0], &bytes[..13]);
    assert!(bytes[13..4109].iter().all(|&b| b == 0));
    assert_eq!(15, bytes[4109]);
    assert_eq!(&SMALL_SECTION, &bytes[4110..4125]);
    assert_eq!(0, bytes[4125]);
}

#[test]
fn chunk_packet_1_16_layout() {
    let packet = v1_16::play::ChunkDataPacket::new(1, -1, 3, vec![10, 0, 0], vec![small_section()]);
    let bytes = written(&packet);
    assert_eq!(4 + 4 + 1 + 1 + 1 + 3 + 4096 + 1 + 15 + 1, bytes.len());
    assert_eq!(&[0, 0, 0, 1, 255, 255, 255, 255, 1, 0, 3, 10, 0, 0], &bytes[..14]);
    assert!(bytes[14..4110].iter().all(|&b| b == 0));
    assert_eq!(15, bytes[4110]);
    assert_eq!(&SMALL_SECTION, &bytes[4111..4126]);
    assert_eq!(0, bytes[4126]);
    let mut small = WriteBuf::with_limit(10);
    assert_eq!(Err(WriteError::EndOfBuffer), packet.write(&mut small));
}

#[test]
fn height_map_checked_build() {
    // column x = 0, z = 1 would be inserted at position 16 of an empty list
    assert!(HeightMap::try_from_sections(&[section(0, &[(0, 0, 1)])]).is_none());
    assert!(HeightMap::try_from_sections(&[section(usize::MAX / 16, &[])]).is_none());
    // heights past 2^16 wrap
    let map = HeightMap::try_from_sections(&[section(5000, &[(0, 0, 0)])]).unwrap();
    assert_eq!(vec![((5000 * 16 + 1) % 65536) as u16], map.motion_blocking());
    let map = HeightMap::try_from_sections(&[section(1, &[(0, 2, 0)])]).unwrap();
    assert_eq!(vec![16 + 2 + 1], map.motion_blocking());
    let map = HeightMap::try_from_sections(&[]).unwrap();
    assert_eq!(vec![0u16; 256], map.motion_blocking());
}

#[test]
fn packets_are_written_with_their_version_ids() {
    let ids = v1_8_9::play::ServerDifficultyPacket::packet_ids();
    assert_eq!(Some(0x41), ids.packet_id(47));
    assert_eq!(Some(0x0D), ids.packet_id(340));
    assert_eq!(None, ids.packet_id(735));
    let packet = v1_8_9::play::ServerDifficultyPacket { difficulty: 2 };
    let mut buf = WriteBuf::new();
    assert_eq!(Ok(true), write_packet(&ids, &packet, &mut buf, 47));
    assert_eq!(&[0x41, 2], buf.as_slice());
    let mut buf = WriteBuf::new();
    assert_eq!(Ok(false), write_packet(&ids, &packet, &mut buf, 735));
    assert!(buf.as_slice().is_empty());
    // a packet sent the same in every version
    let pong = v1_8_9::status::StatusPongPacket { payload: 7 };
    let ids = v1_8_9::status::StatusPongPacket::packet_ids();
    let mut buf = WriteBuf::new();
    assert_eq!(Ok(true), write_packet(&ids, &pong, &mut buf, 12345));
    assert_eq!(&[0x01, 0, 0, 0, 0, 0, 0, 0, 7], buf.as_slice());
    // the first mapping that lists the version wins
    let ids = v1_14::UpdateViewPosition::packet_ids();
    assert_eq!(Some(0x41), ids.packet_id(575));
    assert_eq!(Some(0x40), ids.packet_id(736));
    let ids = KeepAlivePacket::packet_ids();
    assert_eq!(Some(0x20), ids.packet_id(498));
    assert_eq!(Some(0x21), ids.packet_id(404));
    // running out of room
    let mut buf = WriteBuf::with_limit(1);
    assert_eq!(Err(WriteError::EndOfBuffer), write_packet(&ids, &KeepAlivePacket { id: 3 }, &mut buf, 340));
}

#[test]
fn chunk_block_ids_follow_the_protocol_version() {
    assert_eq!(v1_13::BlockIdTable::Ids1519, v1_13::block_id_table(393));
    assert_eq!(v1_13::BlockIdTable::Ids1631, v1_13::block_id_table(401));
    assert_eq!(v1_13::BlockIdTable::Ids1631, v1_13::block_id_table(404));
    assert_eq!(v1_13::BlockIdTable::Ids1519, v1_13::block_id_table(-1));
}

#[test]
fn packed_bits_follow_the_elements_across_words() {
    let bits: usize = 5;
    let elements: Vec<u64> = (0..64u64).map(|i| (i * 7 + 3) % 32).collect();
    let words = v1_13::build_compacted_data_array(bits as u8, 5, &elements);
    assert_eq!(elements.len() * bits / 64, words.len());
    for k in 0..64 * words.len() {
        let word_bit = (words[k / 64] >> (k % 64)) & 1;
        let element_bit = (elements[k / bits] >> (k % bits)) & 1;
        assert_eq!(element_bit, word_bit, "bit {}", k);
    }
}

#[test]
fn aligned_bits_never_straddle_words() {
    let bits: usize = 5;
    let per = 64 / bits;
    let elements: Vec<u64> = (0..30u64).map(|i| (i * 11 + 1) % 32).collect();
    let words = v1_16::play::build_compacted_data_array(bits as u8, 3, &elements);
    assert_eq!((elements.len() + per - 1) / per, words.len());
    for (k, word) in words.iter().enumerate() {
        for i in 0..64 {
            let at = k * per + i / bits;
            let expected = if i / bits < per && at < elements.len() { (elements[at] >> (i % bits)) & 1 } else { 0 };
            assert_eq!(expected, (word >> i) & 1, "word {} bit {}", k, i);
        }
    }
}
