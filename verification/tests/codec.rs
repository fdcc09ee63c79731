use gitty::error::GetError;
use gitty::hexcode::HexError;
use gitty::ident::ObjectId;
use gitty::store::delta::{
    apply_delta, parse_delta_payload, read_negative_relative_offset, size_decode,
};
use gitty::store::pack::{
    parse_pack_idx, parse_pack_idx_legacy, parse_pack_idx_modern, parse_pack_idx_v2,
    read_kind_length_obj_header, DeltaKind, ObjectKind, PackedObjectKind,
};
use gitty::text::{bytes_eq, parse_number, push_bytes, push_octal};

fn word(n: u32) -> Vec<u8> {
    vec![(n >> 24) as u8, (n >> 16) as u8, (n >> 8) as u8, n as u8]
}

fn legacy_index(records: &[([u8; 20], u32)]) -> Vec<u8> {
    let mut out = Vec::new();
    for _ in 0..255 {
        out.extend(word(0));
    }
    out.extend(word(records.len() as u32));
    for (id, offset) in records {
        out.extend(word(*offset));
        out.extend(id.iter());
    }
    out
}

fn modern_index(version: u32, ids: &[[u8; 20]], offsets: &[u32], wide: &[u64]) -> Vec<u8> {
    let mut out = vec![0xff, 0x74, 0x4f, 0x63];
    out.extend(word(version));
    for _ in 0..255 {
        out.extend(word(0));
    }
    out.extend(word(ids.len() as u32));
    for id in ids {
        out.extend(id.iter());
    }
    for _ in ids {
        out.extend(word(0xdead_beef));
    }
    for offset in offsets {
        out.extend(word(*offset));
    }
    for value in wide {
        out.extend(word((*value >> 32) as u32));
        out.extend(word(*value as u32));
    }
    out
}

#[test]
fn size_decode_reads_low_bits_first() {
    assert_eq!(size_decode(&[0x91, 0x2e], 0), Some((5905, 2)));
    assert_eq!(size_decode(&[0x05], 0), Some((5, 1)));
    assert_eq!(size_decode(&[0xaa, 0x91, 0x2e, 0x07], 1), Some((5905, 3)));
}

#[test]
fn size_decode_stops_at_the_first_byte_without_top_bit() {
    assert_eq!(size_decode(&[0x00, 0xff], 0), Some((0, 1)));
}

#[test]
fn size_decode_refuses_a_size_cut_short() {
    assert_eq!(size_decode(&[0x80], 0), None);
    assert_eq!(size_decode(&[], 0), None);
    assert_eq!(size_decode(&[0x01], 1), None);
    assert_eq!(size_decode(&[0x01], 7), None);
}

#[test]
fn size_decode_holds_the_largest_64_bit_size() {
    let bytes = [0xff, 0xff, 0xff, 0xff, 0xff, 0xff, 0xff, 0xff, 0xff, 0x01];
    assert_eq!(size_decode(&bytes, 0), Some((u64::MAX, 10)));
}

#[test]
fn size_decode_refuses_more_than_64_bits() {
    let bytes = [0xff, 0xff, 0xff, 0xff, 0xff, 0xff, 0xff, 0xff, 0xff, 0x02];
    assert_eq!(size_decode(&bytes, 0), None);
    let long = [0x80, 0x80, 0x80, 0x80, 0x80, 0x80, 0x80, 0x80, 0x80, 0x80, 0x01];
    assert_eq!(size_decode(&long, 0), None);
}

#[test]
fn size_decode_takes_empty_high_bytes() {
    let long = [0x81, 0x80, 0x80, 0x80, 0x80, 0x80, 0x80, 0x80, 0x80, 0x80, 0x80, 0x00];
    assert_eq!(size_decode(&long, 0), Some((1, 12)));
}

#[test]
fn offset_adds_one_for_each_byte_that_continues() {
    assert_eq!(read_negative_relative_offset(&[0x7f], 0), Some((127, 1)));
    assert_eq!(read_negative_relative_offset(&[0x80, 0x00], 0), Some((128, 2)));
    assert_eq!(read_negative_relative_offset(&[0x81, 0x00], 0), Some((256, 2)));
    assert_eq!(read_negative_relative_offset(&[0x80, 0x80, 0x00], 0), Some((16512, 3)));
    assert_eq!(read_negative_relative_offset(&[0x09, 0x81, 0x05], 1), Some((261, 3)));
}

#[test]
fn offset_refuses_what_is_cut_short_or_too_large() {
    assert_eq!(read_negative_relative_offset(&[0x80], 0), None);
    assert_eq!(read_negative_relative_offset(&[], 0), None);
    let long = [0xff, 0xff, 0xff, 0xff, 0xff, 0xff, 0xff, 0xff, 0xff, 0xff, 0x00];
    assert_eq!(read_negative_relative_offset(&long, 0), None);
}

#[test]
fn entry_header_gives_kind_and_length() {
    assert_eq!(
        read_kind_length_obj_header(&[0x95, 0x0a], 0),
        Ok((PackedObjectKind::Object(ObjectKind::Commit), 165, 2))
    );
    assert_eq!(
        read_kind_length_obj_header(&[0x3a], 0),
        Ok((PackedObjectKind::Object(ObjectKind::Blob), 10, 1))
    );
    assert_eq!(
        read_kind_length_obj_header(&[0x00, 0x20], 1),
        Ok((PackedObjectKind::Object(ObjectKind::Tree), 0, 2))
    );
    assert_eq!(
        read_kind_length_obj_header(&[0x4f], 0),
        Ok((PackedObjectKind::Object(ObjectKind::Tag), 15, 1))
    );
    assert_eq!(
        read_kind_length_obj_header(&[0xe1, 0x81, 0x01], 0),
        Ok((PackedObjectKind::Delta(DeltaKind::Offset), 1 + (1 << 4) + (1 << 11), 3))
    );
    assert_eq!(
        read_kind_length_obj_header(&[0x70], 0),
        Ok((PackedObjectKind::Delta(DeltaKind::Reference), 0, 1))
    );
}

#[test]
fn entry_header_refuses_unknown_kinds_and_short_data() {
    assert_eq!(read_kind_length_obj_header(&[0x0a], 0), Err(GetError::MalformedHeader));
    assert_eq!(read_kind_length_obj_header(&[0x5a], 0), Err(GetError::MalformedHeader));
    assert_eq!(read_kind_length_obj_header(&[0xb5], 0), Err(GetError::MalformedHeader));
    assert_eq!(read_kind_length_obj_header(&[], 0), Err(GetError::MalformedHeader));
    assert_eq!(read_kind_length_obj_header(&[0x3a], 4), Err(GetError::MalformedHeader));
}

#[test]
fn entry_header_refuses_a_length_over_64_bits() {
    let bytes = [0xbf, 0xff, 0xff, 0xff, 0xff, 0xff, 0xff, 0xff, 0xff, 0x7f];
    assert_eq!(read_kind_length_obj_header(&bytes, 0), Err(GetError::MalformedHeader));
    let one_over = [0xb0, 0x80, 0x80, 0x80, 0x80, 0x80, 0x80, 0x80, 0x80, 0x10];
    assert_eq!(read_kind_length_obj_header(&one_over, 0), Err(GetError::MalformedHeader));
    let fits = [0xbf, 0xff, 0xff, 0xff, 0xff, 0xff, 0xff, 0xff, 0xff, 0x0f];
    assert_eq!(
        read_kind_length_obj_header(&fits, 0),
        Ok((PackedObjectKind::Object(ObjectKind::Blob), u64::MAX, 10))
    );
}

#[test]
fn delta_copies_and_inserts() {
    let base = b"0123456789";
    let mut dest = vec![0u8; 8];
    let instructions = [0x90, 5, 3, b'a', b'b', b'c'];
    assert_eq!(apply_delta(base, &mut dest, &instructions), Ok(()));
    assert_eq!(dest, b"01234abc".to_vec());
}

#[test]
fn delta_copy_reads_offset_and_size_low_byte_first() {
    let mut base = vec![0u8; 0x20000];
    for (i, b) in base.iter_mut().enumerate() {
        *b = (i % 251) as u8;
    }
    let mut dest = vec![0u8; 0x102];
    let instructions = [0x80 | 0x01 | 0x02 | 0x04 | 0x10 | 0x20, 0x03, 0x02, 0x01, 0x02, 0x01];
    assert_eq!(apply_delta(&base, &mut dest, &instructions), Ok(()));
    assert_eq!(dest, base[0x010203..0x010203 + 0x102].to_vec());
}

#[test]
fn delta_copy_of_size_zero_copies_0x10000_bytes() {
    let mut base = vec![0u8; 0x10001];
    for (i, b) in base.iter_mut().enumerate() {
        *b = (i % 7) as u8;
    }
    let mut dest = vec![0u8; 0x10000];
    assert_eq!(apply_delta(&base, &mut dest, &[0x81, 0x01]), Ok(()));
    assert_eq!(dest, base[1..].to_vec());
    let mut short = vec![0u8; 0x10000];
    assert_eq!(apply_delta(&base[..0x10000], &mut short, &[0x81, 0x01]), Err(GetError::DeltaMismatch));
}

#[test]
fn delta_refuses_a_zero_instruction() {
    let mut dest = vec![0u8; 0];
    assert_eq!(apply_delta(b"abc", &mut dest, &[0x00]), Err(GetError::DeltaMismatch));
}

#[test]
fn delta_refuses_instructions_cut_short() {
    let mut dest = vec![0u8; 3];
    assert_eq!(apply_delta(b"abc", &mut dest, &[0x03, b'a', b'b']), Err(GetError::DeltaMismatch));
    let mut other = vec![0u8; 3];
    assert_eq!(apply_delta(b"abc", &mut other, &[0x91, 0x00]), Err(GetError::DeltaMismatch));
}

#[test]
fn delta_refuses_a_copy_beyond_the_base() {
    let mut dest = vec![0u8; 4];
    assert_eq!(apply_delta(b"abc", &mut dest, &[0x90, 4]), Err(GetError::DeltaMismatch));
    let mut other = vec![0u8; 2];
    assert_eq!(apply_delta(b"abc", &mut other, &[0x91, 2, 2]), Err(GetError::DeltaMismatch));
}

#[test]
fn delta_must_fill_the_destination_exactly() {
    let mut long = vec![0u8; 4];
    assert_eq!(apply_delta(b"abc", &mut long, &[0x90, 3]), Err(GetError::DeltaMismatch));
    assert_eq!(long.len(), 4);
    let mut short = vec![0u8; 2];
    assert_eq!(apply_delta(b"abc", &mut short, &[0x90, 3]), Err(GetError::DeltaMismatch));
    assert_eq!(short.len(), 2);
    let mut exact = vec![0u8; 3];
    assert_eq!(apply_delta(b"abc", &mut exact, &[0x90, 3]), Ok(()));
    assert_eq!(exact, b"abc".to_vec());
}

#[test]
fn delta_without_instructions_gives_nothing() {
    let mut dest: Vec<u8> = Vec::new();
    assert_eq!(apply_delta(b"abc", &mut dest, &[]), Ok(()));
    let mut one = vec![0u8; 1];
    assert_eq!(apply_delta(b"abc", &mut one, &[]), Err(GetError::DeltaMismatch));
}

#[test]
fn delta_payload_splits_sizes_from_instructions() {
    let item = parse_delta_payload(&[0x91, 0x2e, 0x08, 0x90, 5]).unwrap();
    assert_eq!(item.base_size, 5905);
    assert_eq!(item.result_size, 8);
    assert_eq!(item.instructions, vec![0x90, 5]);
    assert!(parse_delta_payload(&[0x91]).is_none());
    assert!(parse_delta_payload(&[0x11, 0x80]).is_none());
    let bare = parse_delta_payload(&[0x00, 0x00]).unwrap();
    assert_eq!(bare.instructions, Vec::<u8>::new());
}

#[test]
fn number_in_octal_and_decimal() {
    assert_eq!(parse_number(b"100644", 8, u32::MAX as u64), Some(0o100644));
    assert_eq!(parse_number(b"40000", 8, u32::MAX as u64), Some(0o40000));
    assert_eq!(parse_number(b"66", 10, u64::MAX), Some(66));
    assert_eq!(parse_number(b"0", 10, u64::MAX), Some(0));
    assert_eq!(parse_number(b"+17", 10, u64::MAX), Some(17));
    assert_eq!(parse_number(b"007", 8, 7), Some(7));
}

#[test]
fn number_refuses_other_forms() {
    assert_eq!(parse_number(b"", 10, u64::MAX), None);
    assert_eq!(parse_number(b"+", 10, u64::MAX), None);
    assert_eq!(parse_number(b"-1", 10, u64::MAX), None);
    assert_eq!(parse_number(b"8", 8, u64::MAX), None);
    assert_eq!(parse_number(b"12a", 10, u64::MAX), None);
    assert_eq!(parse_number(b" 12", 10, u64::MAX), None);
    assert_eq!(parse_number(b"++1", 10, u64::MAX), None);
}

#[test]
fn number_refuses_what_is_over_the_limit() {
    assert_eq!(parse_number(b"37777777777", 8, u32::MAX as u64), Some(0xffff_ffff));
    assert_eq!(parse_number(b"40000000000", 8, u32::MAX as u64), None);
    assert_eq!(parse_number(b"18446744073709551615", 10, u64::MAX), Some(u64::MAX));
    assert_eq!(parse_number(b"18446744073709551616", 10, u64::MAX), None);
    assert_eq!(parse_number(b"99999999999999999999999", 10, u64::MAX), None);
}

#[test]
fn octal_is_padded_to_six_digits() {
    let mut out = b"m=".to_vec();
    push_octal(&mut out, 0o100644);
    assert_eq!(out, b"m=100644".to_vec());
    let mut out = Vec::new();
    push_octal(&mut out, 0o40000);
    assert_eq!(out, b"040000".to_vec());
    let mut out = Vec::new();
    push_octal(&mut out, 0);
    assert_eq!(out, b"000000".to_vec());
    let mut out = Vec::new();
    push_octal(&mut out, 8);
    assert_eq!(out, b"000010".to_vec());
    let mut out = Vec::new();
    push_octal(&mut out, u32::MAX);
    assert_eq!(out, b"37777777777".to_vec());
}

#[test]
fn bytes_are_compared_and_appended() {
    assert!(bytes_eq(b"tree", b"tree"));
    assert!(!bytes_eq(b"tree", b"tred"));
    assert!(!bytes_eq(b"tree", b"tre"));
    assert!(bytes_eq(b"", b""));
    let mut out = b"ab".to_vec();
    push_bytes(&mut out, b"cd");
    assert_eq!(out, b"abcd".to_vec());
}

#[test]
fn id_from_hex_takes_either_case() {
    let lower = ObjectId::from_hex("e69de29bb2d1d6434b8b29ae775ad8c2e48c5391").unwrap();
    let upper = ObjectId::from_hex("E69DE29BB2D1D6434B8B29AE775AD8C2E48C5391").unwrap();
    assert_eq!(lower, upper);
    assert_eq!(
        lower.0,
        [
            0xe6, 0x9d, 0xe2, 0x9b, 0xb2, 0xd1, 0xd6, 0x43, 0x4b, 0x8b, 0x29, 0xae, 0x77, 0x5a,
            0xd8, 0xc2, 0xe4, 0x8c, 0x53, 0x91
        ]
    );
}

#[test]
fn id_to_hex_is_lower_case() {
    let id = ObjectId([
        0xE6, 0x9D, 0xE2, 0x9B, 0xB2, 0xD1, 0xD6, 0x43, 0x4B, 0x8B, 0x29, 0xAE, 0x77, 0x5A, 0xD8,
        0xC2, 0xE4, 0x8C, 0x53, 0x91,
    ]);
    assert_eq!(id.to_hex(), "e69de29bb2d1d6434b8b29ae775ad8c2e48c5391");
    assert_eq!(ObjectId([0u8; 20]).to_hex(), "0".repeat(40));
    assert_eq!(ObjectId([0x0f; 20]).to_hex(), "0f".repeat(20));
}

#[test]
fn id_from_hex_reports_what_is_wrong() {
    assert_eq!(ObjectId::from_hex("e69de29bb2d1d6434b8b29ae775ad8c2e48c539"), Err(HexError::OddLength));
    assert_eq!(
        ObjectId::from_hex("e69de29bb2d1d6434b8b29ae775ad8c2e48c53"),
        Err(HexError::InvalidStringLength)
    );
    assert_eq!(ObjectId::from_hex("zz"), Err(HexError::InvalidStringLength));
    assert_eq!(ObjectId::from_hex(""), Err(HexError::InvalidStringLength));
    assert_eq!(
        ObjectId::from_hex("e69ge29bb2d1d6434b8b29ae775ad8c2e48c5391"),
        Err(HexError::InvalidHexCharacter { c: 'g', index: 3 })
    );
    assert_eq!(ObjectId::from_hex("g"), Err(HexError::OddLength));
}

#[test]
fn id_is_made_from_its_bytes() {
    let id: ObjectId = [5u8; 20].into();
    assert_eq!(id, ObjectId([5u8; 20]));
    assert_eq!(ObjectId::from([5u8; 20]).0, [5u8; 20]);
}

#[test]
fn id_from_slice_needs_20_bytes() {
    assert_eq!(ObjectId::from_slice(&[7u8; 20]), Some(ObjectId([7u8; 20])));
    assert_eq!(ObjectId::from_slice(&[7u8; 19]), None);
    assert_eq!(ObjectId::from_slice(&[7u8; 21]), None);
    assert_eq!(ObjectId::from_slice(&[]), None);
}

#[test]
fn id_equality_is_by_bytes() {
    let mut other = [7u8; 20];
    assert_eq!(ObjectId([7u8; 20]), ObjectId(other));
    other[19] = 8;
    assert_ne!(ObjectId([7u8; 20]), ObjectId(other));
    assert_eq!(ObjectId([7u8; 20]).as_bytes(), &[7u8; 20]);
}

#[test]
fn id_starts_with_a_prefix() {
    let id = ObjectId::from_hex("abcdef0123456789abcdef0123456789abcdef01").unwrap();
    assert!(id.starts_with(&[0xab, 0xcd]));
    assert!(id.starts_with(&[]));
    assert!(id.starts_with(&id.0));
    assert!(!id.starts_with(&[0xab, 0xce]));
    assert!(!id.starts_with(&[0xab; 21]));
}

#[test]
fn legacy_index_gives_offsets_in_order() {
    let data = legacy_index(&[([1u8; 20], 12), ([2u8; 20], 0x0102_0304)]);
    let idx = parse_pack_idx(&data).unwrap();
    assert_eq!(
        idx.locations,
        vec![(ObjectId([1u8; 20]), 12), (ObjectId([2u8; 20]), 0x0102_0304)]
    );
    assert_eq!(idx.get(&ObjectId([2u8; 20])), Some(0x0102_0304));
    assert_eq!(idx.get(&ObjectId([3u8; 20])), None);
    let same = parse_pack_idx_legacy(&data).unwrap();
    assert_eq!(same.locations, idx.locations);
}

#[test]
fn legacy_index_cut_short_is_malformed() {
    let data = legacy_index(&[([1u8; 20], 12), ([2u8; 20], 99)]);
    assert_eq!(parse_pack_idx(&data[..data.len() - 1]).unwrap_err(), GetError::MalformedHeader);
    assert_eq!(parse_pack_idx(&data[..1000]).unwrap_err(), GetError::MalformedHeader);
    assert_eq!(parse_pack_idx(&[0, 0, 0]).unwrap_err(), GetError::MalformedHeader);
    assert_eq!(parse_pack_idx(&[]).unwrap_err(), GetError::MalformedHeader);
}

#[test]
fn empty_index_has_no_entries() {
    assert_eq!(parse_pack_idx(&legacy_index(&[])).unwrap().locations, vec![]);
    assert_eq!(parse_pack_idx(&modern_index(2, &[], &[], &[])).unwrap().locations, vec![]);
}

#[test]
fn index_that_repeats_an_id_holds_it_once_with_its_last_offset() {
    let data = legacy_index(&[([1u8; 20], 12), ([2u8; 20], 20), ([1u8; 20], 40), ([3u8; 20], 7)]);
    let idx = parse_pack_idx(&data).unwrap();
    assert_eq!(
        idx.locations,
        vec![(ObjectId([1u8; 20]), 40), (ObjectId([2u8; 20]), 20), (ObjectId([3u8; 20]), 7)]
    );
    assert_eq!(idx.get(&ObjectId([1u8; 20])), Some(40));
    let modern = modern_index(
        2,
        &[[5u8; 20], [5u8; 20], [6u8; 20], [5u8; 20]],
        &[1, 0x8000_0000, 3, 4],
        &[99],
    );
    let idx = parse_pack_idx(&modern).unwrap();
    assert_eq!(idx.locations, vec![(ObjectId([5u8; 20]), 4), (ObjectId([6u8; 20]), 3)]);
    let wide_last = modern_index(2, &[[5u8; 20], [5u8; 20]], &[1, 0x8000_0000], &[99]);
    assert_eq!(parse_pack_idx(&wide_last).unwrap().locations, vec![(ObjectId([5u8; 20]), 99)]);
}

#[test]
fn modern_index_gives_offsets_in_order() {
    let data = modern_index(2, &[[1u8; 20], [2u8; 20]], &[12, 0x7fff_ffff], &[]);
    let idx = parse_pack_idx(&data).unwrap();
    assert_eq!(
        idx.locations,
        vec![(ObjectId([1u8; 20]), 12), (ObjectId([2u8; 20]), 0x7fff_ffff)]
    );
    assert_eq!(parse_pack_idx_modern(&data).unwrap().locations, idx.locations);
    assert_eq!(parse_pack_idx_v2(&data).unwrap().locations, idx.locations);
}

#[test]
fn modern_index_reads_wide_offsets_from_the_table() {
    let data = modern_index(
        2,
        &[[1u8; 20], [2u8; 20], [3u8; 20]],
        &[0x8000_0001, 77, 0x8000_0000],
        &[0x0000_0001_0000_0005, 0x0102_0304_0506_0708],
    );
    let idx = parse_pack_idx(&data).unwrap();
    assert_eq!(
        idx.locations,
        vec![
            (ObjectId([1u8; 20]), 0x0102_0304_0506_0708),
            (ObjectId([2u8; 20]), 77),
            (ObjectId([3u8; 20]), 0x0000_0001_0000_0005)
        ]
    );
}

#[test]
fn modern_index_needs_the_wide_entry_it_numbers() {
    let data = modern_index(2, &[[1u8; 20]], &[0x8000_0001], &[5]);
    assert_eq!(parse_pack_idx(&data).unwrap_err(), GetError::MalformedHeader);
    let cut = modern_index(2, &[[1u8; 20]], &[0x8000_0000], &[5]);
    assert_eq!(parse_pack_idx(&cut[..cut.len() - 1]).unwrap_err(), GetError::MalformedHeader);
}

#[test]
fn modern_index_cut_short_is_malformed() {
    let data = modern_index(2, &[[1u8; 20], [2u8; 20]], &[12, 13], &[]);
    assert_eq!(parse_pack_idx(&data[..data.len() - 1]).unwrap_err(), GetError::MalformedHeader);
    assert_eq!(parse_pack_idx(&data[..6]).unwrap_err(), GetError::MalformedHeader);
    assert_eq!(parse_pack_idx(&data[..100]).unwrap_err(), GetError::MalformedHeader);
}

#[test]
fn index_of_another_version_is_unsupported() {
    let data = modern_index(3, &[[1u8; 20]], &[12], &[]);
    assert_eq!(parse_pack_idx(&data).unwrap_err(), GetError::UnsupportedFormat);
    assert_eq!(parse_pack_idx_modern(&data).unwrap_err(), GetError::UnsupportedFormat);
    let one = modern_index(1, &[[1u8; 20]], &[12], &[]);
    assert_eq!(parse_pack_idx(&one).unwrap_err(), GetError::UnsupportedFormat);
}

#[test]
fn sorted_index_is_read_in_order_and_a_late_repeat_is_merged() {
    let mut records = Vec::new();
    for i in 0..3000u32 {
        let mut id = [0u8; 20];
        id[0] = (i >> 8) as u8;
        id[1] = i as u8;
        id[19] = 7;
        records.push((id, i + 12));
    }
    let repeated = records[1234].0;
    records.push((repeated, 5));
    let mut first = [0u8; 20];
    first[19] = 6;
    records.push((first, 9));
    let idx = parse_pack_idx(&legacy_index(&records)).unwrap();
    assert_eq!(idx.locations.len(), 3001);
    assert_eq!(idx.locations[0], (ObjectId(records[0].0), 12));
    assert_eq!(idx.locations[1234], (ObjectId(repeated), 5));
    assert_eq!(idx.locations[2999], (ObjectId(records[2999].0), 3011));
    assert_eq!(idx.locations[3000], (ObjectId(first), 9));
    assert_eq!(idx.get(&ObjectId(repeated)), Some(5));
    assert_eq!(idx.get(&ObjectId(first)), Some(9));
}
