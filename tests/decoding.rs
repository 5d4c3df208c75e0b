use jpeg_header::{
    read_bytes, read_u16_be, read_u8, ByteReader, Decoder, EncodingProcess, Error, FrameHeader,
    HuffmanTable, HuffmanTree, Marker,
};

fn empty_table() -> HuffmanTable {
    Default::default()
}

fn codes(tree: &HuffmanTree) -> Vec<(String, u8)> {
    tree.print_codes()
        .into_iter()
        .map(|(bits, v)| (bits.iter().map(|b| if *b { '1' } else { '0' }).collect(), v))
        .collect()
}

fn soi() -> Vec<u8> {
    vec![0xff, 0xd8]
}

fn eoi() -> Vec<u8> {
    vec![0xff, 0xd9]
}

fn dqt_ones() -> Vec<u8> {
    let mut v = vec![0xff, 0xdb, 0x00, 0x43, 0x00];
    v.extend(std::iter::repeat(1u8).take(64));
    v
}

fn sof0(components: u8) -> Vec<u8> {
    let mut v = vec![0xff, 0xc0, 0x00, 0x11, 0x08, 0x00, 0x01, 0x00, 0x01, components];
    v.extend([0x01, 0x11, 0x00, 0x02, 0x11, 0x00, 0x03, 0x11, 0x00]);
    v
}

fn dht_single() -> Vec<u8> {
    let mut v = vec![0xff, 0xc4, 0x00, 0x14, 0x00, 0x01];
    v.extend([0u8; 15]);
    v.push(0x00);
    v
}

fn sos3() -> Vec<u8> {
    vec![0xff, 0xda, 0x00, 0x0c, 0x03, 0x01, 0x00, 0x02, 0x00, 0x03, 0x00, 0x00, 0x3f, 0x00]
}

fn stream(parts: &[Vec<u8>]) -> Vec<u8> {
    parts.iter().flatten().copied().collect()
}

#[test]
fn single_length_table_assigns_codes_left_to_right() {
    let mut t = empty_table();
    t[1] = vec![b'A', b'B', b'C', b'D'];
    assert!(HuffmanTree::fits_table(&t));
    let tree = HuffmanTree::new(&t);
    assert_eq!(
        codes(&tree),
        vec![
            ("00".to_string(), b'A'),
            ("01".to_string(), b'B'),
            ("10".to_string(), b'C'),
            ("11".to_string(), b'D'),
        ]
    );
}

#[test]
fn skewed_table_opens_right_slot() {
    let mut t = empty_table();
    t[0] = vec![b'A'];
    t[1] = vec![b'B'];
    let tree = HuffmanTree::new(&t);
    assert_eq!(codes(&tree), vec![("0".to_string(), b'A'), ("10".to_string(), b'B')]);
}

#[test]
fn mixed_lengths_reproduce_table() {
    let mut t = empty_table();
    t[1] = vec![1, 2];
    t[2] = vec![3, 4, 5];
    t[15] = vec![6];
    let tree = HuffmanTree::new(&t);
    let c = codes(&tree);
    assert_eq!(
        c[..5].to_vec(),
        vec![
            ("00".to_string(), 1),
            ("01".to_string(), 2),
            ("100".to_string(), 3),
            ("101".to_string(), 4),
            ("110".to_string(), 5),
        ]
    );
    assert_eq!(c.len(), 6);
    assert_eq!(c[5], ("1110000000000000".to_string(), 6));
    for (i, (a, _)) in c.iter().enumerate() {
        for (j, (b, _)) in c.iter().enumerate() {
            if i != j {
                assert!(!b.starts_with(a.as_str()));
            }
        }
    }
}

#[test]
fn empty_table_has_no_leaves() {
    let t = empty_table();
    assert!(HuffmanTree::fits_table(&t));
    let tree = HuffmanTree::new(&t);
    assert!(tree.print_codes().is_empty());
    assert!(tree.node_count() > 1);
}

#[test]
fn overfull_table_does_not_fit() {
    let mut t = empty_table();
    t[0] = vec![1, 2, 3];
    assert!(!HuffmanTree::fits_table(&t));
    let mut u = empty_table();
    u[0] = vec![1];
    u[1] = vec![2, 3, 4];
    assert!(!HuffmanTree::fits_table(&u));
    let mut full = empty_table();
    full[0] = vec![1, 2];
    assert!(HuffmanTree::fits_table(&full));
}

#[test]
fn fill_bytes_before_marker_are_absorbed() {
    let mut r = ByteReader::new(vec![0xff, 0xff, 0xff, 0xd8]);
    assert!(matches!(Marker::from_reader(&mut r), Ok(Marker::StartOfImage)));
    assert_eq!(r.position(), 4);
    assert!(matches!(Marker::from_reader(&mut r), Err(Error::Io)));
}

#[test]
fn stray_bytes_and_stuffed_zero_are_skipped() {
    let mut r = ByteReader::new(vec![0x12, 0xff, 0x00, 0x34, 0xff, 0xe3, 0x00, 0x10]);
    assert!(matches!(Marker::from_reader(&mut r), Ok(Marker::ApplicationSegment(3, 16))));
    assert_eq!(r.position(), 8);
}

#[test]
fn marker_lengths_are_read() {
    let mut r = ByteReader::new(vec![0xff, 0xc0, 0x00, 0x11, 0xff, 0xfe, 0x01, 0x02, 0xff, 0xd9]);
    assert_eq!(Marker::from_reader(&mut r).unwrap(), Marker::StartOfFrame(0, 0x11));
    assert_eq!(Marker::from_reader(&mut r).unwrap(), Marker::Comment(0x0102));
    assert_eq!(Marker::from_reader(&mut r).unwrap(), Marker::EndOfImage);
}

#[test]
fn unknown_marker_is_unsupported() {
    let mut r = ByteReader::new(vec![0xff, 0xc1, 0x00, 0x0b]);
    assert!(matches!(Marker::from_reader(&mut r), Err(Error::Unsupported(_))));
}

#[test]
fn truncated_marker_length_is_io() {
    let mut r = ByteReader::new(vec![0xff, 0xdb, 0x00]);
    assert!(matches!(Marker::from_reader(&mut r), Err(Error::Io)));
}

#[test]
fn big_endian_readers() {
    let mut r = ByteReader::new(vec![0x12, 0x34, 0x56]);
    assert_eq!(read_u16_be(&mut r).unwrap(), 0x1234);
    assert_eq!(read_u8(&mut r).unwrap(), 0x56);
    assert!(matches!(read_u8(&mut r), Err(Error::Io)));
    let mut s = ByteReader::new(vec![0xab]);
    assert!(matches!(read_u16_be(&mut s), Err(Error::Io)));
    assert_eq!(s.position(), 0);
    let mut t = ByteReader::new(vec![1, 2, 3]);
    assert_eq!(read_bytes(&mut t, 2).unwrap(), vec![1, 2]);
    assert!(t.skip(2).is_err());
    assert!(t.skip(1).is_ok());
}

#[test]
fn quantization_segment_consumes_declared_length() {
    let mut bytes = vec![0x00];
    bytes.extend((0..64).map(|i| i as u8));
    bytes.push(0xaa);
    let mut d = Decoder::new(bytes);
    let tables = d.parse_quantization_table(67).unwrap();
    assert_eq!(tables.len(), 1);
    assert_eq!(tables[0].0, 0);
    assert_eq!(tables[0].1, (0..64).map(|i| i as u8).collect::<Vec<u8>>());
    assert_eq!(d.position(), 65);
}

#[test]
fn quantization_segment_with_two_tables() {
    let mut bytes = vec![0x01];
    bytes.extend([7u8; 64]);
    bytes.push(0x03);
    bytes.extend([9u8; 64]);
    let mut d = Decoder::new(bytes);
    let tables = d.parse_quantization_table(132).unwrap();
    assert_eq!(tables.len(), 2);
    assert_eq!((tables[0].0, tables[1].0), (1, 3));
    assert_eq!(tables[1].1, vec![9u8; 64]);
    assert_eq!(d.position(), 130);
}

#[test]
fn sixteen_bit_quantization_is_unsupported() {
    let mut bytes = vec![0x10];
    bytes.extend([0u8; 128]);
    let mut d = Decoder::new(bytes);
    assert!(matches!(d.parse_quantization_table(131), Err(Error::Unsupported(_))));
}

#[test]
fn huffman_segment_partitions_symbols() {
    let mut bytes = vec![0x13, 0x00, 0x02, 0x01];
    bytes.extend([0u8; 13]);
    bytes.extend([5, 6, 7]);
    let mut d = Decoder::new(bytes);
    let tables = d.parse_huffman_table(22).unwrap();
    assert_eq!(tables.len(), 1);
    assert_eq!(tables[0].0, 1);
    assert_eq!(tables[0].1, 3);
    assert!(tables[0].2[0].is_empty());
    assert_eq!(tables[0].2[1], vec![5, 6]);
    assert_eq!(tables[0].2[2], vec![7]);
    assert_eq!(d.position(), 20);
}

#[test]
fn end_to_end_minimal_stream() {
    let data = stream(&[soi(), dqt_ones(), sof0(3), dht_single(), sos3(), eoi()]);
    let mut d = Decoder::new(data);
    let image = d.parse().unwrap();
    let fh: FrameHeader = image.frame_header.unwrap();
    assert_eq!(fh.components_count, 3);
    assert_eq!(fh.precision, 8);
    assert_eq!(fh.max_lines, 1);
    assert_eq!(fh.max_samples_per_line, 1);
    assert_eq!(fh.encoding_process, EncodingProcess::BaselineDct);
    for c in fh.component_headers[..3].iter() {
        let c = c.unwrap();
        assert_eq!(c.horizontal_sampling_factor, 1);
        assert_eq!(c.vertical_sampling_factor, 1);
        assert_eq!(c.quantization_table_selector, 0);
    }
    assert!(fh.component_headers[3].is_none());
    assert_eq!(image.quantization_tables[0].as_ref().unwrap(), &vec![1u8; 64]);
    let tree = image.dc_huffman_tables[0].as_ref().unwrap();
    assert_eq!(codes(tree), vec![("0".to_string(), 0)]);
    assert!(image.ac_huffman_tables[0].is_none());
    assert_eq!(image.scans.len(), 1);
    let sh = image.scans[0].scan_header;
    assert_eq!(sh.components_count, 3);
    assert_eq!(sh.component_headers[2].unwrap().scan_component_selector, 3);
    assert_eq!(sh.component_headers[2].unwrap().dc_entropy_coding_table_selector, 0);
    let mut d2 = Decoder::new(stream(&[soi(), dqt_ones(), sof0(3), dht_single(), sos3(), eoi()]));
    assert_eq!(d2.decode().unwrap(), Vec::<u8>::new());
}

#[test]
fn frame_with_two_components_fails() {
    let data = stream(&[soi(), sof0(2), eoi()]);
    let mut d = Decoder::new(data);
    assert!(matches!(d.parse(), Err(Error::Parse(_))));
}

#[test]
fn frame_with_other_precision_fails() {
    let mut f = sof0(3);
    f[4] = 12;
    let mut d = Decoder::new(stream(&[soi(), f, eoi()]));
    assert!(matches!(d.parse(), Err(Error::Parse(_))));
}

#[test]
fn unknown_marker_in_stream_fails_decode() {
    let data = stream(&[soi(), vec![0xff, 0xc1, 0x00, 0x02], eoi()]);
    let mut d = Decoder::new(data);
    assert!(matches!(d.parse(), Err(Error::Parse(_))));
}

#[test]
fn scan_before_frame_fails() {
    let data = stream(&[soi(), sos3(), eoi()]);
    let mut d = Decoder::new(data);
    assert!(matches!(d.parse(), Err(Error::Parse(_))));
}

#[test]
fn scan_component_count_out_of_range_fails() {
    let mut s = sos3();
    s[4] = 4;
    let mut d = Decoder::new(stream(&[soi(), sof0(3), s, eoi()]));
    assert!(matches!(d.parse(), Err(Error::Parse(_))));
}

#[test]
fn destination_out_of_range_fails() {
    let mut q = dqt_ones();
    q[4] = 0x04;
    let mut d = Decoder::new(stream(&[soi(), q, eoi()]));
    assert!(matches!(d.parse(), Err(Error::Parse(_))));
}

#[test]
fn overfull_huffman_segment_fails() {
    let mut h = vec![0xff, 0xc4, 0x00, 0x16, 0x10, 0x03];
    h.extend([0u8; 15]);
    h.extend([1, 2, 3]);
    let mut d = Decoder::new(stream(&[soi(), h, eoi()]));
    assert!(matches!(d.parse(), Err(Error::Parse(_))));
}

#[test]
fn application_and_comment_segments_are_skipped() {
    let app = vec![0xff, 0xe0, 0x00, 0x04, 0xaa, 0xbb];
    let com = vec![0xff, 0xfe, 0x00, 0x05, b'h', b'i', b'!'];
    let mut d = Decoder::new(stream(&[soi(), app, com, dqt_ones(), eoi()]));
    let image = d.parse().unwrap();
    assert!(image.frame_header.is_none());
    assert!(image.quantization_tables[0].is_some());
}

#[test]
fn truncated_stream_fails() {
    let mut data = stream(&[soi(), dqt_ones()]);
    data.truncate(30);
    let mut d = Decoder::new(data);
    assert!(d.parse().is_err());
}

#[test]
fn decode_stops_after_end_of_image() {
    let mut d = Decoder::new(vec![0xff, 0xd8, 0xff, 0xd9, 0x12, 0x34]);
    assert_eq!(d.decode().unwrap(), Vec::<u8>::new());
    assert_eq!(d.position(), 4);
}

#[test]
fn stream_cut_inside_segment_is_io() {
    let mut data = vec![0xff, 0xd8, 0xff, 0xdb, 0x00, 0x43, 0x00];
    data.extend([1u8; 10]);
    let mut d = Decoder::new(data);
    assert!(matches!(d.decode(), Err(Error::Io)));
}

#[test]
fn unknown_marker_in_decode_is_parse() {
    let mut d = Decoder::new(vec![0xff, 0xd8, 0xff, 0xc1, 0x00, 0x0b, 0xff, 0xd9]);
    assert!(matches!(d.decode(), Err(Error::Parse(_))));
}

#[test]
fn frame_record_cut_short_is_io() {
    let mut d = Decoder::new(vec![0x08, 0x00, 0x01, 0x00, 0x01, 0x03, 0x01]);
    assert!(matches!(d.parse_frame_header(0, 17), Err(Error::Io)));
}

#[test]
fn huffman_segment_missing_symbol_is_io() {
    let mut bytes = vec![0x00, 0x01];
    bytes.extend([0u8; 15]);
    let mut d = Decoder::new(bytes);
    assert!(matches!(d.parse_huffman_table(20), Err(Error::Io)));
}

#[test]
fn short_comment_is_io() {
    let mut d = Decoder::new(vec![0xff, 0xd8, 0xff, 0xfe, 0x00, 0x10, b'a']);
    assert!(matches!(d.parse(), Err(Error::Io)));
}

#[test]
fn printed_codes_follow_code_order() {
    let mut t = empty_table();
    t[0] = vec![1];
    t[1] = vec![2];
    let tree = HuffmanTree::new(&t);
    assert_eq!(codes(&tree), vec![("0".to_string(), 1), ("10".to_string(), 2)]);
}

#[test]
fn all_empty_table_fills_seventeen_levels() {
    let t = empty_table();
    let tree = HuffmanTree::new(&t);
    assert_eq!(tree.node_count(), (1usize << 18) - 1);
}
