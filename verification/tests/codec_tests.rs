use vxl_codec::data::{BGRAColor, Column, Span, SpanHeader, VXL, VxlError};

fn color(b: u8, g: u8, r: u8, a: u8) -> BGRAColor {
    BGRAColor { b, g, r, a }
}

fn header(length: u8, s: u8, e: u8, a: u8) -> SpanHeader {
    SpanHeader {
        length,
        starting_height_tcr: s,
        ending_height_tcr: e,
        starting_height_air: a,
    }
}

/// The sentinel-only column of plain air: a terminal span whose top
/// colored run has length K = 0, so its record is 4 bytes.
fn air_column() -> Column {
    Column {
        data: vec![Span { header: header(0, 1, 0, 0), colors: vec![] }],
    }
}

fn two_span_column_bytes() -> Vec<u8> {
    let mut bytes: Vec<u8> = vec![3, 10, 11, 8];
    bytes.extend_from_slice(&[1, 2, 3, 4]);
    bytes.extend_from_slice(&[5, 6, 7, 8]);
    bytes.extend_from_slice(&[0, 60, 63, 0]);
    bytes.extend_from_slice(&[9, 10, 11, 12]);
    bytes.extend_from_slice(&[13, 14, 15, 16]);
    bytes.extend_from_slice(&[17, 18, 19, 20]);
    bytes.extend_from_slice(&[21, 22, 23, 24]);
    bytes
}

#[test]
fn two_span_column_decodes() {
    let bytes = two_span_column_bytes();
    assert_eq!(bytes.len(), 32);
    let (col, end) = Column::read_from(&bytes, 0).unwrap();
    assert_eq!(end, 32);
    assert_eq!(col.data.len(), 2);

    let first = &col.data[0];
    assert_eq!(first.header, header(3, 10, 11, 8));
    assert_eq!(first.colors, vec![color(1, 2, 3, 4), color(5, 6, 7, 8)]);
    assert_eq!(first.header.get_k(), 2);
    assert_eq!(first.header.get_z(), 0);

    let last = &col.data[1];
    assert_eq!(last.header, header(0, 60, 63, 0));
    assert_eq!(last.header.get_k(), 4);
    assert_eq!(
        last.colors,
        vec![
            color(9, 10, 11, 12),
            color(13, 14, 15, 16),
            color(17, 18, 19, 20),
            color(21, 22, 23, 24)
        ]
    );
}

#[test]
fn two_span_column_reencodes_to_identical_bytes() {
    let bytes = two_span_column_bytes();
    let (col, _end) = Column::read_from(&bytes, 0).unwrap();
    let mut out: Vec<u8> = Vec::new();
    col.write_to(&mut out);
    assert_eq!(out, bytes);
}

#[test]
fn sentinel_is_unique_and_last() {
    let mut bytes: Vec<u8> = vec![2, 5, 5, 1];
    bytes.extend_from_slice(&[1, 1, 1, 1]);
    bytes.extend_from_slice(&[3, 20, 21, 10]);
    bytes.extend_from_slice(&[2, 2, 2, 2]);
    bytes.extend_from_slice(&[3, 3, 3, 3]);
    bytes.extend_from_slice(&[0, 40, 40, 0]);
    bytes.extend_from_slice(&[4, 4, 4, 4]);
    let (col, end) = Column::read_from(&bytes, 0).unwrap();
    assert_eq!(end, bytes.len());
    assert_eq!(col.data.len(), 3);
    let terminal_count = col.data.iter().filter(|s| s.header.length == 0).count();
    assert_eq!(terminal_count, 1);
    assert_eq!(col.data.last().unwrap().header.length, 0);
}

#[test]
fn color_count_follows_the_header() {
    let mut bytes: Vec<u8> = vec![4, 9, 10, 3];
    bytes.extend_from_slice(&[1, 1, 1, 1]);
    bytes.extend_from_slice(&[2, 2, 2, 2]);
    bytes.extend_from_slice(&[3, 3, 3, 3]);
    bytes.extend_from_slice(&[0, 7, 8, 0]);
    bytes.extend_from_slice(&[4, 4, 4, 4]);
    bytes.extend_from_slice(&[5, 5, 5, 5]);
    let (col, _end) = Column::read_from(&bytes, 0).unwrap();
    let first = &col.data[0];
    assert_eq!(first.colors.len(), (first.header.length - 1) as usize);
    let last = &col.data[1];
    assert_eq!(last.colors.len(), last.header.get_k() as usize);
}

#[test]
fn span_constructor_rejects_wrong_color_count() {
    let h = header(3, 10, 11, 8);
    assert!(Span::new(h, vec![color(1, 1, 1, 1)]).is_none());
    let s = Span::new(h, vec![color(1, 1, 1, 1), color(2, 2, 2, 2)]).unwrap();
    assert_eq!(s.colors.len(), 2);

    let t = header(0, 60, 63, 0);
    assert!(Span::new(t, vec![]).is_none());
    let four = vec![color(1, 1, 1, 1); 4];
    assert!(Span::new(t, four).is_some());
}

#[test]
fn truncated_header_fails() {
    let bytes: Vec<u8> = vec![3, 10];
    assert_eq!(
        Column::read_from(&bytes, 0).unwrap_err(),
        VxlError::UnexpectedEndOfInput
    );
    assert_eq!(
        Span::read_from(&bytes, 0).unwrap_err(),
        VxlError::UnexpectedEndOfInput
    );
}

#[test]
fn truncated_color_run_fails() {
    let mut bytes: Vec<u8> = vec![3, 10, 11, 8];
    bytes.extend_from_slice(&[1, 2, 3, 4]);
    bytes.extend_from_slice(&[5, 6]);
    assert_eq!(
        Span::read_from(&bytes, 0).unwrap_err(),
        VxlError::UnexpectedEndOfInput
    );
    assert_eq!(
        Column::read_from(&bytes, 0).unwrap_err(),
        VxlError::UnexpectedEndOfInput
    );
}

#[test]
fn missing_sentinel_reads_as_exhaustion() {
    let mut bytes: Vec<u8> = vec![2, 5, 5, 1];
    bytes.extend_from_slice(&[1, 1, 1, 1]);
    assert_eq!(
        Column::read_from(&bytes, 0).unwrap_err(),
        VxlError::UnexpectedEndOfInput
    );
}

#[test]
fn volume_decode_has_fixed_shape() {
    let column_bytes: [u8; 4] = [0, 1, 0, 8];
    let mut bytes: Vec<u8> = Vec::with_capacity(512 * 512 * 4);
    for _ in 0..512 * 512 {
        bytes.extend_from_slice(&column_bytes);
    }
    let (vxl, end) = VXL::read_from(&bytes, 0).unwrap();
    assert_eq!(end, bytes.len());
    assert_eq!(vxl.cols.len(), 512);
    for row in &vxl.cols {
        assert_eq!(row.len(), 512);
        for col in row {
            assert_eq!(col.data.len(), 1);
            assert_eq!(col.data[0].header, header(0, 1, 0, 8));
            assert!(col.data[0].colors.is_empty());
        }
    }
}

#[test]
fn volume_byte_identity() {
    let mut bytes: Vec<u8> = Vec::with_capacity(512 * 512 * 4 + 32);
    for i in 0..512 * 512 - 1 {
        let s: u8 = (i % 251) as u8;
        bytes.extend_from_slice(&[0, s.wrapping_add(1), s, s]);
    }
    bytes.extend_from_slice(&two_span_column_bytes());
    let (vxl, end) = VXL::read_from(&bytes, 0).unwrap();
    assert_eq!(end, bytes.len());
    let mut out: Vec<u8> = Vec::new();
    vxl.write_to(&mut out);
    assert_eq!(out, bytes);
}

#[test]
fn volume_round_trip_is_structural_identity() {
    let mut cols: Vec<Vec<Column>> = Vec::with_capacity(512);
    for i in 0..512u32 {
        let mut row: Vec<Column> = Vec::with_capacity(512);
        for j in 0..512u32 {
            if i == 3 && j == 7 {
                let (col, _end) = Column::read_from(&two_span_column_bytes(), 0).unwrap();
                row.push(col);
            } else {
                row.push(air_column());
            }
        }
        cols.push(row);
    }
    let vxl = VXL { cols };
    let mut encoded: Vec<u8> = Vec::new();
    vxl.write_to(&mut encoded);
    let (decoded, end) = VXL::read_from(&encoded, 0).unwrap();
    assert_eq!(end, encoded.len());
    assert_eq!(decoded.cols.len(), 512);
    for i in 0..512usize {
        for j in 0..512usize {
            let a = &vxl.cols[i][j];
            let b = &decoded.cols[i][j];
            assert_eq!(a.data.len(), b.data.len());
            for k in 0..a.data.len() {
                assert_eq!(a.data[k].header, b.data[k].header);
                assert_eq!(a.data[k].colors, b.data[k].colors);
            }
        }
    }
}

#[test]
fn truncated_volume_fails() {
    let column_bytes: [u8; 4] = [0, 1, 0, 8];
    let mut bytes: Vec<u8> = Vec::new();
    for _ in 0..1000 {
        bytes.extend_from_slice(&column_bytes);
    }
    assert_eq!(
        VXL::read_from(&bytes, 0).unwrap_err(),
        VxlError::UnexpectedEndOfInput
    );
}
