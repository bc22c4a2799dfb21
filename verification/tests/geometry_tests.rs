use vxl_codec::data::{Column, Run, Span, SpanHeader};

fn header(length: u8, s: u8, e: u8, a: u8) -> SpanHeader {
    SpanHeader {
        length,
        starting_height_tcr: s,
        ending_height_tcr: e,
        starting_height_air: a,
    }
}

fn two_span_column() -> Column {
    Column {
        data: vec![
            Span {
                header: header(3, 10, 11, 8),
                colors: vec![],
            },
            Span {
                header: header(0, 60, 63, 0),
                colors: vec![],
            },
        ],
    }
}

#[test]
fn header_derived_quantities() {
    let h = header(3, 10, 11, 8);
    assert_eq!(h.get_k(), 2);
    assert_eq!(h.get_z(), 0);
    assert_eq!(h.length_tcr(), 2);
    assert_eq!(h.length_bcr(), 0);
    assert_eq!(h.starting_height_solid(), 12);
    assert_eq!(h.ending_height_air(), 9);
    assert_eq!(h.length_air(), 2);
}

#[test]
fn header_arithmetic_wraps_at_256() {
    let h = header(1, 0, 255, 5);
    assert_eq!(h.get_k(), 0);
    assert_eq!(h.get_z(), 0);
    assert_eq!(h.ending_height_air(), 255);
    assert_eq!(h.length_air(), 251);
    assert_eq!(h.starting_height_solid(), 0);

    let g = header(2, 200, 100, 0);
    assert_eq!(g.get_k(), 157);
    assert_eq!(g.get_z(), 100);
}

#[test]
fn run_size_by_role() {
    let t = header(0, 60, 63, 0);
    assert_eq!(Run::LastSpan { header: t }.size(), 5);
    let n = header(3, 10, 11, 8);
    assert_eq!(Run::Span { header: n }.size(), 3);
    let wrap = header(0, 1, 0, 0);
    assert_eq!(Run::LastSpan { header: wrap }.size(), 1);
}

#[test]
fn m_is_the_next_air_start_or_the_grid_top() {
    let col = two_span_column();
    assert_eq!(col.get_m(0), Some(0));
    assert_eq!(col.get_m(1), Some(64));
    assert_eq!(col.get_m(2), None);
}

#[test]
fn cross_span_quantities_with_wraparound() {
    let col = two_span_column();
    assert_eq!(col.starting_height_bcr(0), Some(0));
    assert_eq!(col.ending_height_bcr(0), Some(1));
    assert_eq!(col.ending_height_solid(0), Some(255));
    assert_eq!(col.length_solid(0), Some(244));
    assert_eq!(col.data[1].header.get_z(), 251);
    assert_eq!(col.starting_height_bcr(1), Some(69));
    assert_eq!(col.ending_height_bcr(1), Some(65));
    assert_eq!(col.ending_height_solid(1), Some(68));
    assert_eq!(col.length_solid(1), Some(5));
    assert_eq!(col.starting_height_bcr(2), None);
    assert_eq!(col.length_solid(2), None);
    assert_eq!(col.ending_height_bcr(2), None);
    assert_eq!(col.ending_height_solid(2), None);
}
