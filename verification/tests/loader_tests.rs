use pomelo::formats::ExHeader;
use pomelo::loader::{config_page, segment_layout, Segment, SegmentLayout};

#[test]
fn config_page_holds_the_system_values() {
    let p = config_page();
    assert_eq!(p.len(), 0x1000);
    assert_eq!(p[0x2], 0x34);
    assert_eq!(p[0x3], 0x2);
    assert_eq!(&p[0x8..0x10], &[0x02, 0x80, 0x00, 0x00, 0x30, 0x01, 0x04, 0x00]);
    assert_eq!(p[0x10], 0x2);
    assert_eq!(p[0x14], 0x1);
    assert_eq!(p[0x16], 0x1);
    assert_eq!(&p[0x18..0x1C], &[0x97, 0xF2, 0x00, 0x00]);
    assert_eq!(&p[0x40..0x44], &[0x00, 0x00, 0x00, 0x04]);
    assert_eq!(p[0x62], 0x34);
    assert_eq!(p[0x63], 0x2);
    assert_eq!(p[0x64], 0x2);
    assert_eq!(&p[0x68..0x6C], &[0x97, 0xF2, 0x00, 0x00]);
    assert_eq!(p.iter().filter(|b| **b != 0).count(), 18);
}

#[test]
fn segments_follow_each_other_in_the_code_image() {
    let mut h = ExHeader::zero();
    h.sci.text_csi.size_in_pages = 2;
    h.sci.rodata_csi.size_in_pages = 1;
    h.sci.data_csi.size_in_pages = 1;
    let expected = SegmentLayout {
        text: Segment { start: 0, end: 0x2000 },
        rodata: Segment { start: 0x2000, end: 0x3000 },
        data: Segment { start: 0x3000, end: 0x4000 },
    };
    assert_eq!(segment_layout(&h.sci, 0x4000), Some(expected));
    assert_eq!(segment_layout(&h.sci, 0x5000), Some(expected));
    assert_eq!(segment_layout(&h.sci, 0x3FFF), None);
}
