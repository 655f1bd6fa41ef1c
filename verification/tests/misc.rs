use htmos::cfg_tbl::Guid;
use htmos::cfg_tbl::guid_utf8_upper;
use htmos::cfg_tbl::u8_hex_str_value_upper;
use htmos::draw::Arc;
use htmos::draw::Point;
use htmos::draw::Rect;
use htmos::draw::draw_rect;
use htmos::draw::draw_rounded_rect;
use htmos::drivers::HbaMem;
use htmos::drivers::HbaPort;
use htmos::drivers::PortType;
use htmos::drivers::SIG_SATA;
use htmos::drivers::SIG_SATAPI;
use htmos::drivers::SIG_SEMB;
use htmos::drivers::scan_ports;
use htmos::html::HtmlTree;

#[test]
fn hex_digits_are_exact() {
    assert_eq!(u8_hex_str_value_upper(0xAB), (b'A', b'B'));
    assert_eq!(u8_hex_str_value_upper(0x09), (b'0', b'9'));
    assert_eq!(u8_hex_str_value_upper(0x00), (b'0', b'0'));
    assert_eq!(u8_hex_str_value_upper(0xFF), (b'F', b'F'));
    assert_eq!(u8_hex_str_value_upper(0x5C), (b'5', b'C'));
}

#[test]
fn guid_renders_canonically() {
    // the firmware's LZMA custom-decompress table GUID
    let guid = Guid {
        time_low: 0xEE4E5898,
        time_mid: 0x3914,
        time_hi_and_version: 0x4259,
        clk_seq_hi_res: 0x9D,
        clk_seq_low: 0x6E,
        node: [0xDC, 0x7B, 0xD7, 0x94, 0x03, 0xCF],
    };
    let text = guid_utf8_upper(guid);
    assert_eq!(text.as_slice(), b"EE4E5898-3914-4259-9D6E-DC7BD79403CF");
}

#[test]
fn point_moves_are_exact() {
    let p = Point { x: 10, y: 20 };
    assert_eq!(p.left(3), Point { x: 7, y: 20 });
    assert_eq!(p.right(3), Point { x: 13, y: 20 });
    assert_eq!(p.up(5), Point { x: 10, y: 15 });
    assert_eq!(p.down(5), Point { x: 10, y: 25 });
}

#[test]
fn rect_from_corners_in_either_order() {
    let a = Rect::from_ltrb(10, 20, 110, 220);
    assert_eq!((a.x, a.y, a.w, a.h), (10, 20, 100, 200));
    let b = Rect::from_ltrb(110, 220, 10, 20);
    assert_eq!((b.x, b.y, b.w, b.h), (10, 20, 100, 200));
}

#[test]
fn rect_corners_and_ltrb_round_trip() {
    let rect = Rect { x: 5, y: 6, w: 30, h: 40 };
    assert_eq!(rect.ltrb(), (5, 6, 35, 46));
    assert_eq!(rect.tl(), Point { x: 5, y: 6 });
    assert_eq!(rect.tr(), Point { x: 35, y: 6 });
    assert_eq!(rect.bl(), Point { x: 5, y: 46 });
    assert_eq!(rect.br(), Point { x: 35, y: 46 });
    let again = Rect::from_ltrb(5, 6, 35, 46);
    assert_eq!((again.x, again.y, again.w, again.h), (5, 6, 30, 40));
}

#[test]
fn rect_outline_walks_the_four_edges() {
    let rect = Rect { x: 100, y: 700, w: 100, h: 100 };
    let segments = draw_rect(rect);
    assert_eq!(
        segments,
        vec![
            (Point { x: 100, y: 700 }, Point { x: 100, y: 800 }),
            (Point { x: 100, y: 800 }, Point { x: 200, y: 800 }),
            (Point { x: 200, y: 800 }, Point { x: 200, y: 700 }),
            (Point { x: 200, y: 700 }, Point { x: 100, y: 700 }),
        ]
    );
}

#[test]
fn rounded_rect_outline_insets_edges_by_the_radius() {
    let rect = Rect { x: 100, y: 700, w: 100, h: 100 };
    let (arcs, segments) = draw_rounded_rect(rect, 5);
    assert_eq!(
        arcs,
        vec![
            Arc { cx: 105, cy: 705, radius: 5, start_deg: 90, end_deg: 180 },
            Arc { cx: 105, cy: 795, radius: 5, start_deg: 180, end_deg: 270 },
            Arc { cx: 195, cy: 795, radius: 5, start_deg: 270, end_deg: 360 },
            Arc { cx: 195, cy: 705, radius: 5, start_deg: 0, end_deg: 90 },
        ]
    );
    assert_eq!(
        segments,
        vec![
            (Point { x: 100, y: 705 }, Point { x: 100, y: 795 }),
            (Point { x: 105, y: 800 }, Point { x: 195, y: 800 }),
            (Point { x: 200, y: 795 }, Point { x: 200, y: 705 }),
            (Point { x: 195, y: 700 }, Point { x: 105, y: 700 }),
        ]
    );
}

#[test]
fn scan_ports_reports_exactly_the_implemented_ports() {
    let mut ports = [HbaPort::new(0); 32];
    ports[0] = HbaPort::new(SIG_SATA);
    ports[2] = HbaPort::new(SIG_SATAPI);
    ports[5] = HbaPort::new(SIG_SEMB);
    ports[7] = HbaPort::new(0xDEADBEEF);
    // bits 0, 2, 5 and 7 implemented
    let hba = HbaMem::new(0b1010_0101, ports);
    let found = scan_ports(&hba);
    assert_eq!(
        found,
        vec![
            (0, PortType::SATA),
            (2, PortType::SATAPI),
            (5, PortType::SEMB),
            (7, PortType::Unknown),
        ]
    );
}

#[test]
fn scan_ports_of_empty_mask_finds_nothing() {
    let hba = HbaMem::new(0, [HbaPort::new(SIG_SATA); 32]);
    assert!(scan_ports(&hba).is_empty());
}

#[test]
fn html_tree_carries_its_name() {
    let leaf = HtmlTree::Tag("body".to_string(), vec![("id".to_string(), "main".to_string())]);
    assert_eq!(leaf.name(), "body");
    let root = HtmlTree::PTag("html".to_string(), vec![], Box::new(leaf));
    assert_eq!(root.name(), "html");
}
