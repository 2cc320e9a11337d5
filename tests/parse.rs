use lspci_json::code::PciCode;
use lspci_json::parser::parse;
use lspci_json::parser::parse_reporting;
use lspci_json::record::Pci;

fn code(c: &Option<PciCode>) -> Option<(String, String, u32, u32)> {
    c.as_ref().map(|c| (c.hex[0].clone(), c.hex[1].clone(), c.int[0], c.int[1]))
}

fn code_of(hi: &str, lo: &str, a: u32, b: u32) -> Option<(String, String, u32, u32)> {
    Some((hi.to_string(), lo.to_string(), a, b))
}

fn text(s: &Option<String>) -> Option<&str> {
    s.as_deref()
}

fn all_absent(p: &Pci) -> bool {
    p.slot.is_none()
        && p.device.is_none()
        && p.device_code.is_none()
        && p.sub_device.is_none()
        && p.sub_device_code.is_none()
        && p.class.is_none()
        && p.class_code.is_none()
        && p.vendor.is_none()
        && p.vendor_code.is_none()
        && p.sub_vendor.is_none()
        && p.sub_vendor_code.is_none()
        && p.revision.is_none()
        && p.programming_interface.is_none()
}

#[test]
fn empty_input_gives_no_records() {
    assert!(parse("").is_empty());
}

#[test]
fn blank_input_gives_no_records() {
    assert!(parse("  \n\n \t\n").is_empty());
}

#[test]
fn new_record_is_empty() {
    assert!(all_absent(&Pci::new()));
    assert!(all_absent(&Pci::default()));
}

#[test]
fn block_without_known_keys_gives_one_empty_record() {
    let r = parse("PhySlot: 1\nIOMMUGroup: 7\nno colon here");
    assert_eq!(r.len(), 1);
    assert!(all_absent(&r[0]));
}

#[test]
fn sample_block() {
    let input = "Slot:\t00:02.0\nClass:\tVGA compatible controller [0300]\nVendor:\tIntel Corporation [8086]\nDevice:\tUHD Graphics [9bc4]\nRev:\t02\n";
    let r = parse(input);
    assert_eq!(r.len(), 1);
    let p = &r[0];
    assert_eq!(text(&p.slot), Some("00:02.0"));
    assert_eq!(text(&p.class), Some("VGA compatible controller"));
    assert_eq!(code(&p.class_code), code_of("03", "00", 3, 0));
    assert_eq!(text(&p.vendor), Some("Intel Corporation"));
    assert_eq!(code(&p.vendor_code), code_of("80", "86", 128, 134));
    assert_eq!(text(&p.device), Some("UHD Graphics"));
    assert_eq!(code(&p.device_code), code_of("9b", "c4", 155, 196));
    assert_eq!(p.revision, Some(2));
    assert!(p.sub_vendor.is_none() && p.sub_device.is_none());
    assert!(p.programming_interface.is_none());
}

#[test]
fn sample_block_with_spaces() {
    let input = "Slot:  00:02.0\nClass: VGA compatible controller [0300]\nVendor:        Intel Corporation [8086]\nDevice:        UHD Graphics [9bc4]\nRev:   02";
    let r = parse(input);
    assert_eq!(r.len(), 1);
    assert_eq!(text(&r[0].slot), Some("00:02.0"));
    assert_eq!(text(&r[0].vendor), Some("Intel Corporation"));
    assert_eq!(r[0].revision, Some(2));
}

#[test]
fn two_blocks_in_order() {
    let input = "Slot:\t00:00.0\nVendor:\tIntel Corporation [8086]\n\nSlot:\t01:00.0\nSVendor:\tLenovo [17aa]\nSDevice:\tDevice [2292]\nProgIf:\t02";
    let r = parse(input);
    assert_eq!(r.len(), 2);
    assert_eq!(text(&r[0].slot), Some("00:00.0"));
    assert_eq!(code(&r[0].vendor_code), code_of("80", "86", 128, 134));
    assert!(r[0].sub_vendor.is_none() && r[0].programming_interface.is_none());
    assert_eq!(text(&r[1].slot), Some("01:00.0"));
    assert!(r[1].vendor.is_none() && r[1].vendor_code.is_none());
    assert_eq!(text(&r[1].sub_vendor), Some("Lenovo"));
    assert_eq!(code(&r[1].sub_vendor_code), code_of("17", "aa", 23, 170));
    assert_eq!(text(&r[1].sub_device), Some("Device"));
    assert_eq!(code(&r[1].sub_device_code), code_of("22", "92", 34, 146));
    assert_eq!(text(&r[1].programming_interface), Some("02"));
}

#[test]
fn two_blank_lines_make_an_empty_block() {
    let r = parse("\n\nSlot: a\n\n\n\nSlot: b\n\n");
    assert_eq!(r.len(), 3);
    assert_eq!(text(&r[0].slot), Some("a"));
    assert!(all_absent(&r[1]));
    assert_eq!(text(&r[2].slot), Some("b"));
}

#[test]
fn odd_blank_lines_leave_a_leading_newline() {
    let r = parse("Slot: a\n\n\nSlot: b");
    assert_eq!(r.len(), 2);
    assert_eq!(text(&r[1].slot), Some("b"));
}

#[test]
fn unclosed_bracket_with_bad_code() {
    let r = parse("Class: Bridge [06x");
    assert_eq!(text(&r[0].class), Some("Bridge"));
    assert!(r[0].class_code.is_none());
}

#[test]
fn unclosed_bracket_with_good_code() {
    let r = parse("Vendor: Red Hat, Inc. [1af4");
    assert_eq!(text(&r[0].vendor), Some("Red Hat, Inc."));
    assert_eq!(code(&r[0].vendor_code), code_of("1a", "f4", 26, 244));
}

#[test]
fn split_is_at_last_bracket() {
    let r = parse("Device: Foo [rev a] bar [10de]");
    assert_eq!(text(&r[0].device), Some("Foo [rev a] bar"));
    assert_eq!(code(&r[0].device_code), code_of("10", "de", 16, 222));
}

#[test]
fn trailing_brackets_are_all_stripped() {
    let r = parse("Class: Host bridge [0600]]");
    assert_eq!(text(&r[0].class), Some("Host bridge"));
    assert_eq!(code(&r[0].class_code), code_of("06", "00", 6, 0));
}

#[test]
fn value_without_code() {
    let r = parse("Device: Plain name\nClass: Bracket[0300]");
    assert_eq!(text(&r[0].device), Some("Plain name"));
    assert!(r[0].device_code.is_none());
    assert_eq!(text(&r[0].class), Some("Bracket[0300]"));
    assert!(r[0].class_code.is_none());
}

#[test]
fn bad_code_keeps_earlier_code() {
    let r = parse("Class: A [0300]\nClass: B [zz]");
    assert_eq!(text(&r[0].class), Some("B"));
    assert_eq!(code(&r[0].class_code), code_of("03", "00", 3, 0));
}

#[test]
fn later_line_wins() {
    let r = parse("Slot: one\nSlot: two\nRev: 5\nRev: x");
    assert_eq!(text(&r[0].slot), Some("two"));
    assert_eq!(r[0].revision, None);
}

#[test]
fn revision_forms() {
    assert_eq!(parse("Rev: 0a")[0].revision, None);
    assert_eq!(parse("Rev: +7")[0].revision, Some(7));
    assert_eq!(parse("Rev: +")[0].revision, None);
    assert_eq!(parse("Rev:")[0].revision, None);
    assert_eq!(parse("Rev: 18446744073709551615")[0].revision, Some(u64::MAX));
    assert_eq!(parse("Rev: 18446744073709551616")[0].revision, None);
    assert_eq!(parse("Rev: 1 [02]")[0].revision, Some(1));
}

#[test]
fn keys_are_exact() {
    let r = parse("Vendorx: q\n Slot: a\nslot: b\nSlot : c");
    assert_eq!(r.len(), 1);
    assert!(all_absent(&r[0]));
}

#[test]
fn unknown_keys_are_reported() {
    let mut unknown = vec!["earlier".to_string()];
    let r = parse_reporting("Slot: 1\nPhySlot: 2\n\nNUMANode: 0\nnothing\nDevice: x", &mut unknown);
    assert_eq!(r.len(), 2);
    assert_eq!(unknown, vec!["earlier", "PhySlot", "NUMANode"]);
}

#[test]
fn colon_in_value_is_kept() {
    let r = parse("Slot: 0000:00:1f.3");
    assert_eq!(text(&r[0].slot), Some("0000:00:1f.3"));
}

#[test]
fn unicode_whitespace_is_trimmed() {
    let r = parse("\u{3000}Slot:\u{a0}x\u{2003}\n");
    assert_eq!(r.len(), 1);
    assert_eq!(text(&r[0].slot), Some("x"));
    let r = parse("Slot: a\n\u{3000}Class: b");
    assert_eq!(text(&r[0].slot), Some("a"));
    assert!(r[0].class.is_none());
}
