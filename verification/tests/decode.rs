use timepix3::timepix::parse_tpx_data;
use timepix3::timepix::DecodeError;

// Packet builders: 8-byte little-endian words as the detector writes them.

fn header_packet() -> u64 {
    // ASCII "TPX3" in the low four bytes, arbitrary high bytes.
    u64::from_le_bytes([0x54, 0x50, 0x58, 0x33, 0xAA, 0xBB, 0xCC, 0xDD])
}

fn tdc_packet(coarse: u64, v: u64) -> u64 {
    (0x6u64 << 60) | (coarse << 12) | (v << 5)
}

fn pixel_packet() -> u64 {
    // x-field 4, y-field 8, pix 5, toa-field 5, inverted nibble 0xF,
    // tot-field 7, spidr 1.
    (0xbu64 << 60)
        | (4u64 << 52)
        | (8u64 << 45)
        | (5u64 << 44)
        | (5u64 << 30)
        | (7u64 << 20)
        | (0xFu64 << 16)
        | 1u64
}

fn buffer(packets: &[u64]) -> Vec<u8> {
    let mut raw = Vec::new();
    for p in packets {
        raw.extend_from_slice(&p.to_le_bytes());
    }
    raw
}

#[test]
fn misaligned_buffer_is_rejected() {
    let raw = vec![0u8; 7];
    assert_eq!(parse_tpx_data(&raw), Err(DecodeError::MisalignedLength));
    let raw = vec![0u8; 12];
    assert_eq!(parse_tpx_data(&raw), Err(DecodeError::MisalignedLength));
}

#[test]
fn empty_buffer_decodes_to_no_shots() {
    let raw: Vec<u8> = Vec::new();
    let shots = parse_tpx_data(&raw).unwrap();
    assert_eq!(shots.len(), 0);
}

#[test]
fn pixel_fields_are_extracted_exactly() {
    // TDC: coarse 100, counter 2 => fine = ((2-1) << 9) / 12 & 0x1FF = 42,
    // so tdc = 100 * 4096 + 42 = 409642 fine units.
    // Pixel: spidr 1, toa-field 5 with inverted nibble 0xF =>
    // coarse_toa = (5 << 4) | 0 = 80, global = 1 * 2^26 + 80 * 256 = 67129344;
    // tof = 67129344 - 409642 = 66719702; x = 4 + 5/4 = 5; y = 8 + (5 & 3) = 9;
    // tot = 7 * 25 = 175.
    let raw = buffer(&[tdc_packet(100, 2), pixel_packet()]);
    let shots = parse_tpx_data(&raw).unwrap();
    assert_eq!(shots.len(), 1);
    assert_eq!(shots[0].len(), 1);
    let e = shots[0][0];
    assert_eq!(e.shot_count, 0);
    assert_eq!(e.tdc, 409642);
    assert_eq!(e.global_time, 67129344);
    assert_eq!(e.tof, 66719702);
    assert_eq!(e.x, 5);
    assert_eq!(e.y, 9);
    assert_eq!(e.tot_ns, 175);
}

#[test]
fn event_count_equals_pixel_packet_count() {
    let raw = buffer(&[
        header_packet(),
        tdc_packet(100, 2),
        pixel_packet(),
        pixel_packet(),
        header_packet(),
        pixel_packet(),
    ]);
    let shots = parse_tpx_data(&raw).unwrap();
    let total: usize = shots.iter().map(|s| s.len()).sum();
    assert_eq!(total, 3);
}

#[test]
fn header_packet_changes_nothing() {
    let with_headers = buffer(&[
        header_packet(),
        tdc_packet(100, 2),
        pixel_packet(),
        header_packet(),
        pixel_packet(),
    ]);
    let without_headers = buffer(&[tdc_packet(100, 2), pixel_packet(), pixel_packet()]);
    assert_eq!(
        parse_tpx_data(&with_headers).unwrap(),
        parse_tpx_data(&without_headers).unwrap()
    );
}

#[test]
fn each_tdc_with_pixels_opens_one_shot() {
    // Two TDC triggers, each followed by pixel events: two shots.
    let raw = buffer(&[
        tdc_packet(100, 2),
        pixel_packet(),
        pixel_packet(),
        tdc_packet(200, 2),
        pixel_packet(),
    ]);
    let shots = parse_tpx_data(&raw).unwrap();
    assert_eq!(shots.len(), 2);
    assert_eq!(shots[0].len(), 2);
    assert_eq!(shots[1].len(), 1);
    assert_eq!(shots[0][0].shot_count, 0);
    assert_eq!(shots[0][1].shot_count, 0);
    assert_eq!(shots[1][0].shot_count, 1);
}

#[test]
fn tdc_without_pixels_opens_no_shot() {
    // Two consecutive TDC triggers: only the second one gets pixel events.
    let raw = buffer(&[tdc_packet(100, 2), tdc_packet(200, 2), pixel_packet()]);
    let shots = parse_tpx_data(&raw).unwrap();
    assert_eq!(shots.len(), 1);
    // the running TDC time is the second trigger's: 200 * 4096 + 42
    assert_eq!(shots[0][0].tdc, 200 * 4096 + 42);
}

#[test]
fn pixels_before_any_tdc_form_an_implicit_first_shot() {
    let raw = buffer(&[pixel_packet(), pixel_packet()]);
    let shots = parse_tpx_data(&raw).unwrap();
    assert_eq!(shots.len(), 1);
    assert_eq!(shots[0].len(), 2);
    assert_eq!(shots[0][0].tdc, 0);
    assert_eq!(shots[0][0].shot_count, 0);
}

#[test]
fn unrecognized_packets_are_ignored() {
    let unknown = 0x7u64 << 60;
    let raw = buffer(&[tdc_packet(100, 2), unknown, pixel_packet(), unknown]);
    let shots = parse_tpx_data(&raw).unwrap();
    assert_eq!(shots.len(), 1);
    assert_eq!(shots[0].len(), 1);
}

#[test]
fn tof_within_one_period_below_zero_is_advanced_by_zero_periods() {
    // TDC with counter 1 has fine time ((1-1) << 9) / 12 = 0, so with
    // coarse 2^30 the TDC time is exactly one clock period, 2^42 fine units.
    // The pixel's raw tof is 20480 - 2^42, less than one period below zero,
    // so the correction adds floor(|tof| / period) = 0 periods.
    let coarse = 1u64 << 30;
    let pixel = (0xbu64 << 60) | (5u64 << 30) | (0xFu64 << 16);
    let raw = buffer(&[tdc_packet(coarse, 1), pixel]);
    let shots = parse_tpx_data(&raw).unwrap();
    let e = shots[0][0];
    assert_eq!(e.global_time, 20480);
    assert_eq!(e.tdc, 1u64 << 42);
    assert_eq!(e.tof, 20480i64 - (1i64 << 42));
}

#[test]
fn tof_more_than_one_period_below_zero_is_advanced_once() {
    // With coarse 2^31 the TDC time is two clock periods; the raw tof
    // 20480 - 2^43 is between one and two periods below zero, so exactly
    // one period is added.
    let coarse = 1u64 << 31;
    let pixel = (0xbu64 << 60) | (5u64 << 30) | (0xFu64 << 16);
    let raw = buffer(&[tdc_packet(coarse, 1), pixel]);
    let shots = parse_tpx_data(&raw).unwrap();
    let e = shots[0][0];
    assert_eq!(e.tof, 20480i64 - (1i64 << 43) + (1i64 << 42));
}

#[test]
fn tdc_fine_counter_zero_wraps_around() {
    // Counter 0 wraps around to the all-ones value, so the shifted fine
    // timestamp is 0xFFFF_FFFF_FFFF_FE00; the fine-time field is that
    // value divided by 12 and masked to 9 bits, exactly as the hardware
    // formula gives it.
    let fine = (0xFFFF_FFFF_FFFF_FE00u64 / 12) & 0x1FF;
    let raw = buffer(&[tdc_packet(100, 0), pixel_packet()]);
    let shots = parse_tpx_data(&raw).unwrap();
    assert_eq!(shots[0][0].tdc, 100 * 4096 + fine);
}
