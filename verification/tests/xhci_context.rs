use relay_core::xhci::context::{
    context_stride, dci, device_context_offset, ep0_max_packet_valid, max_slots_en,
    slot_context_speed_field,
};
use relay_core::xhci::port::decode_speed;
use relay_core::xhci::{UsbSpeed, XhciError};

#[test]
fn context_offset_honors_controller_context_size() {
    assert_eq!(device_context_offset(3, false), 96);
    assert_eq!(device_context_offset(3, true), 192);
    assert_eq!(device_context_offset(0, false), 0);
    assert_eq!(device_context_offset(31, false), 992);
}

#[test]
fn dci_numbers_endpoints_both_directions() {
    assert_eq!(dci(0, false), 1);
    assert_eq!(dci(1, false), 2);
    assert_eq!(dci(1, true), 3);
    assert_eq!(dci(2, false), 4);
    assert_eq!(dci(15, true), 31);
}

#[test]
fn ep0_packet_sizes_are_exact() {
    for valid in [8u16, 16, 32, 64] {
        assert!(ep0_max_packet_valid(valid));
    }
    for invalid in [0u16, 7, 9, 12, 24, 48, 128, 512] {
        assert!(!ep0_max_packet_valid(invalid));
    }
}

#[test]
fn endpoints_have_their_own_contexts() {
    assert_eq!(context_stride(false), 32);
    assert_eq!(context_stride(true), 64);
    let mut seen = vec![dci(0, true)];
    for endpoint in 1..16u8 {
        for dir_in in [false, true] {
            let index = dci(endpoint, dir_in);
            assert!(!seen.contains(&index));
            seen.push(index);
        }
    }
    assert_eq!(seen.len(), 31);
}

#[test]
fn slots_are_capped_and_speeds_are_placed() {
    assert_eq!(max_slots_en(8), 8);
    assert_eq!(max_slots_en(32), 32);
    assert_eq!(max_slots_en(255), 32);
    assert_eq!(slot_context_speed_field(3), 0x0003_0000);
    assert_eq!(slot_context_speed_field(0x14), 0x0004_0000);
}

#[test]
fn a_port_register_tells_the_speed() {
    assert_eq!(decode_speed(3 << 10), Ok(UsbSpeed::High));
    assert_eq!(decode_speed(2 << 10), Ok(UsbSpeed::Low));
    assert_eq!(decode_speed(0), Err(XhciError::UnsupportedPlatform));
}
