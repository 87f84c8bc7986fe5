use relay_core::qemu::{
    check_settings, ppm_region_has_foreground, qemu_arguments, validate_serial_log, watch_marker,
    RunFiles, Watch, KERNEL_ENTRY_MARKER,
};

#[test]
fn serial_logs_must_show_the_kernel_entry() {
    let log = format!("firmware\n{KERNEL_ENTRY_MARKER}\nmore");
    assert_eq!(validate_serial_log(&log), Ok(()));
    assert_eq!(validate_serial_log(KERNEL_ENTRY_MARKER), Ok(()));
    for log in ["", "[relay] phase=kernel-entry status=o"] {
        assert_eq!(
            validate_serial_log(log),
            Err("serial log lacks marker `[relay] phase=kernel-entry status=ok`".to_string())
        );
    }
}

#[test]
fn a_marker_counts_until_the_time_is_up() {
    assert_eq!(watch_marker(false, "a b", "b", true), Watch::Seen);
    assert_eq!(watch_marker(true, "a b", "b", false), Watch::TimedOut);
    assert_eq!(watch_marker(false, "a", "b", true), Watch::Exited);
    assert_eq!(watch_marker(false, "a", "b", false), Watch::Again);
    assert_eq!(watch_marker(false, "a", "", false), Watch::Seen);
}

fn picture(header: &str, pixels: &[[u8; 3]]) -> Vec<u8> {
    let mut bytes = header.as_bytes().to_vec();
    bytes.extend(pixels.iter().flatten());
    bytes
}

#[test]
fn a_pixel_that_differs_is_foreground() {
    let black = [0; 3];
    let mut pixels = [black; 12];
    pixels[5] = [0, 0, 1];
    let ppm = picture("P6\n# a comment\n4 3\n255\n", &pixels);
    assert_eq!(ppm_region_has_foreground(&ppm, 1, 1, 1, 1), Ok(true));
    assert_eq!(ppm_region_has_foreground(&ppm, 0, 0, 4, 3), Ok(true));
    assert_eq!(ppm_region_has_foreground(&ppm, 0, 0, 1, 3), Ok(false));
    assert_eq!(ppm_region_has_foreground(&ppm, 2, 0, 100, 100), Ok(false));
    assert_eq!(
        ppm_region_has_foreground(&picture("P6 +4 3 255 ", &pixels), 1, 1, 1, 1),
        Ok(true)
    );
}

#[test]
fn pictures_that_cannot_be_judged_are_errors() {
    let pixels = [[0; 3]; 12];
    for (header, message) in [
        ("P5 4 3 255 ", "framebuffer screenshot is not a binary PPM"),
        ("P6 4 3", "framebuffer screenshot has an incomplete PPM header"),
        ("P6 4 x3 255 ", "framebuffer screenshot has an invalid PPM dimension"),
        ("P6 4 3 + ", "framebuffer screenshot has an invalid PPM dimension"),
        (
            "P6 99999999999999999999999 3 255 ",
            "framebuffer screenshot has an invalid PPM dimension",
        ),
        ("P6 4 3 65535 ", "framebuffer screenshot does not use 8-bit PPM channels"),
        ("P6 40 30 255 ", "framebuffer screenshot is truncated"),
        (
            "P6 9999999999 9999999999 255 ",
            "framebuffer screenshot dimensions overflow",
        ),
    ] {
        let pixels = if header == "P6 4 3" { &[][..] } else { &pixels };
        assert_eq!(
            ppm_region_has_foreground(&picture(header, pixels), 0, 0, 1, 1),
            Err(message.to_string()),
            "{header}"
        );
    }
    assert_eq!(
        ppm_region_has_foreground(b"P6 \xff 3 255 ", 0, 0, 1, 1),
        Err("framebuffer screenshot has a non-UTF-8 PPM header".to_string())
    );
    assert_eq!(
        ppm_region_has_foreground(b"P6 4 3 255", 0, 0, 1, 1),
        Err("framebuffer screenshot has an invalid PPM header".to_string())
    );
    let ppm = picture("P6 4 3 255 ", &pixels);
    for (x, y, width, height) in [(4, 0, 1, 1), (0, 3, 1, 1), (0, 0, 0, 1), (0, 0, 1, 0)] {
        assert_eq!(
            ppm_region_has_foreground(&ppm, x, y, width, height),
            Err("banner region is outside the framebuffer screenshot".to_string())
        );
    }
    assert_eq!(
        ppm_region_has_foreground(&ppm, 1, 1, usize::MAX, 1),
        Err("banner region overflows".to_string())
    );
}

#[test]
fn the_emulator_is_told_of_devices_and_files() {
    let files = RunFiles {
        code: "code.fd",
        vars: "vars.fd",
        image: "disk.img",
        serial: "serial.log",
        qmp: "qmp.sock",
        debug: "debug.log",
    };
    let plain = qemu_arguments(false, "none", "tcg", &files);
    let expected = "-machine q35 -device qemu-xhci,p2=2,p3=2 -accel tcg -display none -no-reboot \
         -drive if=pflash,format=raw,readonly=on,file=code.fd \
         -drive if=pflash,format=raw,file=vars.fd -drive format=raw,file=disk.img \
         -serial file:serial.log -qmp unix:qmp.sock,server=on,wait=off \
         -d int,cpu_reset -D debug.log";
    assert_eq!(plain.join(" "), expected);
    let with_keyboard = qemu_arguments(true, "none", "tcg", &files);
    assert_eq!(with_keyboard.len(), plain.len() + 2);
    assert_eq!(&with_keyboard[..4], &plain[..4]);
    assert_eq!(&with_keyboard[4..6], ["-device", "usb-kbd"]);
    assert_eq!(&with_keyboard[6..], &plain[4..]);
}

#[test]
fn only_one_way_of_running_is_supported() {
    let refused = Err("QEMU boot requires `--display none --accel tcg`");
    assert_eq!(check_settings("none", "tcg"), Ok(()));
    assert_eq!(check_settings("gtk", "tcg"), refused);
    assert_eq!(check_settings("none", "kvm"), refused);
}
