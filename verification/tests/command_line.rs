use relay_core::command_line::{
    next_marker, parse_arguments, run_seconds, Invocation, Usage, CONTROL_PROBE_MARKER,
};
use relay_core::qemu::{KERNEL_ENTRY_MARKER, XHCI_PROBE_MARKER};

fn words(line: &str) -> Vec<String> {
    line.split_whitespace().map(String::from).collect()
}

fn refused(line: &str) -> Usage {
    parse_arguments(&words(line)).unwrap_err()
}

#[test]
fn commands_take_their_arguments() {
    assert_eq!(parse_arguments(&[]), Ok(Invocation::Doctor));
    assert_eq!(parse_arguments(&words("doctor")), Ok(Invocation::Doctor));
    assert_eq!(
        parse_arguments(&words("image --output disk.img")),
        Ok(Invocation::Image { output: "disk.img" })
    );
    assert_eq!(
        parse_arguments(&words("verify-image disk.img")),
        Ok(Invocation::VerifyImage { image: "disk.img" })
    );
    for (action, xhci) in [("boot", false), ("xhci", true)] {
        assert_eq!(
            parse_arguments(&words(&format!(
                "qemu {action} disk.img --display none --accel tcg"
            ))),
            Ok(Invocation::Qemu {
                xhci,
                image: "disk.img",
                display: "none",
                accel: "tcg"
            })
        );
    }
}

#[test]
fn refused_command_lines_say_what_is_missing() {
    assert_eq!(refused("doctor now"), Usage::UnknownCommand);
    assert_eq!(refused("run"), Usage::UnknownCommand);
    assert_eq!(refused("image"), Usage::ImageOutput);
    assert_eq!(refused("image --output"), Usage::ImageOutput);
    assert_eq!(refused("image -o x"), Usage::ImageExactly);
    assert_eq!(refused("image --output x y"), Usage::ImageExactly);
    assert_eq!(refused("verify-image"), Usage::VerifyImage);
    assert_eq!(refused("verify-image x y"), Usage::VerifyImageExactly);
    assert_eq!(refused("qemu"), Usage::QemuAction);
    assert_eq!(refused("qemu boot"), Usage::QemuImage);
    assert_eq!(refused("qemu boot x --display none"), Usage::QemuOptions);
    assert_eq!(
        refused("qemu stop x --display none --accel tcg"),
        Usage::QemuExactly
    );
    assert_eq!(
        refused("qemu boot x --accel none --display tcg"),
        Usage::QemuExactly
    );
    assert_eq!(
        refused("qemu boot x --display none --accel tcg y"),
        Usage::QemuExactly
    );
    assert_eq!(
        Usage::QemuImage.message(),
        "qemu boot requires IMAGE"
    );
    assert_eq!(
        Usage::UnknownCommand.message(),
        "available commands are `doctor`, `image`, and `verify-image`"
    );
}

#[test]
fn markers_come_in_order() {
    assert_eq!(run_seconds(false), 20);
    assert_eq!(run_seconds(true), 30);
    assert_eq!(next_marker(false, 0), Some(KERNEL_ENTRY_MARKER));
    assert_eq!(next_marker(false, 1), None);
    assert_eq!(next_marker(true, 0), Some(XHCI_PROBE_MARKER));
    assert_eq!(next_marker(true, 1), Some(CONTROL_PROBE_MARKER));
    assert_eq!(next_marker(true, 2), None);
}
