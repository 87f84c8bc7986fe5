//! The command line of the tool that builds and runs disk images.
use vstd::prelude::*;

use crate::bytes::same_bytes;
use crate::qemu::{KERNEL_ENTRY_MARKER, XHCI_PROBE_MARKER};
use crate::shell::commands::is_word;
use crate::text::text_bytes;

verus! {

/// What the tool is to do.
#[derive(Clone, Copy, Debug, PartialEq, Eq)]
#[allow(inconsistent_fields)]
pub enum Invocation<'a> {
    /// See that all that is needed is there.
    Doctor,
    /// Build a disk image.
    Image { output: &'a str },
    /// See that a disk image is sound.
    VerifyImage { image: &'a str },
    /// Run a disk image.
    Qemu { xhci: bool, image: &'a str, display: &'a str, accel: &'a str },
}

/// What the tool is to do, with the arguments as text.
#[allow(inconsistent_fields)]
pub enum InvocationView {
    Doctor,
    Image { output: Seq<char> },
    VerifyImage { image: Seq<char> },
    Qemu { xhci: bool, image: Seq<char>, display: Seq<char>, accel: Seq<char> },
}

impl<'a> View for Invocation<'a> {
    type V = InvocationView;

    open spec fn view(&self) -> InvocationView {
        match *self {
            Invocation::Doctor => InvocationView::Doctor,
            Invocation::Image { output } => InvocationView::Image { output: output@ },
            Invocation::VerifyImage { image } => InvocationView::VerifyImage { image: image@ },
            Invocation::Qemu { xhci, image, display, accel } => InvocationView::Qemu {
                xhci,
                image: image@,
                display: display@,
                accel: accel@,
            },
        }
    }
}

/// Why a command line is refused.
#[derive(Clone, Copy, Debug, PartialEq, Eq, Structural)]
pub enum Usage {
    UnknownCommand,
    ImageOutput,
    ImageExactly,
    VerifyImage,
    VerifyImageExactly,
    QemuAction,
    QemuImage,
    QemuOptions,
    QemuExactly,
}

/// What is said of a command line that is refused. An unknown command is named before it.
pub open spec fn usage_text(usage: Usage) -> &'static str {
    match usage {
        Usage::UnknownCommand => "available commands are `doctor`, `image`, and `verify-image`",
        Usage::ImageOutput => "image requires `--output PATH`",
        Usage::ImageExactly => "image requires exactly `--output PATH`",
        Usage::VerifyImage => "verify-image requires IMAGE",
        Usage::VerifyImageExactly => "verify-image requires exactly one IMAGE",
        Usage::QemuAction => "qemu requires `boot|xhci IMAGE --display none --accel tcg`",
        Usage::QemuImage => "qemu boot requires IMAGE",
        Usage::QemuOptions => "qemu boot requires `--display none --accel tcg`",
        Usage::QemuExactly => "qemu requires exactly `boot|xhci IMAGE --display none --accel tcg`",
    }
}

impl Usage {
    /// What is said of a command line that is refused.
    pub fn message(self) -> (text: &'static str)
        ensures
            text@ == usage_text(self)@,
    {
        match self {
            Usage::UnknownCommand => "available commands are `doctor`, `image`, and `verify-image`",
            Usage::ImageOutput => "image requires `--output PATH`",
            Usage::ImageExactly => "image requires exactly `--output PATH`",
            Usage::VerifyImage => "verify-image requires IMAGE",
            Usage::VerifyImageExactly => "verify-image requires exactly one IMAGE",
            Usage::QemuAction => "qemu requires `boot|xhci IMAGE --display none --accel tcg`",
            Usage::QemuImage => "qemu boot requires IMAGE",
            Usage::QemuOptions => "qemu boot requires `--display none --accel tcg`",
            Usage::QemuExactly =>
                "qemu requires exactly `boot|xhci IMAGE --display none --accel tcg`",
        }
    }
}

/// An argument is a word.
pub open spec fn reads(args: Seq<String>, i: int, word: &'static str) -> bool {
    is_word(text_bytes(args[i]), word)
}

/// The arguments of the command that builds an image.
pub open spec fn image_of(args: Seq<String>) -> Result<InvocationView, Usage> {
    if args.len() < 3 {
        Err(Usage::ImageOutput)
    } else if !reads(args, 1, "--output") || args.len() > 3 {
        Err(Usage::ImageExactly)
    } else {
        Ok(InvocationView::Image { output: args[2]@ })
    }
}

/// The arguments of the command that looks at an image.
pub open spec fn verify_image_of(args: Seq<String>) -> Result<InvocationView, Usage> {
    if args.len() < 2 {
        Err(Usage::VerifyImage)
    } else if args.len() > 2 {
        Err(Usage::VerifyImageExactly)
    } else {
        Ok(InvocationView::VerifyImage { image: args[1]@ })
    }
}

/// The arguments of the command that runs an image.
pub open spec fn qemu_of(args: Seq<String>) -> Result<InvocationView, Usage> {
    if args.len() < 2 {
        Err(Usage::QemuAction)
    } else if args.len() < 3 {
        Err(Usage::QemuImage)
    } else if args.len() < 7 {
        Err(Usage::QemuOptions)
    } else if !reads(args, 1, "boot") && !reads(args, 1, "xhci") || !reads(args, 3, "--display")
        || !reads(args, 5, "--accel") || args.len() > 7 {
        Err(Usage::QemuExactly)
    } else {
        Ok(
            InvocationView::Qemu {
                xhci: reads(args, 1, "xhci"),
                image: args[2]@,
                display: args[4]@,
                accel: args[6]@,
            },
        )
    }
}

/// What a command line asks for. Without a command the tool sees to what it needs.
pub open spec fn invocation_of(args: Seq<String>) -> Result<InvocationView, Usage> {
    if args.len() == 0 {
        Ok(InvocationView::Doctor)
    } else if reads(args, 0, "doctor") && args.len() == 1 {
        Ok(InvocationView::Doctor)
    } else if reads(args, 0, "image") {
        image_of(args)
    } else if reads(args, 0, "verify-image") {
        verify_image_of(args)
    } else if reads(args, 0, "qemu") {
        qemu_of(args)
    } else {
        Err(Usage::UnknownCommand)
    }
}

fn is_argument(argument: &String, word: &'static str) -> (r: bool)
    ensures
        r == is_word(text_bytes(*argument), word),
{
    same_bytes(argument.as_str().as_bytes(), word.as_bytes())
}

/// The result as text.
pub open spec fn invocation_view(r: Result<Invocation<'_>, Usage>) -> Result<InvocationView, Usage> {
    match r {
        Ok(invocation) => Ok(invocation@),
        Err(usage) => Err(usage),
    }
}

fn image<'a>(args: &'a [String]) -> (r: Result<Invocation<'a>, Usage>)
    ensures
        invocation_view(r) == image_of(args@),
{
    if args.len() < 3 {
        return Err(Usage::ImageOutput);
    }
    if !is_argument(&args[1], "--output") || args.len() > 3 {
        return Err(Usage::ImageExactly);
    }
    Ok(Invocation::Image { output: args[2].as_str() })
}

fn verify_image<'a>(args: &'a [String]) -> (r: Result<Invocation<'a>, Usage>)
    ensures
        invocation_view(r) == verify_image_of(args@),
{
    if args.len() < 2 {
        return Err(Usage::VerifyImage);
    }
    if args.len() > 2 {
        return Err(Usage::VerifyImageExactly);
    }
    Ok(Invocation::VerifyImage { image: args[1].as_str() })
}

fn qemu<'a>(args: &'a [String]) -> (r: Result<Invocation<'a>, Usage>)
    ensures
        invocation_view(r) == qemu_of(args@),
{
    if args.len() < 2 {
        return Err(Usage::QemuAction);
    }
    if args.len() < 3 {
        return Err(Usage::QemuImage);
    }
    if args.len() < 7 {
        return Err(Usage::QemuOptions);
    }
    let xhci = is_argument(&args[1], "xhci");
    if !is_argument(&args[1], "boot") && !xhci || !is_argument(&args[3], "--display")
        || !is_argument(&args[5], "--accel") || args.len() > 7 {
        return Err(Usage::QemuExactly);
    }
    Ok(
        Invocation::Qemu {
            xhci,
            image: args[2].as_str(),
            display: args[4].as_str(),
            accel: args[6].as_str(),
        },
    )
}

/// What a command line asks for.
pub fn parse_arguments<'a>(args: &'a [String]) -> (r: Result<Invocation<'a>, Usage>)
    ensures
        invocation_view(r) == invocation_of(args@),
{
    if args.len() == 0 {
        return Ok(Invocation::Doctor);
    }
    if is_argument(&args[0], "doctor") && args.len() == 1 {
        return Ok(Invocation::Doctor);
    }
    if is_argument(&args[0], "image") {
        return image(args);
    }
    if is_argument(&args[0], "verify-image") {
        return verify_image(args);
    }
    if is_argument(&args[0], "qemu") {
        return qemu(args);
    }
    Err(Usage::UnknownCommand)
}

/// How long an image may run, in seconds.
pub fn run_seconds(xhci: bool) -> (seconds: u64)
    ensures
        seconds == (if xhci {
            30u64
        } else {
            20
        }),
{
    if xhci {
        30
    } else {
        20
    }
}

/// The devices behind a controller answered the first request.
pub const CONTROL_PROBE_MARKER: &'static str = "control_probe=8";

/// The marker that an image has to write next, after those that it wrote.
pub open spec fn marker_after(xhci: bool, written: int) -> Option<&'static str> {
    if !xhci && written == 0 {
        Some(KERNEL_ENTRY_MARKER)
    } else if xhci && written == 0 {
        Some(XHCI_PROBE_MARKER)
    } else if xhci && written == 1 {
        Some(CONTROL_PROBE_MARKER)
    } else {
        None
    }
}

/// The marker that an image has to write next, after those that it wrote.
pub fn next_marker(xhci: bool, written: usize) -> (marker: Option<&'static str>)
    ensures
        match (marker, marker_after(xhci, written as int)) {
            (Some(a), Some(b)) => a@ == b@,
            (None, None) => true,
            _ => false,
        },
{
    if !xhci && written == 0 {
        Some(KERNEL_ENTRY_MARKER)
    } else if xhci && written == 0 {
        Some(XHCI_PROBE_MARKER)
    } else if xhci && written == 1 {
        Some(CONTROL_PROBE_MARKER)
    } else {
        None
    }
}

} // verus!
