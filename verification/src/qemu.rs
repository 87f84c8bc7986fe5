//! Running the system in an emulator: what the emulator is told, and judging a run by what it
//! wrote and what it showed.
use vstd::prelude::*;
use vstd::slice::slice_subrange;
use vstd::utf8::{encode_utf8, valid_utf8};

use crate::bytes::same_bytes;
use crate::text::str_from_utf8;

verus! {

/// The kernel was entered.
pub const KERNEL_ENTRY_MARKER: &'static str = "[relay] phase=kernel-entry status=ok";

/// The USB controller was tried out.
pub const XHCI_PROBE_MARKER: &'static str = "[relay] phase=xhci-probe status=ok";

/// Whether bytes hold others in a row.
pub open spec fn holds(text: Seq<u8>, part: Seq<u8>) -> bool {
    exists|i: int| part_at(text, part, i)
}

/// Whether bytes hold others at a place.
pub open spec fn part_at(text: Seq<u8>, part: Seq<u8>, at: int) -> bool {
    0 <= at && at + part.len() <= text.len() && text.subrange(at, at + part.len()) == part
}

/// Whether bytes hold others in a row.
pub fn contains(text: &[u8], part: &[u8]) -> (r: bool)
    ensures
        r == holds(text@, part@),
{
    if part.len() > text.len() {
        return false;
    }
    let len: usize = text.len();
    let last: usize = len - part.len();
    let mut i: usize = 0;
    while i < last
        invariant
            i <= last,
            len == text@.len(),
            last == len - part@.len(),
            forall|k: int| 0 <= k < i ==> !#[trigger] part_at(text@, part@, k),
        decreases last - i,
    {
        if same_bytes(slice_subrange(text, i, i + part.len()), part) {
            assert(part_at(text@, part@, i as int));
            return true;
        }
        i = i + 1;
    }
    if same_bytes(slice_subrange(text, last, len), part) {
        assert(part_at(text@, part@, last as int));
        return true;
    }
    false
}

/// Whether a serial log shows that the kernel was entered.
pub fn validate_serial_log(serial: &str) -> (r: Result<(), String>)
    ensures
        match r {
            Ok(()) => holds(encode_utf8(serial@), encode_utf8(KERNEL_ENTRY_MARKER@)),
            Err(message) => !holds(encode_utf8(serial@), encode_utf8(KERNEL_ENTRY_MARKER@))
                && message@ == "serial log lacks marker `[relay] phase=kernel-entry status=ok`"@,
        },
{
    if contains(serial.as_bytes(), KERNEL_ENTRY_MARKER.as_bytes()) {
        Ok(())
    } else {
        Err("serial log lacks marker `[relay] phase=kernel-entry status=ok`".to_owned())
    }
}

/// What a look at a run shows.
#[derive(Clone, Copy, Debug, PartialEq, Eq, Structural)]
pub enum Watch {
    Seen,
    Exited,
    TimedOut,
    Again,
}

/// Judges a look at a run: a marker counts until the time is up, even if the run has ended.
pub fn watch_marker(expired: bool, serial: &str, marker: &str, exited: bool) -> (watch: Watch)
    ensures
        watch == (if expired {
            Watch::TimedOut
        } else if holds(encode_utf8(serial@), encode_utf8(marker@)) {
            Watch::Seen
        } else if exited {
            Watch::Exited
        } else {
            Watch::Again
        }),
{
    if expired {
        Watch::TimedOut
    } else if contains(serial.as_bytes(), marker.as_bytes()) {
        Watch::Seen
    } else if exited {
        Watch::Exited
    } else {
        Watch::Again
    }
}

/// A blank between the parts of a header.
pub open spec fn is_blank(b: u8) -> bool {
    b == 0x20 || b == 0x09 || b == 0x0a || b == 0x0c || b == 0x0d
}

fn blank(b: u8) -> (r: bool)
    ensures
        r == is_blank(b),
{
    b == 0x20 || b == 0x09 || b == 0x0a || b == 0x0c || b == 0x0d
}

/// Where the next part of a header starts: behind blanks, and behind comments, which go from a
/// number sign to the end of the line.
pub open spec fn part_start(s: Seq<u8>, at: int, in_comment: bool) -> int
    decreases
            s.len() - at,
            (if in_comment {
                1int
            } else {
                0int
            }),
{
    if at < 0 || at >= s.len() {
        at
    } else if in_comment {
        if s[at] == 0x0a || s[at] == 0x0d {
            part_start(s, at, false)
        } else {
            part_start(s, at + 1, true)
        }
    } else if is_blank(s[at]) {
        part_start(s, at + 1, false)
    } else if s[at] == 0x23 {
        part_start(s, at + 1, true)
    } else {
        at
    }
}

/// Where a part of a header ends: at the next blank.
pub open spec fn part_end(s: Seq<u8>, at: int) -> int
    decreases s.len() - at,
{
    if at < 0 || at >= s.len() || is_blank(s[at]) {
        at
    } else {
        part_end(s, at + 1)
    }
}

/// The next part of a header: where it starts and ends. There must be one.
pub open spec fn next_part(s: Seq<u8>, at: int) -> Result<(int, int), &'static str> {
    let start = part_start(s, at, false);
    let end = part_end(s, start);
    if start == end {
        Err("framebuffer screenshot has an incomplete PPM header")
    } else {
        Ok((start, end))
    }
}

/// A part of a header.
fn ppm_token(ppm: &[u8], offset: usize) -> (r: Result<(usize, usize), &'static str>)
    requires
        offset <= ppm@.len(),
    ensures
        match next_part(ppm@, offset as int) {
            Ok((start, end)) => r matches Ok((a, b)) && a == start && b == end && a <= b
                && b <= ppm@.len(),
            Err(message) => r matches Err(m) && m@ == message@,
        },
{
    let mut at: usize = offset;
    let mut in_comment: bool = false;
    let mut done: bool = false;
    while at < ppm.len() && !done
        invariant
            at <= ppm@.len(),
            part_start(ppm@, offset as int, false) == if done {
                at as int
            } else {
                part_start(ppm@, at as int, in_comment)
            },
        decreases
                ppm@.len() - at,
                (if in_comment {
                    1int
                } else {
                    0int
                }),
                (if done {
                    0int
                } else {
                    1int
                }),
    {
        let byte: u8 = ppm[at];
        if in_comment {
            if byte == 0x0a || byte == 0x0d {
                in_comment = false;
            } else {
                at = at + 1;
            }
        } else if blank(byte) {
            at = at + 1;
        } else if byte == 0x23 {
            at = at + 1;
            in_comment = true;
        } else {
            done = true;
        }
    }
    let start: usize = at;
    while at < ppm.len() && !blank(ppm[at])
        invariant
            start <= at <= ppm@.len(),
            part_end(ppm@, start as int) == part_end(ppm@, at as int),
        decreases ppm@.len() - at,
    {
        at = at + 1;
    }
    if start == at {
        return Err("framebuffer screenshot has an incomplete PPM header");
    }
    Ok((start, at))
}

/// All bytes are decimal digits.
pub open spec fn all_digits(s: Seq<u8>) -> bool {
    forall|i: int| 0 <= i < s.len() ==> 0x30 <= #[trigger] s[i] <= 0x39
}

/// The number that decimal digits stand for.
pub open spec fn value_of(s: Seq<u8>) -> int
    decreases s.len(),
{
    if s.len() == 0 {
        0
    } else {
        10 * value_of(s.drop_last()) + (s.last() - 0x30)
    }
}

/// The digits of a number, which a plus sign may precede.
pub open spec fn digits_of(s: Seq<u8>) -> Seq<u8> {
    if s.len() > 0 && s[0] == 0x2b {
        s.skip(1)
    } else {
        s
    }
}

/// The number that a part of a header stands for.
pub open spec fn number_of(s: Seq<u8>) -> Result<usize, &'static str> {
    let digits = digits_of(s);
    if !valid_utf8(s) {
        Err("framebuffer screenshot has a non-UTF-8 PPM header")
    } else if digits.len() == 0 || !all_digits(digits) || value_of(digits) > usize::MAX {
        Err("framebuffer screenshot has an invalid PPM dimension")
    } else {
        Ok(value_of(digits) as usize)
    }
}

/// Digits stand for no less than the first of them.
proof fn lemma_value_grows(s: Seq<u8>, n: int)
    requires
        all_digits(s),
        0 <= n <= s.len(),
    ensures
        0 <= value_of(s.take(n)) <= value_of(s),
    decreases s.len() - n, s.len(),
{
    if n < s.len() {
        lemma_value_grows(s, n + 1);
        let longer = s.take(n + 1);
        assert(longer.drop_last() =~= s.take(n));
        lemma_value_is_natural(s.take(n));
    } else {
        assert(s.take(n) =~= s);
        lemma_value_is_natural(s);
    }
}

proof fn lemma_value_is_natural(s: Seq<u8>)
    requires
        all_digits(s),
    ensures
        0 <= value_of(s),
    decreases s.len(),
{
    if s.len() > 0 {
        assert(all_digits(s.drop_last()));
        lemma_value_is_natural(s.drop_last());
    }
}

/// The number that a part of a header stands for.
fn ppm_number(token: &[u8]) -> (r: Result<usize, &'static str>)
    ensures
        match number_of(token@) {
            Ok(n) => r == Ok::<_, &'static str>(n),
            Err(message) => r matches Err(m) && m@ == message@,
        },
{
    if str_from_utf8(token).is_none() {
        return Err("framebuffer screenshot has a non-UTF-8 PPM header");
    }
    let first: usize = if token.len() > 0 && token[0] == 0x2b {
        1
    } else {
        0
    };
    let ghost digits = digits_of(token@);
    assert(digits =~= token@.skip(first as int));
    if token.len() == first {
        return Err("framebuffer screenshot has an invalid PPM dimension");
    }
    let mut value: usize = 0;
    let mut i: usize = first;
    assert(digits.take(0) =~= seq![]);
    while i < token.len()
        invariant
            first <= i <= token@.len(),
            first <= 1,
            token@.len() > first,
            valid_utf8(token@),
            digits == digits_of(token@),
            digits == token@.skip(first as int),
            all_digits(digits.take(i - first)),
            value == value_of(digits.take(i - first)),
        decreases token@.len() - i,
    {
        let byte: u8 = token[i];
        let ghost n = i - first;
        assert(digits[n] == byte);
        assert(digits.take(n + 1).drop_last() =~= digits.take(n));
        if byte < 0x30 || byte > 0x39 {
            assert(!all_digits(digits));
            return Err("framebuffer screenshot has an invalid PPM dimension");
        }
        assert(all_digits(digits.take(n + 1))) by {
            assert forall|k: int| 0 <= k < n + 1 implies 0x30 <= #[trigger] digits.take(n + 1)[k]
                <= 0x39 by {
                if k < n {
                    assert(digits.take(n)[k] == digits[k]);
                }
            }
        }
        let digit: usize = (byte - 0x30) as usize;
        let next = match value.checked_mul(10) {
            Some(shifted) => shifted.checked_add(digit),
            None => None,
        };
        value = match next {
            Some(next) => next,
            None => {
                assert(value_of(digits.take(n + 1)) > usize::MAX);
                proof {
                    if all_digits(digits) {
                        lemma_value_grows(digits, n + 1);
                    }
                }
                return Err("framebuffer screenshot has an invalid PPM dimension");
            },
        };
        i = i + 1;
    }
    assert(digits.take(i - first) =~= digits);
    Ok(value)
}

/// The head of a picture: its size, and where its pixels start.
pub struct Head {
    pub width: usize,
    pub height: usize,
    pub start: int,
}

/// A number in a header, and where the rest starts.
pub open spec fn next_number(s: Seq<u8>, at: int) -> Result<(usize, int), &'static str> {
    match next_part(s, at) {
        Err(message) => Err(message),
        Ok((start, end)) => match number_of(s.subrange(start, end)) {
            Err(message) => Err(message),
            Ok(n) => Ok((n, end)),
        },
    }
}

/// The head of a picture: a mark, the width, the height, the greatest value of a colour, which
/// must be 255, and one blank.
pub open spec fn head_of(s: Seq<u8>) -> Result<Head, &'static str> {
    match next_part(s, 0) {
        Err(message) => Err(message),
        Ok((start, end)) => if s.subrange(start, end) != seq![0x50u8, 0x36u8] {
            Err("framebuffer screenshot is not a binary PPM")
        } else {
            match next_number(s, end) {
                Err(message) => Err(message),
                Ok((width, at)) => match next_number(s, at) {
                    Err(message) => Err(message),
                    Ok((height, at)) => match next_number(s, at) {
                        Err(message) => Err(message),
                        Ok((most, at)) => if most != 255 {
                            Err("framebuffer screenshot does not use 8-bit PPM channels")
                        } else if at >= s.len() || !is_blank(s[at]) {
                            Err("framebuffer screenshot has an invalid PPM header")
                        } else {
                            Ok(Head { width, height, start: at + 1 })
                        },
                    },
                },
            }
        },
    }
}

fn ppm_number_at(ppm: &[u8], offset: usize) -> (r: Result<(usize, usize), &'static str>)
    requires
        offset <= ppm@.len(),
    ensures
        match next_number(ppm@, offset as int) {
            Ok((n, at)) => r matches Ok((a, b)) && a == n && b == at && b <= ppm@.len(),
            Err(message) => r matches Err(m) && m@ == message@,
        },
{
    let (start, end): (usize, usize) = match ppm_token(ppm, offset) {
        Ok(part) => part,
        Err(message) => return Err(message),
    };
    match ppm_number(slice_subrange(ppm, start, end)) {
        Ok(n) => Ok((n, end)),
        Err(message) => Err(message),
    }
}

/// The head of a picture.
fn ppm_head(ppm: &[u8]) -> (r: Result<(usize, usize, usize), &'static str>)
    ensures
        match head_of(ppm@) {
            Ok(head) => r matches Ok((w, h, s)) && w == head.width && h == head.height && s
                == head.start && s <= ppm@.len(),
            Err(message) => r matches Err(m) && m@ == message@,
        },
{
    let (start, end): (usize, usize) = match ppm_token(ppm, 0) {
        Ok(part) => part,
        Err(message) => return Err(message),
    };
    let mark: [u8; 2] = [0x50, 0x36];
    assert(mark@ =~= seq![0x50u8, 0x36u8]);
    if !same_bytes(slice_subrange(ppm, start, end), &mark) {
        return Err("framebuffer screenshot is not a binary PPM");
    }
    let (width, at): (usize, usize) = match ppm_number_at(ppm, end) {
        Ok(found) => found,
        Err(message) => return Err(message),
    };
    let (height, at): (usize, usize) = match ppm_number_at(ppm, at) {
        Ok(found) => found,
        Err(message) => return Err(message),
    };
    let (most, at): (usize, usize) = match ppm_number_at(ppm, at) {
        Ok(found) => found,
        Err(message) => return Err(message),
    };
    if most != 255 {
        return Err("framebuffer screenshot does not use 8-bit PPM channels");
    }
    if at >= ppm.len() || !blank(ppm[at]) {
        return Err("framebuffer screenshot has an invalid PPM header");
    }
    Ok((width, height, at + 1))
}

/// A pixel: three bytes of the picture.
pub open spec fn pixel(s: Seq<u8>, head: Head, row: int, column: int) -> Seq<u8> {
    let start = head.start + (row * head.width + column) * 3;
    s.subrange(start, start + 3)
}

/// Whether a region, as far as it lies in the picture, has a pixel that differs from the one in
/// the lower right corner.
pub open spec fn differs(s: Seq<u8>, head: Head, x: int, y: int, width: int, height: int) -> bool {
    exists|row: int, column: int|
        #![trigger pixel(s, head, row, column)]
        y <= row < y + height && row < head.height && x <= column < x + width && column < head.width
            && pixel(s, head, row, column) != pixel(s, head, head.height - 1, head.width - 1)
}

/// Whether a region of a picture shows something, or why that cannot be told.
pub open spec fn foreground(s: Seq<u8>, x: usize, y: usize, width: usize, height: usize) -> Result<
    bool,
    &'static str,
> {
    match head_of(s) {
        Err(message) => Err(message),
        Ok(head) => if head.width * head.height > usize::MAX || head.width * head.height * 3
            > usize::MAX {
            Err("framebuffer screenshot dimensions overflow")
        } else if head.start + head.width * head.height * 3 > usize::MAX {
            Err("framebuffer screenshot overflows")
        } else if head.start + head.width * head.height * 3 > s.len() {
            Err("framebuffer screenshot is truncated")
        } else if x >= head.width || y >= head.height || width == 0 || height == 0 {
            Err("banner region is outside the framebuffer screenshot")
        } else if x + width > usize::MAX || y + height > usize::MAX {
            Err("banner region overflows")
        } else {
            Ok(differs(s, head, x as int, y as int, width as int, height as int))
        },
    }
}

/// A pixel of a picture starts inside it.
proof fn lemma_pixel_inside(width: int, height: int, row: int, column: int)
    requires
        0 <= row < height,
        0 <= column < width,
    ensures
        0 <= row * width + column < width * height,
        row * width <= width * height,
{
    assert(row * width + column < width * height) by (nonlinear_arith)
        requires
            0 <= row < height,
            0 <= column < width,
    ;
    assert(0 <= row * width) by (nonlinear_arith)
        requires
            0 <= row,
            0 <= width,
    ;
}

/// Whether two pixels are the same.
fn same_pixel(ppm: &[u8], a: usize, b: usize) -> (r: bool)
    requires
        a + 3 <= ppm@.len(),
        b + 3 <= ppm@.len(),
    ensures
        r == (ppm@.subrange(a as int, a + 3) == ppm@.subrange(b as int, b + 3)),
{
    let _ = ppm.len();
    same_bytes(slice_subrange(ppm, a, a + 3), slice_subrange(ppm, b, b + 3))
}

/// Looks at the pixels of a region.
fn region_differs(
    ppm: &[u8],
    size: (usize, usize, usize),
    x: usize,
    y: usize,
    end_x: usize,
    end_y: usize,
    Ghost(head): Ghost<Head>,
) -> (r: bool)
    requires
        head.width == size.0,
        head.height == size.1,
        head.start == size.2,
        head.start + head.width * head.height * 3 <= ppm@.len(),
        head.width * head.height * 3 <= usize::MAX,
        x < end_x <= head.width,
        y < end_y <= head.height,
    ensures
        r == differs(ppm@, head, x as int, y as int, end_x - x, end_y - y),
{
    let (width, height, start): (usize, usize, usize) = size;
    let len: usize = ppm.len();
    proof {
        lemma_pixel_inside(width as int, height as int, height - 1, width - 1);
    }
    let background: usize = start + ((height - 1) * width + (width - 1)) * 3;
    let ghost corner = pixel(ppm@, head, height - 1, width - 1);
    let mut row: usize = y;
    while row < end_y
        invariant
            y <= row <= end_y,
            x < end_x <= width,
            end_y <= height,
            len == ppm@.len(),
            width == head.width,
            height == head.height,
            start == head.start,
            start + width * height * 3 <= len,
            width * height * 3 <= usize::MAX,
            background + 3 <= len,
            corner == ppm@.subrange(background as int, background + 3),
            corner == pixel(ppm@, head, height - 1, width - 1),
            forall|i: int, j: int|
                #![trigger pixel(ppm@, head, i, j)]
                y <= i < row && x <= j < end_x ==> pixel(ppm@, head, i, j) == corner,
        decreases end_y - row,
    {
        let mut column: usize = x;
        while column < end_x
            invariant
                y <= row < end_y,
                x <= column <= end_x,
                x < end_x <= width,
                end_y <= height,
                len == ppm@.len(),
                width == head.width,
                height == head.height,
                start == head.start,
                start + width * height * 3 <= len,
                width * height * 3 <= usize::MAX,
                background + 3 <= len,
                corner == ppm@.subrange(background as int, background + 3),
                corner == pixel(ppm@, head, height - 1, width - 1),
                forall|i: int, j: int|
                    #![trigger pixel(ppm@, head, i, j)]
                    y <= i < row && x <= j < end_x ==> pixel(ppm@, head, i, j) == corner,
                forall|j: int|
                    #![trigger pixel(ppm@, head, row as int, j)]
                    x <= j < column ==> pixel(ppm@, head, row as int, j) == corner,
            decreases end_x - column,
        {
            proof {
                lemma_pixel_inside(width as int, height as int, row as int, column as int);
            }
            let place: usize = start + (row * width + column) * 3;
            assert(pixel(ppm@, head, row as int, column as int) == ppm@.subrange(
                place as int,
                place + 3,
            ));
            if !same_pixel(ppm, place, background) {
                return true;
            }
            column = column + 1;
        }
        row = row + 1;
    }
    false
}

/// Checks that a region of a screenshot shows something: a pixel that differs from the lower right
/// corner, which is background.
pub fn ppm_region_has_foreground(ppm: &[u8], x: usize, y: usize, width: usize, height: usize) -> (r:
    Result<bool, String>)
    ensures
        match foreground(ppm@, x, y, width, height) {
            Ok(shown) => r == Ok::<_, String>(shown),
            Err(message) => r matches Err(m) && m@ == message@,
        },
{
    let (image_width, image_height, start): (usize, usize, usize) = match ppm_head(ppm) {
        Ok(head) => head,
        Err(message) => return Err(message.to_owned()),
    };
    let ghost head = head_of(ppm@)->Ok_0;
    let pixels: usize = match image_width.checked_mul(image_height) {
        Some(pixels) => pixels,
        None => return Err("framebuffer screenshot dimensions overflow".to_owned()),
    };
    let pixel_len: usize = match pixels.checked_mul(3) {
        Some(pixel_len) => pixel_len,
        None => return Err("framebuffer screenshot dimensions overflow".to_owned()),
    };
    let end: usize = match start.checked_add(pixel_len) {
        Some(end) => end,
        None => return Err("framebuffer screenshot overflows".to_owned()),
    };
    if end > ppm.len() {
        return Err("framebuffer screenshot is truncated".to_owned());
    }
    if x >= image_width || y >= image_height || width == 0 || height == 0 {
        return Err("banner region is outside the framebuffer screenshot".to_owned());
    }
    let end_x: usize = match x.checked_add(width) {
        Some(end_x) => end_x,
        None => return Err("banner region overflows".to_owned()),
    };
    let end_y: usize = match y.checked_add(height) {
        Some(end_y) => end_y,
        None => return Err("banner region overflows".to_owned()),
    };
    let end_x: usize = if end_x < image_width {
        end_x
    } else {
        image_width
    };
    let end_y: usize = if end_y < image_height {
        end_y
    } else {
        image_height
    };
    let size: (usize, usize, usize) = (image_width, image_height, start);
    let shown: bool = region_differs(ppm, size, x, y, end_x, end_y, Ghost(head));
    assert(shown == differs(ppm@, head, x as int, y as int, width as int, height as int));
    Ok(shown)
}

/// The settings that images are run with: without a screen, and without hardware acceleration.
pub open spec fn supported_settings(display: Seq<u8>, accel: Seq<u8>) -> bool {
    display == encode_utf8("none"@) && accel == encode_utf8("tcg"@)
}

/// What is said of other settings.
pub const UNSUPPORTED_SETTINGS: &'static str = "QEMU boot requires `--display none --accel tcg`";

/// Tests the settings that an image is to be run with.
pub fn check_settings(display: &str, accel: &str) -> (r: Result<(), &'static str>)
    ensures
        match r {
            Ok(()) => supported_settings(encode_utf8(display@), encode_utf8(accel@)),
            Err(message) => !supported_settings(encode_utf8(display@), encode_utf8(accel@))
                && message@ == UNSUPPORTED_SETTINGS@,
        },
{
    if !same_bytes(display.as_bytes(), "none".as_bytes()) || !same_bytes(
        accel.as_bytes(),
        "tcg".as_bytes(),
    ) {
        return Err(UNSUPPORTED_SETTINGS);
    }
    Ok(())
}

/// The files that a run works with: the firmware's code and variables, the disk image, the log of
/// the serial line, the socket for requests, and the log of the processor.
pub struct RunFiles<'a> {
    pub code: &'a str,
    pub vars: &'a str,
    pub image: &'a str,
    pub serial: &'a str,
    pub qmp: &'a str,
    pub debug: &'a str,
}

/// Some strings as text.
pub open spec fn plain(strings: Seq<String>) -> Seq<Seq<char>> {
    strings.map_values(|string: String| string@)
}

/// A file name behind what it is for, and before what else is to be said of it.
pub open spec fn framed(before: &str, file: &str, after: &str) -> Seq<char> {
    before@ + file@ + after@
}

/// What the emulator is told of the machine: a controller, and a keyboard behind it if the
/// controller is to find a device.
pub open spec fn machine_arguments(xhci: bool) -> Seq<Seq<char>> {
    let bare = Seq::<Seq<char>>::empty().push("-machine"@).push("q35"@).push("-device"@).push(
        "qemu-xhci,p2=2,p3=2"@,
    );
    if xhci {
        bare.push("-device"@).push("usb-kbd"@)
    } else {
        bare
    }
}

/// All that the emulator is told.
pub open spec fn run_arguments(
    xhci: bool,
    display: &str,
    accel: &str,
    files: RunFiles<'_>,
) -> Seq<Seq<char>> {
    machine_arguments(xhci).push("-accel"@).push(accel@).push("-display"@).push(display@).push(
        "-no-reboot"@,
    ).push("-drive"@).push(
        framed("if=pflash,format=raw,readonly=on,file=", files.code, ""),
    ).push("-drive"@).push(framed("if=pflash,format=raw,file=", files.vars, "")).push(
        "-drive"@,
    ).push(framed("format=raw,file=", files.image, "")).push("-serial"@).push(
        framed("file:", files.serial, ""),
    ).push("-qmp"@).push(framed("unix:", files.qmp, ",server=on,wait=off")).push("-d"@).push(
        "int,cpu_reset"@,
    ).push("-D"@).push(files.debug@)
}

fn put(arguments: &mut Vec<String>, text: &str)
    ensures
        plain(final(arguments)@) == plain(old(arguments)@).push(text@),
{
    let ghost before = plain(arguments@);
    arguments.push(text.to_owned());
    assert(plain(arguments@) =~= before.push(text@));
}

fn put_framed(arguments: &mut Vec<String>, before: &str, file: &str, after: &str)
    ensures
        plain(final(arguments)@) == plain(old(arguments)@).push(framed(before, file, after)),
{
    let ghost so_far = plain(arguments@);
    let mut text: String = before.to_owned();
    text.append(file);
    text.append(after);
    arguments.push(text);
    assert(plain(arguments@) =~= so_far.push(framed(before, file, after)));
}

/// All that the emulator is told.
pub fn qemu_arguments(xhci: bool, display: &str, accel: &str, files: &RunFiles<'_>) -> (arguments:
    Vec<String>)
    ensures
        plain(arguments@) == run_arguments(xhci, display, accel, *files),
{
    let mut arguments: Vec<String> = Vec::new();
    assert(plain(arguments@) =~= Seq::<Seq<char>>::empty());
    put(&mut arguments, "-machine");
    put(&mut arguments, "q35");
    put(&mut arguments, "-device");
    put(&mut arguments, "qemu-xhci,p2=2,p3=2");
    if xhci {
        put(&mut arguments, "-device");
        put(&mut arguments, "usb-kbd");
    }
    put(&mut arguments, "-accel");
    put(&mut arguments, accel);
    put(&mut arguments, "-display");
    put(&mut arguments, display);
    put(&mut arguments, "-no-reboot");
    put(&mut arguments, "-drive");
    put_framed(&mut arguments, "if=pflash,format=raw,readonly=on,file=", files.code, "");
    put(&mut arguments, "-drive");
    put_framed(&mut arguments, "if=pflash,format=raw,file=", files.vars, "");
    put(&mut arguments, "-drive");
    put_framed(&mut arguments, "format=raw,file=", files.image, "");
    put(&mut arguments, "-serial");
    put_framed(&mut arguments, "file:", files.serial, "");
    put(&mut arguments, "-qmp");
    put_framed(&mut arguments, "unix:", files.qmp, ",server=on,wait=off");
    put(&mut arguments, "-d");
    put(&mut arguments, "int,cpu_reset");
    put(&mut arguments, "-D");
    put(&mut arguments, files.debug);
    arguments
}

/// A byte that separates the parts of a header.
pub open spec fn separates(b: u8) -> bool {
    b == 0x20 || 0x09 <= b <= 0x0a || 0x0c <= b <= 0x0d
}

/// A byte belongs to a comment that starts behind a place: a number sign stands before it or on
/// it, and no line ends in between.
#[verifier::opaque]
pub open spec fn in_a_comment(s: Seq<u8>, from: int, i: int) -> bool {
    exists|j: int|
        from <= j <= i && #[trigger] s[j] == 0x23 && forall|k: int|
            j <= k <= i ==> #[trigger] s[k] != 0x0a && s[k] != 0x0d
}

proof fn lemma_comment_begins(s: Seq<u8>, from: int, at: int)
    requires
        from <= at,
        s[at] == 0x23,
    ensures
        in_a_comment(s, from, at),
{
    reveal(in_a_comment);
}

proof fn lemma_comment_goes_on(s: Seq<u8>, from: int, at: int)
    requires
        in_a_comment(s, from, at - 1),
        s[at] != 0x0a,
        s[at] != 0x0d,
    ensures
        in_a_comment(s, from, at),
{
    reveal(in_a_comment);
    let j = choose|j: int|
        from <= j <= at - 1 && #[trigger] s[j] == 0x23 && forall|k: int|
            j <= k <= at - 1 ==> #[trigger] s[k] != 0x0a && s[k] != 0x0d;
    assert forall|k: int| j <= k <= at implies #[trigger] s[k] != 0x0a && s[k] != 0x0d by {}
    assert(s[j] == 0x23);
}

proof fn lemma_part_start(s: Seq<u8>, from: int, at: int, in_comment: bool)
    requires
        0 <= from <= at <= s.len(),
        in_comment ==> at > from && in_a_comment(s, from, at - 1),
        forall|i: int| from <= i < at ==> separates(#[trigger] s[i]) || in_a_comment(s, from, i),
    ensures
        ({
            let start = part_start(s, at, in_comment);
            &&& at <= start <= s.len()
            &&& start < s.len() ==> !separates(s[start]) && s[start] != 0x23
            &&& forall|i: int|
                from <= i < start ==> separates(#[trigger] s[i]) || in_a_comment(s, from, i)
        }),
    decreases
            s.len() - at,
            (if in_comment {
                1int
            } else {
                0int
            }),
{
    if at < s.len() {
        if in_comment {
            if s[at] == 0x0a || s[at] == 0x0d {
                lemma_part_start(s, from, at, false);
            } else {
                lemma_comment_goes_on(s, from, at);
                lemma_part_start(s, from, at + 1, true);
            }
        } else if is_blank(s[at]) {
            lemma_part_start(s, from, at + 1, false);
        } else if s[at] == 0x23 {
            lemma_comment_begins(s, from, at);
            lemma_part_start(s, from, at + 1, true);
        }
    }
}

proof fn lemma_part_end(s: Seq<u8>, at: int)
    requires
        0 <= at <= s.len(),
    ensures
        at <= part_end(s, at) <= s.len(),
        forall|i: int| at <= i < part_end(s, at) ==> !separates(#[trigger] s[i]),
        part_end(s, at) < s.len() ==> separates(s[part_end(s, at)]),
    decreases s.len() - at,
{
    if at < s.len() && !is_blank(s[at]) {
        lemma_part_end(s, at + 1);
    }
}

/// The next part of a header is all that stands before the next blank, and only blanks and
/// comments are passed over before it. There is none only where nothing else is left.
pub proof fn law_parts_stand_between_blanks(s: Seq<u8>, at: int)
    requires
        0 <= at <= s.len(),
    ensures
        match next_part(s, at) {
            Ok((start, end)) => {
                &&& at <= start < end <= s.len()
                &&& s[start] != 0x23
                &&& forall|i: int| start <= i < end ==> !separates(#[trigger] s[i])
                &&& end < s.len() ==> separates(s[end])
                &&& forall|i: int|
                    at <= i < start ==> separates(#[trigger] s[i]) || in_a_comment(s, at, i)
            },
            Err(_) => forall|i: int|
                at <= i < s.len() ==> separates(#[trigger] s[i]) || in_a_comment(s, at, i),
        },
{
    lemma_part_start(s, at, at, false);
    lemma_part_end(s, part_start(s, at, false));
}

} // verus!
