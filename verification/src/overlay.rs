//! Colours and placement of the ghost-text overlay.
use vstd::prelude::*;

verus! {

/// The colour the overlay window treats as transparent.
pub const COLORKEY: u32 = 0x00010101;

/// The colour drawn instead of the background when that equals the
/// transparent colour.
pub const COLORKEY_SUBSTITUTE: u32 = 0x00020202;

/// A colour as a Windows `COLORREF` value: red in the low byte, then green,
/// then blue.
pub open spec fn colorref_of(c: (u8, u8, u8)) -> u32 {
    (c.0 as int + c.1 as int * 256 + c.2 as int * 65536) as u32
}

/// Integer division rounding toward zero, as Rust's `/` on `i32`.
pub open spec fn div_toward_zero(a: int, b: int) -> int {
    if a >= 0 {
        a / b
    } else {
        -((-a) / b)
    }
}

fn half(x: i32) -> (r: i32)
    ensures
        r == div_toward_zero(x as int, 2),
{
    x / 2
}

/// The overlay text's colour.
pub fn text_colorref(color: (u8, u8, u8)) -> (r: u32)
    ensures
        r == colorref_of(color),
{
    color.0 as u32 + (color.1 as u32) * 256 + (color.2 as u32) * 65536
}

/// The popup background's colour; never the transparent colour.
pub fn bg_colorref(bg_color: (u8, u8, u8)) -> (r: u32)
    ensures
        r == if colorref_of(bg_color) == COLORKEY {
            COLORKEY_SUBSTITUTE
        } else {
            colorref_of(bg_color)
        },
        r != COLORKEY,
{
    let v = text_colorref(bg_color);
    if v == COLORKEY {
        COLORKEY_SUBSTITUTE
    } else {
        v
    }
}

/// The larger of two values.
pub open spec fn max_i(a: int, b: int) -> int {
    if a >= b {
        a
    } else {
        b
    }
}

/// The popup's width and height around a text of the given size: the text
/// with the padding (taken as a signed 32-bit value) on each side, at least
/// 40 by 20.
pub fn popup_size(text_w: i32, text_h: i32, padding: u32) -> (r: (i32, i32))
    requires
        i32::MIN <= 2 * (padding as i32) <= i32::MAX,
        i32::MIN <= text_w + 2 * (padding as i32) <= i32::MAX,
        i32::MIN <= text_h + 2 * (padding as i32) <= i32::MAX,
    ensures
        r.0 == max_i(text_w + 2 * (padding as i32), 40),
        r.1 == max_i(text_h + 2 * (padding as i32), 20),
{
    let pad = padding as i32;
    let w = text_w + pad * 2;
    let h = text_h + pad * 2;
    (if w >= 40 {
        w
    } else {
        40
    }, if h >= 20 {
        h
    } else {
        20
    })
}

/// Where the popup goes beside a caret rectangle (before conversion to
/// screen coordinates): 4 pixels above its top, or 4 below its bottom.
pub fn caret_anchor(left: i32, top: i32, bottom: i32, popup_h: i32, above: bool) -> (r: (i32, i32))
    requires
        above ==> i32::MIN <= top - popup_h <= i32::MAX,
        above ==> i32::MIN <= top - popup_h - 4 <= i32::MAX,
        !above ==> bottom + 4 <= i32::MAX,
    ensures
        r == if above {
            (left, (top - popup_h - 4) as i32)
        } else {
            (left, (bottom + 4) as i32)
        },
{
    if above {
        (left, top - popup_h - 4)
    } else {
        (left, bottom + 4)
    }
}

/// A caret position that the popup can be shown at.
pub open spec fn caret_point_ok(x: i32, y: i32) -> bool {
    x > -200 && x < 5000 && y > 0 && y < 4000
}

/// A position below the caret that the popup can be shown at.
pub open spec fn below_point_ok(x: i32, y: i32) -> bool {
    x > -200 && x < 5000 && y > 0
}

/// Whether a caret position can take the popup.
pub fn is_caret_point_ok(x: i32, y: i32) -> (r: bool)
    ensures
        r == caret_point_ok(x, y),
{
    x > -200 && x < 5000 && y > 0 && y < 4000
}

/// Whether a position below the caret can take the popup.
pub fn is_below_point_ok(x: i32, y: i32) -> (r: bool)
    ensures
        r == below_point_ok(x, y),
{
    x > -200 && x < 5000 && y > 0
}

/// Where the popup goes near the mouse cursor: centred on it, above it (or
/// below it when that would leave less than 4 pixels at the top), at least
/// 4 pixels from the left edge.
pub fn cursor_anchor(cx: i32, cy: i32, popup_w: i32, popup_h: i32, above: bool) -> (r: (i32, i32))
    requires
        i32::MIN <= cx - div_toward_zero(popup_w as int, 2) <= i32::MAX,
        above ==> i32::MIN <= cy - popup_h <= i32::MAX,
        above ==> i32::MIN <= cy - popup_h - 24 <= i32::MAX,
        cy + 20 <= i32::MAX,
    ensures
        ({
            let x = cx - div_toward_zero(popup_w as int, 2);
            let y0 = if above {
                cy - popup_h - 24
            } else {
                cy + 20
            };
            let y = if y0 < 4 {
                cy + 20
            } else {
                y0
            };
            r.0 == max_i(x, 4) && r.1 == y
        }),
{
    let x = cx - half(popup_w);
    let y = if above {
        cy - popup_h - 24
    } else {
        cy + 20
    };
    let y = if y < 4 {
        cy + 20
    } else {
        y
    };
    (if x >= 4 {
        x
    } else {
        4
    }, y)
}

/// Where the popup goes when neither caret nor cursor can place it: centred
/// on the window's bottom edge, 60 pixels above it.
pub fn fixed_anchor(left: i32, right: i32, bottom: i32, popup_w: i32, popup_h: i32) -> (r: (
    i32,
    i32,
))
    requires
        i32::MIN <= right - left <= i32::MAX,
        i32::MIN <= left + div_toward_zero(right - left, 2) - div_toward_zero(popup_w as int, 2)
            <= i32::MAX,
        i32::MIN <= left + div_toward_zero(right - left, 2) <= i32::MAX,
        i32::MIN <= bottom - popup_h <= i32::MAX,
        i32::MIN <= bottom - popup_h - 60 <= i32::MAX,
    ensures
        r.0 == left + div_toward_zero(right - left, 2) - div_toward_zero(popup_w as int, 2),
        r.1 == bottom - popup_h - 60,
{
    let win_w = right - left;
    let x = left + half(win_w) - half(popup_w);
    let y = bottom - popup_h - 60;
    (x, y)
}

} // verus!

verus! {

/// The diameter of the popup's rounded corners: twice the radius (taken as
/// a signed 32-bit value), at least 2.
pub fn corner_diameter(corner_radius: u32) -> (d: i32)
    requires
        i32::MIN <= 2 * (corner_radius as i32) <= i32::MAX,
    ensures
        d == max_i(2 * (corner_radius as i32), 2),
{
    let d = corner_radius as i32 * 2;
    if d >= 2 {
        d
    } else {
        2
    }
}

/// What to do with the caret point once it is in screen coordinates.
pub enum CaretStep {
    /// Show the popup at this point.
    Place(i32, i32),
    /// The point is above the top of the screen: try the point below the caret.
    TryBelow,
    /// The caret cannot place the popup.
    GiveUp,
}

/// Decides on the screen point `(x, y)` taken beside the caret: it places
/// the popup when it is on screen; above the top of the screen, with the
/// popup meant above the caret, the point below the caret is tried instead.
pub fn caret_step(x: i32, y: i32, above: bool) -> (r: CaretStep)
    ensures
        caret_point_ok(x, y) ==> r == CaretStep::Place(x, y),
        !caret_point_ok(x, y) ==> r == if y <= 0 && above {
            CaretStep::TryBelow
        } else {
            CaretStep::GiveUp
        },
{
    if is_caret_point_ok(x, y) {
        CaretStep::Place(x, y)
    } else if y <= 0 && above {
        CaretStep::TryBelow
    } else {
        CaretStep::GiveUp
    }
}

/// Where the popup goes when the caret cannot place it: near the mouse
/// cursor (when its position is known and the position mode is not fixed),
/// else on the foreground window given as `(left, right, bottom)`, else
/// nowhere new.
pub fn fallback_position(
    fixed_mode: bool,
    cursor: Option<(i32, i32)>,
    window: Option<(i32, i32, i32)>,
    popup_w: i32,
    popup_h: i32,
    above: bool,
) -> (r: Option<(i32, i32)>)
    requires
        !fixed_mode && cursor is Some ==> {
            let (cx, cy) = cursor->0;
            &&& i32::MIN <= cx - div_toward_zero(popup_w as int, 2) <= i32::MAX
            &&& above ==> i32::MIN <= cy - popup_h <= i32::MAX
            &&& above ==> i32::MIN <= cy - popup_h - 24 <= i32::MAX
            &&& cy + 20 <= i32::MAX
        },
        (fixed_mode || cursor is None) && window is Some ==> {
            let (left, right, bottom) = window->0;
            &&& i32::MIN <= right - left <= i32::MAX
            &&& i32::MIN <= left + div_toward_zero(right - left, 2) - div_toward_zero(
                popup_w as int,
                2,
            ) <= i32::MAX
            &&& i32::MIN <= left + div_toward_zero(right - left, 2) <= i32::MAX
            &&& i32::MIN <= bottom - popup_h <= i32::MAX
            &&& i32::MIN <= bottom - popup_h - 60 <= i32::MAX
        },
    ensures
        !fixed_mode && cursor is Some ==> ({
            let (cx, cy) = cursor->0;
            let x = cx - div_toward_zero(popup_w as int, 2);
            let y0 = if above {
                cy - popup_h - 24
            } else {
                cy + 20
            };
            let y = if y0 < 4 {
                cy + 20
            } else {
                y0
            };
            r == Some((max_i(x, 4) as i32, y as i32))
        }),
        (fixed_mode || cursor is None) && window is Some ==> ({
            let (left, right, bottom) = window->0;
            r == Some(
                (
                    (left + div_toward_zero(right - left, 2) - div_toward_zero(popup_w as int, 2))
                        as i32,
                    (bottom - popup_h - 60) as i32,
                ),
            )
        }),
        (fixed_mode || cursor is None) && window is None ==> r is None,
{
    if !fixed_mode {
        if let Some((cx, cy)) = cursor {
            return Some(cursor_anchor(cx, cy, popup_w, popup_h, above));
        }
    }
    match window {
        Some((left, right, bottom)) => Some(fixed_anchor(left, right, bottom, popup_w, popup_h)),
        None => None,
    }
}

} // verus!
