//! Accept-key names, virtual-key codes and colours of the settings.
use crate::text::{
    byte_len, chars_of, has_min_bytes, is_white_space, lemma_byte_len_ge_len, string_of, trim,
    trim_chars, trailing_ws, leading_ws,
};
use vstd::prelude::*;
use vstd::utf8::encode_utf8;

verus! {

pub const VK_BACK: u32 = 0x08;

pub const VK_TAB: u32 = 0x09;

pub const VK_RETURN: u32 = 0x0D;

pub const VK_SHIFT: u32 = 0x10;

pub const VK_CONTROL: u32 = 0x11;

pub const VK_MENU: u32 = 0x12;

pub const VK_ESCAPE: u32 = 0x1B;

pub const VK_SPACE: u32 = 0x20;

pub const VK_LWIN: u32 = 0x5B;

pub const VK_RWIN: u32 = 0x5C;

pub const VK_LSHIFT: u32 = 0xA0;

pub const VK_RSHIFT: u32 = 0xA1;

pub const VK_LCONTROL: u32 = 0xA2;

pub const VK_RCONTROL: u32 = 0xA3;

pub const VK_LMENU: u32 = 0xA4;

pub const VK_RMENU: u32 = 0xA5;

/// The code of `c` in upper case, for ASCII letters (`char::to_ascii_uppercase`).
pub open spec fn ascii_upper(c: char) -> u32 {
    if 'a' <= c && c <= 'z' {
        (c as u32 - 32) as u32
    } else {
        c as u32
    }
}

/// The key code that a key name stands for: a known name, else a single
/// ASCII character (in upper case), else Tab.
pub open spec fn vk_of_name(n: Seq<char>) -> u32 {
    match known_vk(n) {
        Some(v) => v,
        None => if byte_len(n) == 1 {
            ascii_upper(n[0])
        } else {
            VK_TAB
        },
    }
}

/// `a`, or else `b`.
pub open spec fn or_else<T>(a: Option<T>, b: Option<T>) -> Option<T> {
    if a is Some {
        a
    } else {
        b
    }
}

/// The code of a known key name.
pub open spec fn known_vk(n: Seq<char>) -> Option<u32> {
    or_else(named_vk_0(n), or_else(named_vk_1(n), or_else(named_vk_2(n), or_else(named_vk_3(n), or_else(named_vk_4(n), or_else(named_vk_5(n), None))))))
}

/// The name a code is shown by, for codes that have a name of their own.
pub open spec fn known_name(v: u32) -> Option<Seq<char>> {
    or_else(known_name_0(v), or_else(known_name_1(v), or_else(known_name_2(v), or_else(known_name_3(v), or_else(known_name_4(v), or_else(known_name_5(v), None))))))
}

/// Codes of one group of key names.
pub open spec fn named_vk_0(n: Seq<char>) -> Option<u32> {
    if n.len() == 3 && n[0] == 'T' && n[1] == 'a' && n[2] == 'b' {
        Some(0x09u32)
    } else if n.len() == 5 && n[0] == 'E' && n[1] == 'n' && n[2] == 't' && n[3] == 'e' && n[4] == 'r' {
        Some(0x0Du32)
    } else if n.len() == 5 && n[0] == 'S' && n[1] == 'p' && n[2] == 'a' && n[3] == 'c' && n[4] == 'e' {
        Some(0x20u32)
    } else if n.len() == 9 && n[0] == 'B' && n[1] == 'a' && n[2] == 'c' && n[3] == 'k' && n[4] == 's' && n[5] == 'p' && n[6] == 'a' && n[7] == 'c' && n[8] == 'e' {
        Some(0x08u32)
    } else if n.len() == 6 && n[0] == 'E' && n[1] == 's' && n[2] == 'c' && n[3] == 'a' && n[4] == 'p' && n[5] == 'e' {
        Some(0x1Bu32)
    } else if n.len() == 3 && n[0] == 'E' && n[1] == 's' && n[2] == 'c' {
        Some(0x1Bu32)
    } else if n.len() == 8 && n[0] == 'C' && n[1] == 'a' && n[2] == 'p' && n[3] == 's' && n[4] == 'L' && n[5] == 'o' && n[6] == 'c' && n[7] == 'k' {
        Some(0x14u32)
    } else if n.len() == 6 && n[0] == 'I' && n[1] == 'n' && n[2] == 's' && n[3] == 'e' && n[4] == 'r' && n[5] == 't' {
        Some(0x2Du32)
    } else {
        None
    }
}

/// Codes of one group of key names.
pub open spec fn named_vk_1(n: Seq<char>) -> Option<u32> {
    if n.len() == 6 && n[0] == 'D' && n[1] == 'e' && n[2] == 'l' && n[3] == 'e' && n[4] == 't' && n[5] == 'e' {
        Some(0x2Eu32)
    } else if n.len() == 3 && n[0] == 'D' && n[1] == 'e' && n[2] == 'l' {
        Some(0x2Eu32)
    } else if n.len() == 4 && n[0] == 'H' && n[1] == 'o' && n[2] == 'm' && n[3] == 'e' {
        Some(0x24u32)
    } else if n.len() == 3 && n[0] == 'E' && n[1] == 'n' && n[2] == 'd' {
        Some(0x23u32)
    } else if n.len() == 6 && n[0] == 'P' && n[1] == 'a' && n[2] == 'g' && n[3] == 'e' && n[4] == 'U' && n[5] == 'p' {
        Some(0x21u32)
    } else if n.len() == 8 && n[0] == 'P' && n[1] == 'a' && n[2] == 'g' && n[3] == 'e' && n[4] == 'D' && n[5] == 'o' && n[6] == 'w' && n[7] == 'n' {
        Some(0x22u32)
    } else if n.len() == 4 && n[0] == 'L' && n[1] == 'e' && n[2] == 'f' && n[3] == 't' {
        Some(0x25u32)
    } else if n.len() == 11 && n[0] == 'R' && n[1] == 'i' && n[2] == 'g' && n[3] == 'h' && n[4] == 't' && n[5] == ' ' && n[6] == 'A' && n[7] == 'r' && n[8] == 'r' && n[9] == 'o' && n[10] == 'w' {
        Some(0x25u32)
    } else {
        None
    }
}

/// Codes of one group of key names.
pub open spec fn named_vk_2(n: Seq<char>) -> Option<u32> {
    if n.len() == 5 && n[0] == 'R' && n[1] == 'i' && n[2] == 'g' && n[3] == 'h' && n[4] == 't' {
        Some(0x27u32)
    } else if n.len() == 2 && n[0] == 'U' && n[1] == 'p' {
        Some(0x26u32)
    } else if n.len() == 4 && n[0] == 'D' && n[1] == 'o' && n[2] == 'w' && n[3] == 'n' {
        Some(0x28u32)
    } else if n.len() == 2 && n[0] == 'F' && n[1] == '1' {
        Some(0x70u32)
    } else if n.len() == 2 && n[0] == 'F' && n[1] == '2' {
        Some(0x71u32)
    } else if n.len() == 2 && n[0] == 'F' && n[1] == '3' {
        Some(0x72u32)
    } else if n.len() == 2 && n[0] == 'F' && n[1] == '4' {
        Some(0x73u32)
    } else if n.len() == 2 && n[0] == 'F' && n[1] == '5' {
        Some(0x74u32)
    } else {
        None
    }
}

/// Codes of one group of key names.
pub open spec fn named_vk_3(n: Seq<char>) -> Option<u32> {
    if n.len() == 2 && n[0] == 'F' && n[1] == '6' {
        Some(0x75u32)
    } else if n.len() == 2 && n[0] == 'F' && n[1] == '7' {
        Some(0x76u32)
    } else if n.len() == 2 && n[0] == 'F' && n[1] == '8' {
        Some(0x77u32)
    } else if n.len() == 2 && n[0] == 'F' && n[1] == '9' {
        Some(0x78u32)
    } else if n.len() == 3 && n[0] == 'F' && n[1] == '1' && n[2] == '0' {
        Some(0x79u32)
    } else if n.len() == 3 && n[0] == 'F' && n[1] == '1' && n[2] == '1' {
        Some(0x7Au32)
    } else if n.len() == 3 && n[0] == 'F' && n[1] == '1' && n[2] == '2' {
        Some(0x7Bu32)
    } else if n.len() == 5 && n[0] == 'R' && n[1] == 'C' && n[2] == 't' && n[3] == 'r' && n[4] == 'l' {
        Some(0xA3u32)
    } else {
        None
    }
}

/// Codes of one group of key names.
pub open spec fn named_vk_4(n: Seq<char>) -> Option<u32> {
    if n.len() == 5 && n[0] == 'L' && n[1] == 'C' && n[2] == 't' && n[3] == 'r' && n[4] == 'l' {
        Some(0xA2u32)
    } else if n.len() == 4 && n[0] == 'R' && n[1] == 'A' && n[2] == 'l' && n[3] == 't' {
        Some(0xA5u32)
    } else if n.len() == 4 && n[0] == 'L' && n[1] == 'A' && n[2] == 'l' && n[3] == 't' {
        Some(0xA4u32)
    } else if n.len() == 6 && n[0] == 'R' && n[1] == 'S' && n[2] == 'h' && n[3] == 'i' && n[4] == 'f' && n[5] == 't' {
        Some(0xA1u32)
    } else if n.len() == 6 && n[0] == 'L' && n[1] == 'S' && n[2] == 'h' && n[3] == 'i' && n[4] == 'f' && n[5] == 't' {
        Some(0xA0u32)
    } else if n.len() == 1 && n[0] == ';' {
        Some(0xBAu32)
    } else if n.len() == 1 && n[0] == '=' {
        Some(0xBBu32)
    } else if n.len() == 1 && n[0] == ',' {
        Some(0xBCu32)
    } else {
        None
    }
}

/// Codes of one group of key names.
pub open spec fn named_vk_5(n: Seq<char>) -> Option<u32> {
    if n.len() == 1 && n[0] == '-' {
        Some(0xBDu32)
    } else if n.len() == 1 && n[0] == '.' {
        Some(0xBEu32)
    } else if n.len() == 1 && n[0] == '/' {
        Some(0xBFu32)
    } else if n.len() == 1 && n[0] == '`' {
        Some(0xC0u32)
    } else if n.len() == 1 && n[0] == '\u{5B}' {
        Some(0xDBu32)
    } else if n.len() == 1 && n[0] == '\u{5C}' {
        Some(0xDCu32)
    } else if n.len() == 1 && n[0] == '\u{5D}' {
        Some(0xDDu32)
    } else if n.len() == 1 && n[0] == '\u{27}' {
        Some(0xDEu32)
    } else {
        None
    }
}

/// Names of one group of key codes.
pub open spec fn known_name_0(v: u32) -> Option<Seq<char>> {
    if v == 0x09 {
        Some(seq!['T', 'a', 'b'])
    } else if v == 0x0D {
        Some(seq!['E', 'n', 't', 'e', 'r'])
    } else if v == 0x20 {
        Some(seq!['S', 'p', 'a', 'c', 'e'])
    } else if v == 0x08 {
        Some(seq!['B', 'a', 'c', 'k', 's', 'p', 'a', 'c', 'e'])
    } else if v == 0x1B {
        Some(seq!['E', 's', 'c', 'a', 'p', 'e'])
    } else if v == 0x14 {
        Some(seq!['C', 'a', 'p', 's', 'L', 'o', 'c', 'k'])
    } else if v == 0x2D {
        Some(seq!['I', 'n', 's', 'e', 'r', 't'])
    } else if v == 0x2E {
        Some(seq!['D', 'e', 'l', 'e', 't', 'e'])
    } else {
        None
    }
}

/// Names of one group of key codes.
pub open spec fn known_name_1(v: u32) -> Option<Seq<char>> {
    if v == 0x24 {
        Some(seq!['H', 'o', 'm', 'e'])
    } else if v == 0x23 {
        Some(seq!['E', 'n', 'd'])
    } else if v == 0x21 {
        Some(seq!['P', 'a', 'g', 'e', 'U', 'p'])
    } else if v == 0x22 {
        Some(seq!['P', 'a', 'g', 'e', 'D', 'o', 'w', 'n'])
    } else if v == 0x25 {
        Some(seq!['L', 'e', 'f', 't'])
    } else if v == 0x27 {
        Some(seq!['R', 'i', 'g', 'h', 't'])
    } else if v == 0x26 {
        Some(seq!['U', 'p'])
    } else if v == 0x28 {
        Some(seq!['D', 'o', 'w', 'n'])
    } else {
        None
    }
}

/// Names of one group of key codes.
pub open spec fn known_name_2(v: u32) -> Option<Seq<char>> {
    if v == 0x70 {
        Some(seq!['F', '1'])
    } else if v == 0x71 {
        Some(seq!['F', '2'])
    } else if v == 0x72 {
        Some(seq!['F', '3'])
    } else if v == 0x73 {
        Some(seq!['F', '4'])
    } else if v == 0x74 {
        Some(seq!['F', '5'])
    } else if v == 0x75 {
        Some(seq!['F', '6'])
    } else if v == 0x76 {
        Some(seq!['F', '7'])
    } else if v == 0x77 {
        Some(seq!['F', '8'])
    } else {
        None
    }
}

/// Names of one group of key codes.
pub open spec fn known_name_3(v: u32) -> Option<Seq<char>> {
    if v == 0x78 {
        Some(seq!['F', '9'])
    } else if v == 0x79 {
        Some(seq!['F', '1', '0'])
    } else if v == 0x7A {
        Some(seq!['F', '1', '1'])
    } else if v == 0x7B {
        Some(seq!['F', '1', '2'])
    } else if v == 0xA3 {
        Some(seq!['R', 'C', 't', 'r', 'l'])
    } else if v == 0xA2 {
        Some(seq!['L', 'C', 't', 'r', 'l'])
    } else if v == 0xA5 {
        Some(seq!['R', 'A', 'l', 't'])
    } else if v == 0xA4 {
        Some(seq!['L', 'A', 'l', 't'])
    } else {
        None
    }
}

/// Names of one group of key codes.
pub open spec fn known_name_4(v: u32) -> Option<Seq<char>> {
    if v == 0xA1 {
        Some(seq!['R', 'S', 'h', 'i', 'f', 't'])
    } else if v == 0xA0 {
        Some(seq!['L', 'S', 'h', 'i', 'f', 't'])
    } else if v == 0xBA {
        Some(seq![';'])
    } else if v == 0xBB {
        Some(seq!['='])
    } else if v == 0xBC {
        Some(seq![','])
    } else if v == 0xBD {
        Some(seq!['-'])
    } else if v == 0xBE {
        Some(seq!['.'])
    } else if v == 0xBF {
        Some(seq!['/'])
    } else {
        None
    }
}

/// Names of one group of key codes.
pub open spec fn known_name_5(v: u32) -> Option<Seq<char>> {
    if v == 0xC0 {
        Some(seq!['`'])
    } else if v == 0xDB {
        Some(seq!['\u{5B}'])
    } else if v == 0xDC {
        Some(seq!['\u{5C}'])
    } else if v == 0xDD {
        Some(seq!['\u{5D}'])
    } else if v == 0xDE {
        Some(seq!['\u{27}'])
    } else {
        None
    }
}


/// Upper-case hexadecimal digit of `d`.
pub open spec fn hex_digit(d: u32) -> char {
    if d == 0 {
        '0'
    } else if d == 1 {
        '1'
    } else if d == 2 {
        '2'
    } else if d == 3 {
        '3'
    } else if d == 4 {
        '4'
    } else if d == 5 {
        '5'
    } else if d == 6 {
        '6'
    } else if d == 7 {
        '7'
    } else if d == 8 {
        '8'
    } else if d == 9 {
        '9'
    } else if d == 10 {
        'A'
    } else if d == 11 {
        'B'
    } else if d == 12 {
        'C'
    } else if d == 13 {
        'D'
    } else if d == 14 {
        'E'
    } else {
        'F'
    }
}

/// Upper-case hexadecimal digits of `v`, without leading zeros.
pub open spec fn hex_digits(v: u32) -> Seq<char>
    decreases v,
{
    if v < 16 {
        seq![hex_digit(v)]
    } else {
        hex_digits(v / 16).push(hex_digit(v % 16))
    }
}

/// Hexadecimal digits of `v`, at least two of them.
pub open spec fn padded_hex(v: u32) -> Seq<char> {
    if v < 16 {
        seq!['0', hex_digit(v)]
    } else {
        hex_digits(v)
    }
}

/// The name a key code is shown by: its known name, else the letter or
/// digit, else `VK0x` and its code in hexadecimal.
pub open spec fn name_of_vk(v: u32) -> Seq<char> {
    match known_name(v) {
        Some(n) => n,
        None => if (0x41 <= v && v <= 0x5A) || (0x30 <= v && v <= 0x39) {
            seq![(v as u8) as char]
        } else {
            seq!['V', 'K', '0', 'x'] + padded_hex(v)
        },
    }
}

/// Codes that have a name of their own, and letters and digits.
pub open spec fn is_named_key(v: u32) -> bool {
    v == 0x09 || v == 0x0D || v == 0x20 || v == 0x08 || v == 0x1B || v == 0x14 || v == 0x2D || v == 0x2E || v == 0x24 || v == 0x23 || v == 0x21 || v == 0x22 || v == 0x25 || v == 0x27 || v == 0x26 || v == 0x28 || v == 0x70 || v == 0x71 || v == 0x72 || v == 0x73 || v == 0x74 || v == 0x75 || v == 0x76 || v == 0x77 || v == 0x78 || v == 0x79 || v == 0x7A || v == 0x7B || v == 0xA3 || v == 0xA2 || v == 0xA5 || v == 0xA4 || v == 0xA1 || v == 0xA0 || v == 0xBA || v == 0xBB || v == 0xBC || v == 0xBD || v == 0xBE || v == 0xBF || v == 0xC0 || v == 0xDB || v == 0xDC || v == 0xDD || v == 0xDE || (0x41 <= v && v <= 0x5A) || (0x30 <= v && v <= 0x39)
}

/// Whether two strings hold the same characters.
pub fn str_eq(a: &str, b: &str) -> (r: bool)
    ensures
        r == (a@ == b@),
{
    let ac = chars_of(a);
    let bc = chars_of(b);
    if ac.len() != bc.len() {
        return false;
    }
    let mut i: usize = 0;
    while i < ac.len()
        invariant
            ac@ == a@,
            bc@ == b@,
            ac@.len() == bc@.len(),
            i <= ac@.len(),
            forall|j: int| 0 <= j < i ==> ac@[j] == bc@[j],
        decreases ac@.len() - i,
    {
        if ac[i] != bc[i] {
            return false;
        }
        i = i + 1;
    }
    assert(ac@ =~= bc@);
    true
}

fn single_byte(s: &str) -> (r: bool)
    ensures
        r == (byte_len(s@) == 1),
{
    has_min_bytes(s, 1) && !has_min_bytes(s, 2)
}

fn ascii_upper_of(c: char) -> (r: u32)
    ensures
        r == ascii_upper(c),
{
    if 'a' <= c && c <= 'z' {
        c as u32 - 32
    } else {
        c as u32
    }
}

/// The key code that a key name stands for.
pub fn name_to_vk(name: &str) -> (vk: u32)
    ensures
        vk == vk_of_name(name@),
{
    let cs = chars_of(name);
    proof {
        if byte_len(name@) == 1 {
            lemma_byte_len_ge_len(name@);
            if name@.len() == 0 {
                assert(encode_utf8(name@) =~= Seq::<u8>::empty());
            }
        }
    }
    if cs.len() == 3 && cs[0] == 'T' && cs[1] == 'a' && cs[2] == 'b' {
        return 0x09;
    }
    if cs.len() == 5 && cs[0] == 'E' && cs[1] == 'n' && cs[2] == 't' && cs[3] == 'e' && cs[4] == 'r' {
        return 0x0D;
    }
    if cs.len() == 5 && cs[0] == 'S' && cs[1] == 'p' && cs[2] == 'a' && cs[3] == 'c' && cs[4] == 'e' {
        return 0x20;
    }
    if cs.len() == 9 && cs[0] == 'B' && cs[1] == 'a' && cs[2] == 'c' && cs[3] == 'k' && cs[4] == 's' && cs[5] == 'p' && cs[6] == 'a' && cs[7] == 'c' && cs[8] == 'e' {
        return 0x08;
    }
    if cs.len() == 6 && cs[0] == 'E' && cs[1] == 's' && cs[2] == 'c' && cs[3] == 'a' && cs[4] == 'p' && cs[5] == 'e' {
        return 0x1B;
    }
    if cs.len() == 3 && cs[0] == 'E' && cs[1] == 's' && cs[2] == 'c' {
        return 0x1B;
    }
    if cs.len() == 8 && cs[0] == 'C' && cs[1] == 'a' && cs[2] == 'p' && cs[3] == 's' && cs[4] == 'L' && cs[5] == 'o' && cs[6] == 'c' && cs[7] == 'k' {
        return 0x14;
    }
    if cs.len() == 6 && cs[0] == 'I' && cs[1] == 'n' && cs[2] == 's' && cs[3] == 'e' && cs[4] == 'r' && cs[5] == 't' {
        return 0x2D;
    }
    if cs.len() == 6 && cs[0] == 'D' && cs[1] == 'e' && cs[2] == 'l' && cs[3] == 'e' && cs[4] == 't' && cs[5] == 'e' {
        return 0x2E;
    }
    if cs.len() == 3 && cs[0] == 'D' && cs[1] == 'e' && cs[2] == 'l' {
        return 0x2E;
    }
    if cs.len() == 4 && cs[0] == 'H' && cs[1] == 'o' && cs[2] == 'm' && cs[3] == 'e' {
        return 0x24;
    }
    if cs.len() == 3 && cs[0] == 'E' && cs[1] == 'n' && cs[2] == 'd' {
        return 0x23;
    }
    if cs.len() == 6 && cs[0] == 'P' && cs[1] == 'a' && cs[2] == 'g' && cs[3] == 'e' && cs[4] == 'U' && cs[5] == 'p' {
        return 0x21;
    }
    if cs.len() == 8 && cs[0] == 'P' && cs[1] == 'a' && cs[2] == 'g' && cs[3] == 'e' && cs[4] == 'D' && cs[5] == 'o' && cs[6] == 'w' && cs[7] == 'n' {
        return 0x22;
    }
    if cs.len() == 4 && cs[0] == 'L' && cs[1] == 'e' && cs[2] == 'f' && cs[3] == 't' {
        return 0x25;
    }
    if cs.len() == 11 && cs[0] == 'R' && cs[1] == 'i' && cs[2] == 'g' && cs[3] == 'h' && cs[4] == 't' && cs[5] == ' ' && cs[6] == 'A' && cs[7] == 'r' && cs[8] == 'r' && cs[9] == 'o' && cs[10] == 'w' {
        return 0x25;
    }
    if cs.len() == 5 && cs[0] == 'R' && cs[1] == 'i' && cs[2] == 'g' && cs[3] == 'h' && cs[4] == 't' {
        return 0x27;
    }
    if cs.len() == 2 && cs[0] == 'U' && cs[1] == 'p' {
        return 0x26;
    }
    if cs.len() == 4 && cs[0] == 'D' && cs[1] == 'o' && cs[2] == 'w' && cs[3] == 'n' {
        return 0x28;
    }
    if cs.len() == 2 && cs[0] == 'F' && cs[1] == '1' {
        return 0x70;
    }
    if cs.len() == 2 && cs[0] == 'F' && cs[1] == '2' {
        return 0x71;
    }
    if cs.len() == 2 && cs[0] == 'F' && cs[1] == '3' {
        return 0x72;
    }
    if cs.len() == 2 && cs[0] == 'F' && cs[1] == '4' {
        return 0x73;
    }
    if cs.len() == 2 && cs[0] == 'F' && cs[1] == '5' {
        return 0x74;
    }
    if cs.len() == 2 && cs[0] == 'F' && cs[1] == '6' {
        return 0x75;
    }
    if cs.len() == 2 && cs[0] == 'F' && cs[1] == '7' {
        return 0x76;
    }
    if cs.len() == 2 && cs[0] == 'F' && cs[1] == '8' {
        return 0x77;
    }
    if cs.len() == 2 && cs[0] == 'F' && cs[1] == '9' {
        return 0x78;
    }
    if cs.len() == 3 && cs[0] == 'F' && cs[1] == '1' && cs[2] == '0' {
        return 0x79;
    }
    if cs.len() == 3 && cs[0] == 'F' && cs[1] == '1' && cs[2] == '1' {
        return 0x7A;
    }
    if cs.len() == 3 && cs[0] == 'F' && cs[1] == '1' && cs[2] == '2' {
        return 0x7B;
    }
    if cs.len() == 5 && cs[0] == 'R' && cs[1] == 'C' && cs[2] == 't' && cs[3] == 'r' && cs[4] == 'l' {
        return 0xA3;
    }
    if cs.len() == 5 && cs[0] == 'L' && cs[1] == 'C' && cs[2] == 't' && cs[3] == 'r' && cs[4] == 'l' {
        return 0xA2;
    }
    if cs.len() == 4 && cs[0] == 'R' && cs[1] == 'A' && cs[2] == 'l' && cs[3] == 't' {
        return 0xA5;
    }
    if cs.len() == 4 && cs[0] == 'L' && cs[1] == 'A' && cs[2] == 'l' && cs[3] == 't' {
        return 0xA4;
    }
    if cs.len() == 6 && cs[0] == 'R' && cs[1] == 'S' && cs[2] == 'h' && cs[3] == 'i' && cs[4] == 'f' && cs[5] == 't' {
        return 0xA1;
    }
    if cs.len() == 6 && cs[0] == 'L' && cs[1] == 'S' && cs[2] == 'h' && cs[3] == 'i' && cs[4] == 'f' && cs[5] == 't' {
        return 0xA0;
    }
    if cs.len() == 1 && cs[0] == ';' {
        return 0xBA;
    }
    if cs.len() == 1 && cs[0] == '=' {
        return 0xBB;
    }
    if cs.len() == 1 && cs[0] == ',' {
        return 0xBC;
    }
    if cs.len() == 1 && cs[0] == '-' {
        return 0xBD;
    }
    if cs.len() == 1 && cs[0] == '.' {
        return 0xBE;
    }
    if cs.len() == 1 && cs[0] == '/' {
        return 0xBF;
    }
    if cs.len() == 1 && cs[0] == '`' {
        return 0xC0;
    }
    if cs.len() == 1 && cs[0] == '\u{5B}' {
        return 0xDB;
    }
    if cs.len() == 1 && cs[0] == '\u{5C}' {
        return 0xDC;
    }
    if cs.len() == 1 && cs[0] == '\u{5D}' {
        return 0xDD;
    }
    if cs.len() == 1 && cs[0] == '\u{27}' {
        return 0xDE;
    }
    if single_byte(name) {
        ascii_upper_of(cs[0])
    } else {
        VK_TAB
    }
}

fn hex_digit_of(d: u32) -> (c: char)
    requires
        d < 16,
    ensures
        c == hex_digit(d),
{
    if d < 10 {
        ((d as u8) + 48) as char
    } else {
        ((d as u8) + 55) as char
    }
}

fn push_hex(out: &mut Vec<char>, v: u32)
    ensures
        final(out)@ == old(out)@ + hex_digits(v),
    decreases v,
{
    if v >= 16 {
        push_hex(out, v / 16);
    }
    out.push(hex_digit_of(v % 16));
    proof {
        if v >= 16 {
            assert(final(out)@ =~= old(out)@ + hex_digits(v));
        } else {
            assert(final(out)@ =~= old(out)@ + hex_digits(v));
        }
    }
}

/// The name a key code is shown by.
pub fn vk_to_name(vk: u32) -> (name: String)
    ensures
        name@ == name_of_vk(vk),
{
    proof {
        reveal_strlit("Tab");
        assert("Tab"@ =~= seq!['T', 'a', 'b']);
        reveal_strlit("Enter");
        assert("Enter"@ =~= seq!['E', 'n', 't', 'e', 'r']);
        reveal_strlit("Space");
        assert("Space"@ =~= seq!['S', 'p', 'a', 'c', 'e']);
        reveal_strlit("Backspace");
        assert("Backspace"@ =~= seq!['B', 'a', 'c', 'k', 's', 'p', 'a', 'c', 'e']);
        reveal_strlit("Escape");
        assert("Escape"@ =~= seq!['E', 's', 'c', 'a', 'p', 'e']);
        reveal_strlit("CapsLock");
        assert("CapsLock"@ =~= seq!['C', 'a', 'p', 's', 'L', 'o', 'c', 'k']);
        reveal_strlit("Insert");
        assert("Insert"@ =~= seq!['I', 'n', 's', 'e', 'r', 't']);
        reveal_strlit("Delete");
        assert("Delete"@ =~= seq!['D', 'e', 'l', 'e', 't', 'e']);
        reveal_strlit("Home");
        assert("Home"@ =~= seq!['H', 'o', 'm', 'e']);
        reveal_strlit("End");
        assert("End"@ =~= seq!['E', 'n', 'd']);
        reveal_strlit("PageUp");
        assert("PageUp"@ =~= seq!['P', 'a', 'g', 'e', 'U', 'p']);
        reveal_strlit("PageDown");
        assert("PageDown"@ =~= seq!['P', 'a', 'g', 'e', 'D', 'o', 'w', 'n']);
        reveal_strlit("Left");
        assert("Left"@ =~= seq!['L', 'e', 'f', 't']);
        reveal_strlit("Right");
        assert("Right"@ =~= seq!['R', 'i', 'g', 'h', 't']);
        reveal_strlit("Up");
        assert("Up"@ =~= seq!['U', 'p']);
        reveal_strlit("Down");
        assert("Down"@ =~= seq!['D', 'o', 'w', 'n']);
        reveal_strlit("F1");
        assert("F1"@ =~= seq!['F', '1']);
        reveal_strlit("F2");
        assert("F2"@ =~= seq!['F', '2']);
        reveal_strlit("F3");
        assert("F3"@ =~= seq!['F', '3']);
        reveal_strlit("F4");
        assert("F4"@ =~= seq!['F', '4']);
        reveal_strlit("F5");
        assert("F5"@ =~= seq!['F', '5']);
        reveal_strlit("F6");
        assert("F6"@ =~= seq!['F', '6']);
        reveal_strlit("F7");
        assert("F7"@ =~= seq!['F', '7']);
        reveal_strlit("F8");
        assert("F8"@ =~= seq!['F', '8']);
        reveal_strlit("F9");
        assert("F9"@ =~= seq!['F', '9']);
        reveal_strlit("F10");
        assert("F10"@ =~= seq!['F', '1', '0']);
        reveal_strlit("F11");
        assert("F11"@ =~= seq!['F', '1', '1']);
        reveal_strlit("F12");
        assert("F12"@ =~= seq!['F', '1', '2']);
        reveal_strlit("RCtrl");
        assert("RCtrl"@ =~= seq!['R', 'C', 't', 'r', 'l']);
        reveal_strlit("LCtrl");
        assert("LCtrl"@ =~= seq!['L', 'C', 't', 'r', 'l']);
        reveal_strlit("RAlt");
        assert("RAlt"@ =~= seq!['R', 'A', 'l', 't']);
        reveal_strlit("LAlt");
        assert("LAlt"@ =~= seq!['L', 'A', 'l', 't']);
        reveal_strlit("RShift");
        assert("RShift"@ =~= seq!['R', 'S', 'h', 'i', 'f', 't']);
        reveal_strlit("LShift");
        assert("LShift"@ =~= seq!['L', 'S', 'h', 'i', 'f', 't']);
        reveal_strlit(";");
        assert(";"@ =~= seq![';']);
        reveal_strlit("=");
        assert("="@ =~= seq!['=']);
        reveal_strlit(",");
        assert(","@ =~= seq![',']);
        reveal_strlit("-");
        assert("-"@ =~= seq!['-']);
        reveal_strlit(".");
        assert("."@ =~= seq!['.']);
        reveal_strlit("/");
        assert("/"@ =~= seq!['/']);
        reveal_strlit("`");
        assert("`"@ =~= seq!['`']);
        reveal_strlit("\u{5B}");
        assert("\u{5B}"@ =~= seq!['\u{5B}']);
        reveal_strlit("\u{5C}");
        assert("\u{5C}"@ =~= seq!['\u{5C}']);
        reveal_strlit("\u{5D}");
        assert("\u{5D}"@ =~= seq!['\u{5D}']);
        reveal_strlit("\u{27}");
        assert("\u{27}"@ =~= seq!['\u{27}']);
    }
    if vk == 0x09 {
        return "Tab".to_owned();
    }
    if vk == 0x0D {
        return "Enter".to_owned();
    }
    if vk == 0x20 {
        return "Space".to_owned();
    }
    if vk == 0x08 {
        return "Backspace".to_owned();
    }
    if vk == 0x1B {
        return "Escape".to_owned();
    }
    if vk == 0x14 {
        return "CapsLock".to_owned();
    }
    if vk == 0x2D {
        return "Insert".to_owned();
    }
    if vk == 0x2E {
        return "Delete".to_owned();
    }
    if vk == 0x24 {
        return "Home".to_owned();
    }
    if vk == 0x23 {
        return "End".to_owned();
    }
    if vk == 0x21 {
        return "PageUp".to_owned();
    }
    if vk == 0x22 {
        return "PageDown".to_owned();
    }
    if vk == 0x25 {
        return "Left".to_owned();
    }
    if vk == 0x27 {
        return "Right".to_owned();
    }
    if vk == 0x26 {
        return "Up".to_owned();
    }
    if vk == 0x28 {
        return "Down".to_owned();
    }
    if vk == 0x70 {
        return "F1".to_owned();
    }
    if vk == 0x71 {
        return "F2".to_owned();
    }
    if vk == 0x72 {
        return "F3".to_owned();
    }
    if vk == 0x73 {
        return "F4".to_owned();
    }
    if vk == 0x74 {
        return "F5".to_owned();
    }
    if vk == 0x75 {
        return "F6".to_owned();
    }
    if vk == 0x76 {
        return "F7".to_owned();
    }
    if vk == 0x77 {
        return "F8".to_owned();
    }
    if vk == 0x78 {
        return "F9".to_owned();
    }
    if vk == 0x79 {
        return "F10".to_owned();
    }
    if vk == 0x7A {
        return "F11".to_owned();
    }
    if vk == 0x7B {
        return "F12".to_owned();
    }
    if vk == 0xA3 {
        return "RCtrl".to_owned();
    }
    if vk == 0xA2 {
        return "LCtrl".to_owned();
    }
    if vk == 0xA5 {
        return "RAlt".to_owned();
    }
    if vk == 0xA4 {
        return "LAlt".to_owned();
    }
    if vk == 0xA1 {
        return "RShift".to_owned();
    }
    if vk == 0xA0 {
        return "LShift".to_owned();
    }
    if vk == 0xBA {
        return ";".to_owned();
    }
    if vk == 0xBB {
        return "=".to_owned();
    }
    if vk == 0xBC {
        return ",".to_owned();
    }
    if vk == 0xBD {
        return "-".to_owned();
    }
    if vk == 0xBE {
        return ".".to_owned();
    }
    if vk == 0xBF {
        return "/".to_owned();
    }
    if vk == 0xC0 {
        return "`".to_owned();
    }
    if vk == 0xDB {
        return "\u{5B}".to_owned();
    }
    if vk == 0xDC {
        return "\u{5C}".to_owned();
    }
    if vk == 0xDD {
        return "\u{5D}".to_owned();
    }
    if vk == 0xDE {
        return "\u{27}".to_owned();
    }
    if (0x41 <= vk && vk <= 0x5A) || (0x30 <= vk && vk <= 0x39) {
        let mut v: Vec<char> = Vec::new();
        v.push((vk as u8) as char);
        proof {
            assert(v@ =~= seq![(vk as u8) as char]);
        }
        return string_of(v.as_slice());
    } else {
        let mut v: Vec<char> = Vec::new();
        v.push('V');
        v.push('K');
        v.push('0');
        v.push('x');
        if vk < 16 {
            v.push('0');
            v.push(hex_digit_of(vk));
        } else {
            push_hex(&mut v, vk);
        }
        proof {
            assert(v@ =~= seq!['V', 'K', '0', 'x'] + padded_hex(vk));
        }
        return string_of(v.as_slice());
    }
}

/// Whether `vk` is a Ctrl, Shift, Alt or Windows key.
pub fn is_modifier_key(vk: u32) -> (r: bool)
    ensures
        r == (vk == VK_CONTROL || vk == VK_LCONTROL || vk == VK_RCONTROL || vk == VK_SHIFT || vk
            == VK_LSHIFT || vk == VK_RSHIFT || vk == VK_MENU || vk == VK_LMENU || vk == VK_RMENU
            || vk == VK_LWIN || vk == VK_RWIN),
{
    vk == VK_CONTROL || vk == VK_LCONTROL || vk == VK_RCONTROL || vk == VK_SHIFT || vk
        == VK_LSHIFT || vk == VK_RSHIFT || vk == VK_MENU || vk == VK_LMENU || vk == VK_RMENU || vk
        == VK_LWIN || vk == VK_RWIN
}

/// The word for the Ctrl modifier in a key binding.
pub open spec fn ctrl_name() -> Seq<char> {
    seq!['C', 't', 'r', 'l']
}

/// The word for the Shift modifier in a key binding.
pub open spec fn shift_name() -> Seq<char> {
    seq!['S', 'h', 'i', 'f', 't']
}

/// The word for the Alt modifier in a key binding.
pub open spec fn alt_name() -> Seq<char> {
    seq!['A', 'l', 't']
}

/// `m` and a `+` when `on`, else nothing.
pub open spec fn modifier_part(on: bool, m: Seq<char>) -> Seq<char> {
    if on {
        m.push('+')
    } else {
        Seq::empty()
    }
}

/// The text of a key binding: the held modifiers, each followed by `+`, then
/// the key's name (such as `Ctrl+Shift+Space`).
pub open spec fn key_string(vk: u32, ctrl: bool, shift: bool, alt: bool) -> Seq<char> {
    modifier_part(ctrl, ctrl_name()) + modifier_part(shift, shift_name()) + modifier_part(
        alt,
        alt_name(),
    ) + name_of_vk(vk)
}

fn push_all(out: &mut Vec<char>, s: &str)
    ensures
        final(out)@ == old(out)@ + s@,
{
    let cs = chars_of(s);
    let mut i: usize = 0;
    while i < cs.len()
        invariant
            i <= cs@.len(),
            cs@ == s@,
            out@ == old(out)@ + cs@.take(i as int),
        decreases cs@.len() - i,
    {
        out.push(cs[i]);
        i = i + 1;
        proof {
            assert(out@ =~= old(out)@ + cs@.take(i as int));
        }
    }
    proof {
        assert(cs@.take(cs@.len() as int) =~= cs@);
    }
}

/// The text of the binding of key `vk` with the given modifiers held.
pub fn build_key_string(vk: u32, ctrl: bool, shift: bool, alt: bool) -> (s: String)
    ensures
        s@ == key_string(vk, ctrl, shift, alt),
{
    let mut out: Vec<char> = Vec::new();
    let ghost e = out@;
    if ctrl {
        out.push('C');
        out.push('t');
        out.push('r');
        out.push('l');
        out.push('+');
    }
    proof {
        assert(out@ =~= modifier_part(ctrl, ctrl_name()));
    }
    let ghost o1 = out@;
    if shift {
        out.push('S');
        out.push('h');
        out.push('i');
        out.push('f');
        out.push('t');
        out.push('+');
    }
    proof {
        assert(out@ =~= o1 + modifier_part(shift, shift_name()));
    }
    let ghost o2 = out@;
    if alt {
        out.push('A');
        out.push('l');
        out.push('t');
        out.push('+');
    }
    proof {
        assert(out@ =~= o2 + modifier_part(alt, alt_name()));
    }
    let name = vk_to_name(vk);
    push_all(&mut out, name.as_str());
    string_of(out.as_slice())
}

/// `s` cut at every `+`.
pub open spec fn split_plus(s: Seq<char>) -> Seq<Seq<char>>
    decreases s.len(),
{
    if s.len() == 0 {
        seq![Seq::empty()]
    } else {
        let r = split_plus(s.drop_last());
        if s.last() == '+' {
            r.push(Seq::empty())
        } else {
            r.update(r.len() - 1, r.last().push(s.last()))
        }
    }
}

/// The binding that an accept-key text names: the key code of its last
/// `+`-separated part, and whether `Ctrl`, `Shift` or `Alt` is among the
/// other parts (each part trimmed).
pub open spec fn accept_key_of(s: Seq<char>) -> (u32, bool, bool, bool) {
    let parts = split_plus(s).map_values(|p: Seq<char>| trim(p));
    let mods = parts.drop_last();
    (
        vk_of_name(parts.last()),
        mods.contains(ctrl_name()),
        mods.contains(shift_name()),
        mods.contains(alt_name()),
    )
}

proof fn lemma_contains_push(s: Seq<Seq<char>>, x: Seq<char>, y: Seq<char>)
    ensures
        s.push(x).contains(y) == (s.contains(y) || x == y),
{
    if s.contains(y) {
        let t = s.index_of(y);
        assert(s.push(x)[t] == y);
    }
    if x == y {
        assert(s.push(x)[s.len() as int] == y);
    }
    if s.push(x).contains(y) && x != y {
        let t = s.push(x).index_of(y);
        assert(s[t] == y);
    }
}

/// Splitting at `+` gives at least one part.
pub proof fn lemma_split_plus_len(s: Seq<char>)
    ensures
        split_plus(s).len() >= 1,
    decreases s.len(),
{
    if s.len() > 0 {
        lemma_split_plus_len(s.drop_last());
    }
}

fn chars_eq_name(a: &Vec<char>, b: &str) -> (r: bool)
    ensures
        r == (a@ == b@),
{
    let bc = chars_of(b);
    if a.len() != bc.len() {
        return false;
    }
    let mut i: usize = 0;
    while i < a.len()
        invariant
            bc@ == b@,
            a@.len() == bc@.len(),
            i <= a@.len(),
            forall|j: int| 0 <= j < i ==> a@[j] == bc@[j],
        decreases a@.len() - i,
    {
        if a[i] != bc[i] {
            return false;
        }
        i = i + 1;
    }
    assert(a@ =~= bc@);
    true
}

/// Reads an accept-key text such as `Ctrl+Space`, `Tab`, `Alt+X` or `RCtrl`
/// as `(key code, needs Ctrl, needs Shift, needs Alt)`.
pub fn parse_accept_key(s: &str) -> (r: (u32, bool, bool, bool))
    ensures
        r == accept_key_of(s@),
{
    let cs = chars_of(s);
    let mut parts: Vec<Vec<char>> = Vec::new();
    let mut cur: Vec<char> = Vec::new();
    let mut i: usize = 0;
    proof {
        assert(cs@.take(0) =~= Seq::<char>::empty());
        assert(parts@.map_values(|v: Vec<char>| v@).push(cur@) =~= split_plus(cs@.take(0)));
    }
    while i < cs.len()
        invariant
            cs@ == s@,
            i <= cs@.len(),
            parts@.map_values(|v: Vec<char>| v@).push(cur@) == split_plus(cs@.take(i as int)),
        decreases cs@.len() - i,
    {
        let c = cs[i];
        let ghost pv = parts@.map_values(|v: Vec<char>| v@);
        let ghost old_cur = cur@;
        proof {
            assert(cs@.take(i + 1).drop_last() =~= cs@.take(i as int));
            lemma_split_plus_len(cs@.take(i as int));
        }
        if c == '+' {
            let done = cur;
            parts.push(done);
            cur = Vec::new();
            proof {
                assert(parts@.map_values(|v: Vec<char>| v@).push(cur@) =~= pv.push(old_cur).push(
                    Seq::empty(),
                ));
            }
        } else {
            cur.push(c);
            proof {
                assert(parts@.map_values(|v: Vec<char>| v@).push(cur@) =~= pv.push(old_cur).update(
                    pv.len() as int,
                    old_cur.push(c),
                ));
            }
        }
        i = i + 1;
    }
    proof {
        assert(cs@.take(cs@.len() as int) =~= cs@);
    }
    parts.push(cur);
    let ghost sp = split_plus(s@);
    let ghost tp = sp.map_values(|p: Seq<char>| trim(p));
    proof {
        assert(parts@.map_values(|v: Vec<char>| v@) =~= sp);
        lemma_split_plus_len(s@);
    }
    let n = parts.len();
    let mut ctrl = false;
    let mut shift = false;
    let mut alt = false;
    let mut k: usize = 0;
    while k + 1 < n
        invariant
            n == parts@.len(),
            n >= 1,
            parts@.map_values(|v: Vec<char>| v@) == sp,
            tp == sp.map_values(|p: Seq<char>| trim(p)),
            k + 1 <= n,
            ctrl == tp.take(k as int).contains(ctrl_name()),
            shift == tp.take(k as int).contains(shift_name()),
            alt == tp.take(k as int).contains(alt_name()),
        decreases n - k,
    {
        let t = trim_chars(&parts[k]);
        proof {
            assert(t@ == tp[k as int]);
            reveal_strlit("Ctrl");
            reveal_strlit("Shift");
            reveal_strlit("Alt");
            assert("Ctrl"@ =~= ctrl_name());
            assert("Shift"@ =~= shift_name());
            assert("Alt"@ =~= alt_name());
            assert(tp.take(k + 1) =~= tp.take(k as int).push(tp[k as int]));
            lemma_contains_push(tp.take(k as int), tp[k as int], ctrl_name());
            lemma_contains_push(tp.take(k as int), tp[k as int], shift_name());
            lemma_contains_push(tp.take(k as int), tp[k as int], alt_name());
        }
        if chars_eq_name(&t, "Ctrl") {
            ctrl = true;
        }
        if chars_eq_name(&t, "Shift") {
            shift = true;
        }
        if chars_eq_name(&t, "Alt") {
            alt = true;
        }
        k = k + 1;
    }
    proof {
        assert(tp.take(k as int) =~= tp.drop_last());
    }
    let last = trim_chars(&parts[n - 1]);
    let key = string_of(last.as_slice());
    (name_to_vk(key.as_str()), ctrl, shift, alt)
}

proof fn lemma_ascii_byte_len(c: char)
    requires
        (c as u32) < 0x80,
    ensures
        byte_len(seq![c]) == 1,
{
    assert(seq![c].drop_first() =~= Seq::<char>::empty());
    assert(encode_utf8(Seq::<char>::empty()) =~= Seq::<u8>::empty());
}

/// A key's shown name reads back as the same key.
pub proof fn law_key_name_roundtrip(v: u32)
    requires
        is_named_key(v),
    ensures
        vk_of_name(name_of_vk(v)) == v,
{
    if (0x41 <= v && v <= 0x5A) || (0x30 <= v && v <= 0x39) {
        let c = (v as u8) as char;
        assert(c as u32 == v);
        lemma_ascii_byte_len(c);
        assert(known_name(v) is None);
        assert(known_vk(seq![c]) is None);
    }
    if v == 0x09 {
        assert(known_vk(seq!['T', 'a', 'b']) == Some(0x09u32));
    }
    if v == 0x0D {
        assert(known_vk(seq!['E', 'n', 't', 'e', 'r']) == Some(0x0Du32));
    }
    if v == 0x20 {
        assert(known_vk(seq!['S', 'p', 'a', 'c', 'e']) == Some(0x20u32));
    }
    if v == 0x08 {
        assert(known_vk(seq!['B', 'a', 'c', 'k', 's', 'p', 'a', 'c', 'e']) == Some(0x08u32));
    }
    if v == 0x1B {
        assert(known_vk(seq!['E', 's', 'c', 'a', 'p', 'e']) == Some(0x1Bu32));
    }
    if v == 0x14 {
        assert(known_vk(seq!['C', 'a', 'p', 's', 'L', 'o', 'c', 'k']) == Some(0x14u32));
    }
    if v == 0x2D {
        assert(known_vk(seq!['I', 'n', 's', 'e', 'r', 't']) == Some(0x2Du32));
    }
    if v == 0x2E {
        assert(known_vk(seq!['D', 'e', 'l', 'e', 't', 'e']) == Some(0x2Eu32));
    }
    if v == 0x24 {
        assert(known_vk(seq!['H', 'o', 'm', 'e']) == Some(0x24u32));
    }
    if v == 0x23 {
        assert(known_vk(seq!['E', 'n', 'd']) == Some(0x23u32));
    }
    if v == 0x21 {
        assert(known_vk(seq!['P', 'a', 'g', 'e', 'U', 'p']) == Some(0x21u32));
    }
    if v == 0x22 {
        assert(known_vk(seq!['P', 'a', 'g', 'e', 'D', 'o', 'w', 'n']) == Some(0x22u32));
    }
    if v == 0x25 {
        assert(known_vk(seq!['L', 'e', 'f', 't']) == Some(0x25u32));
    }
    if v == 0x27 {
        assert(known_vk(seq!['R', 'i', 'g', 'h', 't']) == Some(0x27u32));
    }
    if v == 0x26 {
        assert(known_vk(seq!['U', 'p']) == Some(0x26u32));
    }
    if v == 0x28 {
        assert(known_vk(seq!['D', 'o', 'w', 'n']) == Some(0x28u32));
    }
    if v == 0x70 {
        assert(known_vk(seq!['F', '1']) == Some(0x70u32));
    }
    if v == 0x71 {
        assert(known_vk(seq!['F', '2']) == Some(0x71u32));
    }
    if v == 0x72 {
        assert(known_vk(seq!['F', '3']) == Some(0x72u32));
    }
    if v == 0x73 {
        assert(known_vk(seq!['F', '4']) == Some(0x73u32));
    }
    if v == 0x74 {
        assert(known_vk(seq!['F', '5']) == Some(0x74u32));
    }
    if v == 0x75 {
        assert(known_vk(seq!['F', '6']) == Some(0x75u32));
    }
    if v == 0x76 {
        assert(known_vk(seq!['F', '7']) == Some(0x76u32));
    }
    if v == 0x77 {
        assert(known_vk(seq!['F', '8']) == Some(0x77u32));
    }
    if v == 0x78 {
        assert(known_vk(seq!['F', '9']) == Some(0x78u32));
    }
    if v == 0x79 {
        assert(known_vk(seq!['F', '1', '0']) == Some(0x79u32));
    }
    if v == 0x7A {
        assert(known_vk(seq!['F', '1', '1']) == Some(0x7Au32));
    }
    if v == 0x7B {
        assert(known_vk(seq!['F', '1', '2']) == Some(0x7Bu32));
    }
    if v == 0xA3 {
        assert(known_vk(seq!['R', 'C', 't', 'r', 'l']) == Some(0xA3u32));
    }
    if v == 0xA2 {
        assert(known_vk(seq!['L', 'C', 't', 'r', 'l']) == Some(0xA2u32));
    }
    if v == 0xA5 {
        assert(known_vk(seq!['R', 'A', 'l', 't']) == Some(0xA5u32));
    }
    if v == 0xA4 {
        assert(known_vk(seq!['L', 'A', 'l', 't']) == Some(0xA4u32));
    }
    if v == 0xA1 {
        assert(known_vk(seq!['R', 'S', 'h', 'i', 'f', 't']) == Some(0xA1u32));
    }
    if v == 0xA0 {
        assert(known_vk(seq!['L', 'S', 'h', 'i', 'f', 't']) == Some(0xA0u32));
    }
    if v == 0xBA {
        assert(known_vk(seq![';']) == Some(0xBAu32));
    }
    if v == 0xBB {
        assert(known_vk(seq!['=']) == Some(0xBBu32));
    }
    if v == 0xBC {
        assert(known_vk(seq![',']) == Some(0xBCu32));
    }
    if v == 0xBD {
        assert(known_vk(seq!['-']) == Some(0xBDu32));
    }
    if v == 0xBE {
        assert(known_vk(seq!['.']) == Some(0xBEu32));
    }
    if v == 0xBF {
        assert(known_vk(seq!['/']) == Some(0xBFu32));
    }
    if v == 0xC0 {
        assert(known_vk(seq!['`']) == Some(0xC0u32));
    }
    if v == 0xDB {
        assert(known_vk(seq!['\u{5B}']) == Some(0xDBu32));
    }
    if v == 0xDC {
        assert(known_vk(seq!['\u{5C}']) == Some(0xDCu32));
    }
    if v == 0xDD {
        assert(known_vk(seq!['\u{5D}']) == Some(0xDDu32));
    }
    if v == 0xDE {
        assert(known_vk(seq!['\u{27}']) == Some(0xDEu32));
    }
}

/// `x` is not empty, holds no `+`, and neither starts nor ends with white
/// space.
pub open spec fn plain_name(x: Seq<char>) -> bool {
    &&& x.len() > 0
    &&& !is_white_space(x[0])
    &&& !is_white_space(x.last())
    &&& forall|i: int| 0 <= i < x.len() ==> x[i] != '+'
}

proof fn lemma_name_plain(v: u32)
    requires
        is_named_key(v),
    ensures
        plain_name(name_of_vk(v)),
{
    if (0x41 <= v && v <= 0x5A) || (0x30 <= v && v <= 0x39) {
        assert(known_name(v) is None);
    }
    if v == 0x09 {
        assert(name_of_vk(v) == seq!['T', 'a', 'b']);
        assert(plain_name(seq!['T', 'a', 'b']));
    }
    if v == 0x0D {
        assert(name_of_vk(v) == seq!['E', 'n', 't', 'e', 'r']);
        assert(plain_name(seq!['E', 'n', 't', 'e', 'r']));
    }
    if v == 0x20 {
        assert(name_of_vk(v) == seq!['S', 'p', 'a', 'c', 'e']);
        assert(plain_name(seq!['S', 'p', 'a', 'c', 'e']));
    }
    if v == 0x08 {
        assert(name_of_vk(v) == seq!['B', 'a', 'c', 'k', 's', 'p', 'a', 'c', 'e']);
        assert(plain_name(seq!['B', 'a', 'c', 'k', 's', 'p', 'a', 'c', 'e']));
    }
    if v == 0x1B {
        assert(name_of_vk(v) == seq!['E', 's', 'c', 'a', 'p', 'e']);
        assert(plain_name(seq!['E', 's', 'c', 'a', 'p', 'e']));
    }
    if v == 0x14 {
        assert(name_of_vk(v) == seq!['C', 'a', 'p', 's', 'L', 'o', 'c', 'k']);
        assert(plain_name(seq!['C', 'a', 'p', 's', 'L', 'o', 'c', 'k']));
    }
    if v == 0x2D {
        assert(name_of_vk(v) == seq!['I', 'n', 's', 'e', 'r', 't']);
        assert(plain_name(seq!['I', 'n', 's', 'e', 'r', 't']));
    }
    if v == 0x2E {
        assert(name_of_vk(v) == seq!['D', 'e', 'l', 'e', 't', 'e']);
        assert(plain_name(seq!['D', 'e', 'l', 'e', 't', 'e']));
    }
    if v == 0x24 {
        assert(name_of_vk(v) == seq!['H', 'o', 'm', 'e']);
        assert(plain_name(seq!['H', 'o', 'm', 'e']));
    }
    if v == 0x23 {
        assert(name_of_vk(v) == seq!['E', 'n', 'd']);
        assert(plain_name(seq!['E', 'n', 'd']));
    }
    if v == 0x21 {
        assert(name_of_vk(v) == seq!['P', 'a', 'g', 'e', 'U', 'p']);
        assert(plain_name(seq!['P', 'a', 'g', 'e', 'U', 'p']));
    }
    if v == 0x22 {
        assert(name_of_vk(v) == seq!['P', 'a', 'g', 'e', 'D', 'o', 'w', 'n']);
        assert(plain_name(seq!['P', 'a', 'g', 'e', 'D', 'o', 'w', 'n']));
    }
    if v == 0x25 {
        assert(name_of_vk(v) == seq!['L', 'e', 'f', 't']);
        assert(plain_name(seq!['L', 'e', 'f', 't']));
    }
    if v == 0x27 {
        assert(name_of_vk(v) == seq!['R', 'i', 'g', 'h', 't']);
        assert(plain_name(seq!['R', 'i', 'g', 'h', 't']));
    }
    if v == 0x26 {
        assert(name_of_vk(v) == seq!['U', 'p']);
        assert(plain_name(seq!['U', 'p']));
    }
    if v == 0x28 {
        assert(name_of_vk(v) == seq!['D', 'o', 'w', 'n']);
        assert(plain_name(seq!['D', 'o', 'w', 'n']));
    }
    if v == 0x70 {
        assert(name_of_vk(v) == seq!['F', '1']);
        assert(plain_name(seq!['F', '1']));
    }
    if v == 0x71 {
        assert(name_of_vk(v) == seq!['F', '2']);
        assert(plain_name(seq!['F', '2']));
    }
    if v == 0x72 {
        assert(name_of_vk(v) == seq!['F', '3']);
        assert(plain_name(seq!['F', '3']));
    }
    if v == 0x73 {
        assert(name_of_vk(v) == seq!['F', '4']);
        assert(plain_name(seq!['F', '4']));
    }
    if v == 0x74 {
        assert(name_of_vk(v) == seq!['F', '5']);
        assert(plain_name(seq!['F', '5']));
    }
    if v == 0x75 {
        assert(name_of_vk(v) == seq!['F', '6']);
        assert(plain_name(seq!['F', '6']));
    }
    if v == 0x76 {
        assert(name_of_vk(v) == seq!['F', '7']);
        assert(plain_name(seq!['F', '7']));
    }
    if v == 0x77 {
        assert(name_of_vk(v) == seq!['F', '8']);
        assert(plain_name(seq!['F', '8']));
    }
    if v == 0x78 {
        assert(name_of_vk(v) == seq!['F', '9']);
        assert(plain_name(seq!['F', '9']));
    }
    if v == 0x79 {
        assert(name_of_vk(v) == seq!['F', '1', '0']);
        assert(plain_name(seq!['F', '1', '0']));
    }
    if v == 0x7A {
        assert(name_of_vk(v) == seq!['F', '1', '1']);
        assert(plain_name(seq!['F', '1', '1']));
    }
    if v == 0x7B {
        assert(name_of_vk(v) == seq!['F', '1', '2']);
        assert(plain_name(seq!['F', '1', '2']));
    }
    if v == 0xA3 {
        assert(name_of_vk(v) == seq!['R', 'C', 't', 'r', 'l']);
        assert(plain_name(seq!['R', 'C', 't', 'r', 'l']));
    }
    if v == 0xA2 {
        assert(name_of_vk(v) == seq!['L', 'C', 't', 'r', 'l']);
        assert(plain_name(seq!['L', 'C', 't', 'r', 'l']));
    }
    if v == 0xA5 {
        assert(name_of_vk(v) == seq!['R', 'A', 'l', 't']);
        assert(plain_name(seq!['R', 'A', 'l', 't']));
    }
    if v == 0xA4 {
        assert(name_of_vk(v) == seq!['L', 'A', 'l', 't']);
        assert(plain_name(seq!['L', 'A', 'l', 't']));
    }
    if v == 0xA1 {
        assert(name_of_vk(v) == seq!['R', 'S', 'h', 'i', 'f', 't']);
        assert(plain_name(seq!['R', 'S', 'h', 'i', 'f', 't']));
    }
    if v == 0xA0 {
        assert(name_of_vk(v) == seq!['L', 'S', 'h', 'i', 'f', 't']);
        assert(plain_name(seq!['L', 'S', 'h', 'i', 'f', 't']));
    }
    if v == 0xBA {
        assert(name_of_vk(v) == seq![';']);
        assert(plain_name(seq![';']));
    }
    if v == 0xBB {
        assert(name_of_vk(v) == seq!['=']);
        assert(plain_name(seq!['=']));
    }
    if v == 0xBC {
        assert(name_of_vk(v) == seq![',']);
        assert(plain_name(seq![',']));
    }
    if v == 0xBD {
        assert(name_of_vk(v) == seq!['-']);
        assert(plain_name(seq!['-']));
    }
    if v == 0xBE {
        assert(name_of_vk(v) == seq!['.']);
        assert(plain_name(seq!['.']));
    }
    if v == 0xBF {
        assert(name_of_vk(v) == seq!['/']);
        assert(plain_name(seq!['/']));
    }
    if v == 0xC0 {
        assert(name_of_vk(v) == seq!['`']);
        assert(plain_name(seq!['`']));
    }
    if v == 0xDB {
        assert(name_of_vk(v) == seq!['\u{5B}']);
        assert(plain_name(seq!['\u{5B}']));
    }
    if v == 0xDC {
        assert(name_of_vk(v) == seq!['\u{5C}']);
        assert(plain_name(seq!['\u{5C}']));
    }
    if v == 0xDD {
        assert(name_of_vk(v) == seq!['\u{5D}']);
        assert(plain_name(seq!['\u{5D}']));
    }
    if v == 0xDE {
        assert(name_of_vk(v) == seq!['\u{27}']);
        assert(plain_name(seq!['\u{27}']));
    }
}

proof fn lemma_split_no_plus(x: Seq<char>)
    requires
        forall|i: int| 0 <= i < x.len() ==> x[i] != '+',
    ensures
        split_plus(x) == seq![x],
    decreases x.len(),
{
    if x.len() > 0 {
        lemma_split_no_plus(x.drop_last());
        assert(x.last() == x[x.len() - 1]);
        assert(x.drop_last().push(x.last()) =~= x);
        assert(seq![x.drop_last()].update(0, x.drop_last().push(x.last())) =~= seq![x]);
    } else {
        assert(x =~= Seq::<char>::empty());
    }
}

proof fn lemma_split_concat(x: Seq<char>, y: Seq<char>)
    ensures
        split_plus(x.push('+') + y) == split_plus(x) + split_plus(y),
    decreases y.len(),
{
    lemma_split_plus_len(x);
    lemma_split_plus_len(y);
    if y.len() == 0 {
        assert(x.push('+') + y =~= x.push('+'));
        assert(x.push('+').drop_last() =~= x);
        assert(split_plus(x).push(Seq::empty()) =~= split_plus(x) + seq![Seq::<char>::empty()]);
    } else {
        let z = x.push('+') + y;
        assert(z.drop_last() =~= x.push('+') + y.drop_last());
        assert(z.last() == y.last());
        lemma_split_concat(x, y.drop_last());
        lemma_split_plus_len(y.drop_last());
        let a = split_plus(x);
        let b = split_plus(y.drop_last());
        if y.last() == '+' {
            assert((a + b).push(Seq::empty()) =~= a + b.push(Seq::empty()));
        } else {
            assert((a + b).update((a + b).len() - 1, (a + b).last().push(y.last())) =~= a + b.update(
                b.len() - 1,
                b.last().push(y.last()),
            ));
        }
    }
}

proof fn lemma_trim_plain(x: Seq<char>)
    requires
        x.len() > 0,
        !is_white_space(x[0]),
        !is_white_space(x.last()),
    ensures
        trim(x) == x,
{
    assert(leading_ws(x) == 0);
    assert(x.skip(0) =~= x);
    assert(trailing_ws(x) == 0);
    assert(x.take(x.len() as int) =~= x);
}

/// The `+`-separated parts of a binding's text: the held modifiers, then
/// the key's name.
pub open spec fn binding_parts(vk: u32, ctrl: bool, shift: bool, alt: bool) -> Seq<Seq<char>> {
    (if ctrl {
        seq![ctrl_name()]
    } else {
        Seq::empty()
    }) + (if shift {
        seq![shift_name()]
    } else {
        Seq::empty()
    }) + (if alt {
        seq![alt_name()]
    } else {
        Seq::empty()
    }) + seq![name_of_vk(vk)]
}

proof fn lemma_modifier_split(on: bool, m: Seq<char>, rest: Seq<char>)
    requires
        forall|i: int| 0 <= i < m.len() ==> m[i] != '+',
    ensures
        split_plus(modifier_part(on, m) + rest) == (if on {
            seq![m]
        } else {
            Seq::empty()
        }) + split_plus(rest),
{
    if on {
        lemma_split_concat(m, rest);
        lemma_split_no_plus(m);
    } else {
        assert(modifier_part(on, m) + rest =~= rest);
        assert(Seq::<Seq<char>>::empty() + split_plus(rest) =~= split_plus(rest));
    }
}

/// The text of a binding (as a captured key press is written down) reads
/// back as the same key with the same modifiers.
pub proof fn law_rebind_roundtrip(vk: u32, ctrl: bool, shift: bool, alt: bool)
    requires
        is_named_key(vk),
    ensures
        accept_key_of(key_string(vk, ctrl, shift, alt)) == (vk, ctrl, shift, alt),
{
    let name = name_of_vk(vk);
    lemma_name_plain(vk);
    law_key_name_roundtrip(vk);
    let m1 = modifier_part(ctrl, ctrl_name());
    let m2 = modifier_part(shift, shift_name());
    let m3 = modifier_part(alt, alt_name());
    assert(key_string(vk, ctrl, shift, alt) =~= m1 + (m2 + (m3 + name)));
    lemma_split_no_plus(name);
    lemma_modifier_split(alt, alt_name(), name);
    lemma_modifier_split(shift, shift_name(), m3 + name);
    lemma_modifier_split(ctrl, ctrl_name(), m2 + (m3 + name));
    let parts = binding_parts(vk, ctrl, shift, alt);
    let c1: Seq<Seq<char>> = if ctrl { seq![ctrl_name()] } else { Seq::empty() };
    let c2: Seq<Seq<char>> = if shift { seq![shift_name()] } else { Seq::empty() };
    let c3: Seq<Seq<char>> = if alt { seq![alt_name()] } else { Seq::empty() };
    assert(split_plus(key_string(vk, ctrl, shift, alt)) =~= parts);
    lemma_trim_plain(ctrl_name());
    lemma_trim_plain(shift_name());
    lemma_trim_plain(alt_name());
    lemma_trim_plain(name);
    let tp = parts.map_values(|p: Seq<char>| trim(p));
    assert(tp =~= parts);
    let mods = c1 + c2 + c3;
    assert(parts.drop_last() =~= mods);
    assert(parts.last() == name);
    assert(mods.contains(ctrl_name()) == ctrl) by {
        if ctrl {
            assert(mods[0] == ctrl_name());
        }
        if mods.contains(ctrl_name()) {
            let t = mods.index_of(ctrl_name());
            assert(mods[t] == ctrl_name());
        }
    }
    assert(mods.contains(shift_name()) == shift) by {
        if shift {
            assert(mods[c1.len() as int] == shift_name());
        }
        if mods.contains(shift_name()) {
            let t = mods.index_of(shift_name());
            assert(mods[t] == shift_name());
        }
    }
    assert(mods.contains(alt_name()) == alt) by {
        if alt {
            assert(mods[(c1.len() + c2.len()) as int] == alt_name());
        }
        if mods.contains(alt_name()) {
            let t = mods.index_of(alt_name());
            assert(mods[t] == alt_name());
        }
    }
}

/// Number of `#` characters that `s` starts with.
pub open spec fn leading_hashes(s: Seq<char>) -> nat
    decreases s.len(),
{
    if s.len() > 0 && s[0] == '#' {
        1 + leading_hashes(s.drop_first())
    } else {
        0
    }
}

/// The characters of `s` that take its first `k` bytes, if `k` falls
/// between two characters.
pub open spec fn is_byte_boundary(s: Seq<char>, k: nat) -> bool {
    exists|j: int| 0 <= j <= s.len() && byte_len(s.take(j)) == k
}

/// How many characters take the first `k` bytes of `s`.
pub open spec fn chars_in_bytes(s: Seq<char>, k: nat) -> int {
    choose|j: int| 0 <= j <= s.len() && byte_len(s.take(j)) == k
}

/// The value of a hexadecimal digit.
pub open spec fn hex_value(c: char) -> Option<u32> {
    if '0' <= c && c <= '9' {
        Some((c as u32 - '0' as u32) as u32)
    } else if 'a' <= c && c <= 'f' {
        Some((c as u32 - 'a' as u32 + 10) as u32)
    } else if 'A' <= c && c <= 'F' {
        Some((c as u32 - 'A' as u32 + 10) as u32)
    } else {
        None
    }
}

/// `u8::from_str_radix(p, 16)` for a text `p` of two bytes: an optional `+`
/// followed by hexadecimal digits.
pub open spec fn parse_hex_pair(p: Seq<char>) -> Option<u8> {
    if p.len() == 2 && p[0] == '+' {
        match hex_value(p[1]) {
            Some(d) => Some(d as u8),
            None => None,
        }
    } else if p.len() == 2 {
        match (hex_value(p[0]), hex_value(p[1])) {
            (Some(a), Some(b)) => Some((16 * a + b) as u8),
            _ => None,
        }
    } else if p.len() == 1 {
        match hex_value(p[0]) {
            Some(d) => Some(d as u8),
            None => None,
        }
    } else {
        None
    }
}

/// A channel's value, 160 where it does not parse.
pub open spec fn channel_or_default(o: Option<u8>) -> u8 {
    match o {
        Some(v) => v,
        None => 160,
    }
}

/// The colour a setting such as `#C8C8E0` names: after any leading `#`,
/// six bytes read as three hexadecimal channels (160 for a channel that does
/// not parse), else grey `(160, 160, 160)`.
pub open spec fn color_of(s: Seq<char>) -> (u8, u8, u8) {
    let h = s.skip(leading_hashes(s) as int);
    if byte_len(h) == 6 {
        let a = chars_in_bytes(h, 2);
        let b = chars_in_bytes(h, 4);
        (
            channel_or_default(parse_hex_pair(h.subrange(0, a))),
            channel_or_default(parse_hex_pair(h.subrange(a, b))),
            channel_or_default(parse_hex_pair(h.subrange(b, h.len() as int))),
        )
    } else {
        (160, 160, 160)
    }
}

/// A colour text that six bytes follow the `#` of does not split a character
/// at a channel's edge.
pub open spec fn color_text_ok(s: Seq<char>) -> bool {
    let h = s.skip(leading_hashes(s) as int);
    byte_len(h) == 6 ==> is_byte_boundary(h, 2) && is_byte_boundary(h, 4)
}

proof fn lemma_byte_len_take_strict(s: Seq<char>, i: int, j: int)
    requires
        0 <= i < j <= s.len(),
    ensures
        byte_len(s.take(i)) < byte_len(s.take(j)),
    decreases j - i,
{
    assert(s.take(j) =~= s.take(j - 1).push(s[j - 1]));
    crate::text::lemma_byte_len_push(s.take(j - 1), s[j - 1]);
    if i < j - 1 {
        lemma_byte_len_take_strict(s, i, j - 1);
    }
}

proof fn lemma_chars_in_bytes(s: Seq<char>, k: nat, j: int)
    requires
        0 <= j <= s.len(),
        byte_len(s.take(j)) == k,
    ensures
        chars_in_bytes(s, k) == j,
{
    let c = chars_in_bytes(s, k);
    if c < j {
        lemma_byte_len_take_strict(s, c, j);
    } else if c > j {
        lemma_byte_len_take_strict(s, j, c);
    }
}

fn hex_value_of(c: char) -> (r: Option<u32>)
    ensures
        r == hex_value(c),
{
    if '0' <= c && c <= '9' {
        Some(c as u32 - '0' as u32)
    } else if 'a' <= c && c <= 'f' {
        Some(c as u32 - 'a' as u32 + 10)
    } else if 'A' <= c && c <= 'F' {
        Some(c as u32 - 'A' as u32 + 10)
    } else {
        None
    }
}

fn parse_hex_pair_of(p: &Vec<char>, from: usize, to: usize) -> (r: u8)
    requires
        from <= to <= p@.len(),
    ensures
        r == channel_or_default(parse_hex_pair(p@.subrange(from as int, to as int))),
{
    let ghost q = p@.subrange(from as int, to as int);
    if to - from == 2 && p[from] == '+' {
        match hex_value_of(p[from + 1]) {
            Some(d) => d as u8,
            None => 160,
        }
    } else if to - from == 2 {
        match (hex_value_of(p[from]), hex_value_of(p[from + 1])) {
            (Some(a), Some(b)) => (16 * a + b) as u8,
            _ => 160,
        }
    } else if to - from == 1 {
        match hex_value_of(p[from]) {
            Some(d) => d as u8,
            None => 160,
        }
    } else {
        160
    }
}

/// Reads a colour setting such as `#C8C8E0` as `(r, g, b)`.
pub fn parse_hex_color(s: &str) -> (rgb: (u8, u8, u8))
    requires
        color_text_ok(s@),
    ensures
        rgb == color_of(s@),
{
    let cs = chars_of(s);
    let mut start: usize = 0;
    assert(cs@.skip(0) =~= cs@);
    while start < cs.len() && cs[start] == '#'
        invariant
            start <= cs@.len(),
            cs@ == s@,
            leading_hashes(s@) == start + leading_hashes(cs@.skip(start as int)),
        decreases cs@.len() - start,
    {
        proof {
            assert(cs@.skip(start as int).drop_first() =~= cs@.skip(start + 1));
        }
        start = start + 1;
    }
    proof {
        assert(leading_hashes(cs@.skip(start as int)) == 0);
    }
    let mut h: Vec<char> = Vec::new();
    let mut i: usize = start;
    while i < cs.len()
        invariant
            start <= i <= cs@.len(),
            h@ == cs@.subrange(start as int, i as int),
        decreases cs@.len() - i,
    {
        h.push(cs[i]);
        i = i + 1;
        proof {
            assert(h@ =~= cs@.subrange(start as int, i as int));
        }
    }
    proof {
        assert(h@ =~= s@.skip(leading_hashes(s@) as int));
    }
    let hs = string_of(h.as_slice());
    if !(has_min_bytes(hs.as_str(), 6) && !has_min_bytes(hs.as_str(), 7)) {
        return (160, 160, 160);
    }
    // positions of the second and fourth byte edges
    let mut acc: usize = 0;
    let mut k: usize = 0;
    let mut a: usize = 0;
    let mut b: usize = 0;
    let mut found_a = false;
    let mut found_b = false;
    while k < h.len()
        invariant
            k <= h@.len(),
            acc == byte_len(h@.take(k as int)),
            acc <= 6,
            byte_len(h@) == 6,
            found_a ==> a <= h@.len() && byte_len(h@.take(a as int)) == 2,
            found_b ==> b <= h@.len() && byte_len(h@.take(b as int)) == 4,
            !found_a ==> forall|j: int| 0 <= j <= k ==> byte_len(#[trigger] h@.take(j)) != 2,
            !found_b ==> forall|j: int| 0 <= j <= k ==> byte_len(#[trigger] h@.take(j)) != 4,
        decreases h@.len() - k,
    {
        proof {
            crate::text::lemma_byte_len_push(h@.take(k as int), h@[k as int]);
            assert(h@.take(k + 1) =~= h@.take(k as int).push(h@[k as int]));
            if k + 1 < h@.len() {
                lemma_byte_len_take_strict(h@, k + 1, h@.len() as int);
            }
            assert(h@.take(h@.len() as int) =~= h@);
        }
        acc = acc + crate::text::char_byte_len(h[k]);
        k = k + 1;
        if acc == 2 {
            a = k;
            found_a = true;
        }
        if acc == 4 {
            b = k;
            found_b = true;
        }
    }
    proof {
        if !found_a || !found_b {
            let hh = h@;
            if !found_a {
                let j = choose|j: int| 0 <= j <= hh.len() && byte_len(hh.take(j)) == 2;
                assert(byte_len(hh.take(j)) != 2);
            } else {
                let j = choose|j: int| 0 <= j <= hh.len() && byte_len(hh.take(j)) == 4;
                assert(byte_len(hh.take(j)) != 4);
            }
        }
        lemma_chars_in_bytes(h@, 2, a as int);
        lemma_chars_in_bytes(h@, 4, b as int);
        if b < a {
            lemma_byte_len_take_strict(h@, b as int, a as int);
        }
    }
    (parse_hex_pair_of(&h, 0, a), parse_hex_pair_of(&h, a, b), parse_hex_pair_of(&h, b, h.len()))
}

/// The lower-case hexadecimal digit of `d` (below 16).
pub open spec fn hex_digit_lower(d: u32) -> char {
    if d < 10 {
        hex_digit(d)
    } else if d == 10 {
        'a'
    } else if d == 11 {
        'b'
    } else if d == 12 {
        'c'
    } else if d == 13 {
        'd'
    } else if d == 14 {
        'e'
    } else {
        'f'
    }
}

/// `v` written as two hexadecimal digits, in upper or lower case.
pub open spec fn hex_pair(v: u8, upper: bool) -> Seq<char> {
    let hi = (v / 16) as u32;
    let lo = (v % 16) as u32;
    if upper {
        seq![hex_digit(hi), hex_digit(lo)]
    } else {
        seq![hex_digit_lower(hi), hex_digit_lower(lo)]
    }
}

proof fn lemma_hex_digit_reads_back(d: u32, upper: bool)
    requires
        d < 16,
    ensures
        ({
            let c = if upper {
                hex_digit(d)
            } else {
                hex_digit_lower(d)
            };
            &&& (c as u32) < 0x80
            &&& c != '#'
            &&& c != '+'
            &&& hex_value(c) == Some(d)
        }),
{
}

proof fn lemma_ascii_prefix_bytes(s: Seq<char>)
    requires
        forall|i: int| 0 <= i < s.len() ==> (s[i] as u32) < 0x80,
    ensures
        forall|j: int| 0 <= j <= s.len() ==> #[trigger] byte_len(s.take(j)) == j,
    decreases s.len(),
{
    if s.len() > 0 {
        let d = s.drop_last();
        lemma_ascii_prefix_bytes(d);
        assert forall|j: int| 0 <= j <= s.len() implies #[trigger] byte_len(s.take(j)) == j by {
            if j < s.len() {
                assert(s.take(j) =~= d.take(j));
            } else {
                assert(s.take(j) =~= d.take(d.len() as int).push(s.last()));
                crate::text::lemma_byte_len_push(d.take(d.len() as int), s.last());
                lemma_ascii_byte_len(s.last());
                crate::text::lemma_byte_len_push(Seq::<char>::empty(), s.last());
                assert(Seq::<char>::empty().push(s.last()) =~= seq![s.last()]);
                assert(byte_len(Seq::<char>::empty()) == 0) by {
                    assert(encode_utf8(Seq::<char>::empty()) =~= Seq::<u8>::empty());
                }
            }
        }
    }
}

proof fn lemma_hex_pair_reads_back(v: u8, upper: bool)
    ensures
        hex_pair(v, upper).len() == 2,
        forall|i: int| 0 <= i < 2 ==> (#[trigger] hex_pair(v, upper)[i] as u32) < 0x80,
        hex_pair(v, upper)[0] != '#',
        parse_hex_pair(hex_pair(v, upper)) == Some(v),
{
    let hi = (v / 16) as u32;
    let lo = (v % 16) as u32;
    lemma_hex_digit_reads_back(hi, upper);
    lemma_hex_digit_reads_back(lo, upper);
    assert(16 * hi + lo == v);
}

/// A colour written as `#` and two hexadecimal digits per channel, in upper
/// or lower case (as the settings window writes it), reads back as the same
/// channels, and is a text the colour reader accepts.
pub proof fn law_hex_color_roundtrip(r: u8, g: u8, b: u8, upper: bool)
    ensures
        color_text_ok(seq!['#'] + hex_pair(r, upper) + hex_pair(g, upper) + hex_pair(b, upper)),
        color_of(seq!['#'] + hex_pair(r, upper) + hex_pair(g, upper) + hex_pair(b, upper)) == (
            r,
            g,
            b,
        ),
{
    let pr = hex_pair(r, upper);
    let pg = hex_pair(g, upper);
    let pb = hex_pair(b, upper);
    lemma_hex_pair_reads_back(r, upper);
    lemma_hex_pair_reads_back(g, upper);
    lemma_hex_pair_reads_back(b, upper);
    let h = pr + pg + pb;
    let s = seq!['#'] + pr + pg + pb;
    assert(s =~= seq!['#'] + h);
    assert(s.drop_first() =~= h);
    assert(leading_hashes(h) == 0);
    assert(leading_hashes(s) == 1);
    assert(s.skip(1) =~= h);
    assert forall|i: int| 0 <= i < h.len() implies (h[i] as u32) < 0x80 by {
        if i < 2 {
            assert(h[i] == pr[i]);
        } else if i < 4 {
            assert(h[i] == pg[i - 2]);
        } else {
            assert(h[i] == pb[i - 4]);
        }
    }
    lemma_ascii_prefix_bytes(h);
    assert(h.take(6) =~= h);
    assert(byte_len(h.take(2)) == 2);
    assert(byte_len(h.take(4)) == 4);
    assert(byte_len(h.take(6)) == 6);
    lemma_chars_in_bytes(h, 2, 2);
    lemma_chars_in_bytes(h, 4, 4);
    assert(h.subrange(0, 2) =~= pr);
    assert(h.subrange(2, 4) =~= pg);
    assert(h.subrange(4, 6) =~= pb);
}

} // verus!
