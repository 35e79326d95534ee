//! Case folding for registry anchors: Unicode simple case folding, so that
//! regman and the registry agree on what "the same key" means.
//!
//! The mapping covers the simple foldings (statuses C and S) of the Unicode
//! character database this table was built from; a code point without a
//! folding maps to itself.
use crate::text::{char_from_u32, is_scalar_value, string_from_chars};
use vstd::prelude::*;

verus! {

/// The simple case folding of a code point; one without a folding maps to
/// itself.
pub open spec fn fold_code(x: u32) -> u32 {
    if 0x41 <= x && x <= 0x5A {
        (x + 0x20) as u32
    } else if x == 0xB5 {
        (x + 0x307) as u32
    } else if 0xC0 <= x && x <= 0xD6 {
        (x + 0x20) as u32
    } else if 0xD8 <= x && x <= 0xDE {
        (x + 0x20) as u32
    } else if 0x100 <= x && x <= 0x12E && x % 2 == 0x0 {
        (x + 0x1) as u32
    } else if 0x132 <= x && x <= 0x136 && x % 2 == 0x0 {
        (x + 0x1) as u32
    } else if 0x139 <= x && x <= 0x147 && x % 2 == 0x1 {
        (x + 0x1) as u32
    } else if 0x14A <= x && x <= 0x176 && x % 2 == 0x0 {
        (x + 0x1) as u32
    } else if x == 0x178 {
        (x - 0x79) as u32
    } else if 0x179 <= x && x <= 0x17D && x % 2 == 0x1 {
        (x + 0x1) as u32
    } else if x == 0x17F {
        (x - 0x10C) as u32
    } else if x == 0x181 {
        (x + 0xD2) as u32
    } else if 0x182 <= x && x <= 0x184 && x % 2 == 0x0 {
        (x + 0x1) as u32
    } else if x == 0x186 {
        (x + 0xCE) as u32
    } else if x == 0x187 {
        (x + 0x1) as u32
    } else if 0x189 <= x && x <= 0x18A {
        (x + 0xCD) as u32
    } else if x == 0x18B {
        (x + 0x1) as u32
    } else if x == 0x18E {
        (x + 0x4F) as u32
    } else if x == 0x18F {
        (x + 0xCA) as u32
    } else if x == 0x190 {
        (x + 0xCB) as u32
    } else if x == 0x191 {
        (x + 0x1) as u32
    } else if x == 0x193 {
        (x + 0xCD) as u32
    } else if x == 0x194 {
        (x + 0xCF) as u32
    } else if x == 0x196 {
        (x + 0xD3) as u32
    } else if x == 0x197 {
        (x + 0xD1) as u32
    } else if x == 0x198 {
        (x + 0x1) as u32
    } else if x == 0x19C {
        (x + 0xD3) as u32
    } else if x == 0x19D {
        (x + 0xD5) as u32
    } else if x == 0x19F {
        (x + 0xD6) as u32
    } else if 0x1A0 <= x && x <= 0x1A4 && x % 2 == 0x0 {
        (x + 0x1) as u32
    } else if x == 0x1A6 {
        (x + 0xDA) as u32
    } else if x == 0x1A7 {
        (x + 0x1) as u32
    } else if x == 0x1A9 {
        (x + 0xDA) as u32
    } else if x == 0x1AC {
        (x + 0x1) as u32
    } else if x == 0x1AE {
        (x + 0xDA) as u32
    } else if x == 0x1AF {
        (x + 0x1) as u32
    } else if 0x1B1 <= x && x <= 0x1B2 {
        (x + 0xD9) as u32
    } else if 0x1B3 <= x && x <= 0x1B5 && x % 2 == 0x1 {
        (x + 0x1) as u32
    } else if x == 0x1B7 {
        (x + 0xDB) as u32
    } else if x == 0x1B8 {
        (x + 0x1) as u32
    } else if x == 0x1BC {
        (x + 0x1) as u32
    } else if x == 0x1C4 {
        (x + 0x2) as u32
    } else if x == 0x1C5 {
        (x + 0x1) as u32
    } else if x == 0x1C7 {
        (x + 0x2) as u32
    } else if x == 0x1C8 {
        (x + 0x1) as u32
    } else if x == 0x1CA {
        (x + 0x2) as u32
    } else if 0x1CB <= x && x <= 0x1DB && x % 2 == 0x1 {
        (x + 0x1) as u32
    } else if 0x1DE <= x && x <= 0x1EE && x % 2 == 0x0 {
        (x + 0x1) as u32
    } else if x == 0x1F1 {
        (x + 0x2) as u32
    } else if 0x1F2 <= x && x <= 0x1F4 && x % 2 == 0x0 {
        (x + 0x1) as u32
    } else if x == 0x1F6 {
        (x - 0x61) as u32
    } else if x == 0x1F7 {
        (x - 0x38) as u32
    } else if 0x1F8 <= x && x <= 0x21E && x % 2 == 0x0 {
        (x + 0x1) as u32
    } else if x == 0x220 {
        (x - 0x82) as u32
    } else if 0x222 <= x && x <= 0x232 && x % 2 == 0x0 {
        (x + 0x1) as u32
    } else if x == 0x23A {
        (x + 0x2A2B) as u32
    } else if x == 0x23B {
        (x + 0x1) as u32
    } else if x == 0x23D {
        (x - 0xA3) as u32
    } else if x == 0x23E {
        (x + 0x2A28) as u32
    } else if x == 0x241 {
        (x + 0x1) as u32
    } else if x == 0x243 {
        (x - 0xC3) as u32
    } else if x == 0x244 {
        (x + 0x45) as u32
    } else if x == 0x245 {
        (x + 0x47) as u32
    } else if 0x246 <= x && x <= 0x24E && x % 2 == 0x0 {
        (x + 0x1) as u32
    } else if x == 0x345 {
        (x + 0x74) as u32
    } else if 0x370 <= x && x <= 0x372 && x % 2 == 0x0 {
        (x + 0x1) as u32
    } else if x == 0x376 {
        (x + 0x1) as u32
    } else if x == 0x37F {
        (x + 0x74) as u32
    } else if x == 0x386 {
        (x + 0x26) as u32
    } else if 0x388 <= x && x <= 0x38A {
        (x + 0x25) as u32
    } else if x == 0x38C {
        (x + 0x40) as u32
    } else if 0x38E <= x && x <= 0x38F {
        (x + 0x3F) as u32
    } else if 0x391 <= x && x <= 0x3A1 {
        (x + 0x20) as u32
    } else if 0x3A3 <= x && x <= 0x3AB {
        (x + 0x20) as u32
    } else if x == 0x3C2 {
        (x + 0x1) as u32
    } else if x == 0x3CF {
        (x + 0x8) as u32
    } else if x == 0x3D0 {
        (x - 0x1E) as u32
    } else if x == 0x3D1 {
        (x - 0x19) as u32
    } else if x == 0x3D5 {
        (x - 0xF) as u32
    } else if x == 0x3D6 {
        (x - 0x16) as u32
    } else if 0x3D8 <= x && x <= 0x3EE && x % 2 == 0x0 {
        (x + 0x1) as u32
    } else if x == 0x3F0 {
        (x - 0x36) as u32
    } else if x == 0x3F1 {
        (x - 0x30) as u32
    } else if x == 0x3F4 {
        (x - 0x3C) as u32
    } else if x == 0x3F5 {
        (x - 0x40) as u32
    } else if x == 0x3F7 {
        (x + 0x1) as u32
    } else if x == 0x3F9 {
        (x - 0x7) as u32
    } else if x == 0x3FA {
        (x + 0x1) as u32
    } else if 0x3FD <= x && x <= 0x3FF {
        (x - 0x82) as u32
    } else if 0x400 <= x && x <= 0x40F {
        (x + 0x50) as u32
    } else if 0x410 <= x && x <= 0x42F {
        (x + 0x20) as u32
    } else if 0x460 <= x && x <= 0x480 && x % 2 == 0x0 {
        (x + 0x1) as u32
    } else if 0x48A <= x && x <= 0x4BE && x % 2 == 0x0 {
        (x + 0x1) as u32
    } else if x == 0x4C0 {
        (x + 0xF) as u32
    } else if 0x4C1 <= x && x <= 0x4CD && x % 2 == 0x1 {
        (x + 0x1) as u32
    } else if 0x4D0 <= x && x <= 0x52E && x % 2 == 0x0 {
        (x + 0x1) as u32
    } else if 0x531 <= x && x <= 0x556 {
        (x + 0x30) as u32
    } else if 0x10A0 <= x && x <= 0x10C5 {
        (x + 0x1C60) as u32
    } else if x == 0x10C7 {
        (x + 0x1C60) as u32
    } else if x == 0x10CD {
        (x + 0x1C60) as u32
    } else if 0x13F8 <= x && x <= 0x13FD {
        (x - 0x8) as u32
    } else if x == 0x1C80 {
        (x - 0x184E) as u32
    } else if x == 0x1C81 {
        (x - 0x184D) as u32
    } else if x == 0x1C82 {
        (x - 0x1844) as u32
    } else if 0x1C83 <= x && x <= 0x1C84 {
        (x - 0x1842) as u32
    } else if x == 0x1C85 {
        (x - 0x1843) as u32
    } else if x == 0x1C86 {
        (x - 0x183C) as u32
    } else if x == 0x1C87 {
        (x - 0x1824) as u32
    } else if x == 0x1C88 {
        (x + 0x89C3) as u32
    } else if 0x1C90 <= x && x <= 0x1CBA {
        (x - 0xBC0) as u32
    } else if 0x1CBD <= x && x <= 0x1CBF {
        (x - 0xBC0) as u32
    } else if 0x1E00 <= x && x <= 0x1E94 && x % 2 == 0x0 {
        (x + 0x1) as u32
    } else if x == 0x1E9B {
        (x - 0x3A) as u32
    } else if x == 0x1E9E {
        (x - 0x1DBF) as u32
    } else if 0x1EA0 <= x && x <= 0x1EFE && x % 2 == 0x0 {
        (x + 0x1) as u32
    } else if 0x1F08 <= x && x <= 0x1F0F {
        (x - 0x8) as u32
    } else if 0x1F18 <= x && x <= 0x1F1D {
        (x - 0x8) as u32
    } else if 0x1F28 <= x && x <= 0x1F2F {
        (x - 0x8) as u32
    } else if 0x1F38 <= x && x <= 0x1F3F {
        (x - 0x8) as u32
    } else if 0x1F48 <= x && x <= 0x1F4D {
        (x - 0x8) as u32
    } else if 0x1F59 <= x && x <= 0x1F5F && x % 2 == 0x1 {
        (x - 0x8) as u32
    } else if 0x1F68 <= x && x <= 0x1F6F {
        (x - 0x8) as u32
    } else if 0x1F88 <= x && x <= 0x1F8F {
        (x - 0x8) as u32
    } else if 0x1F98 <= x && x <= 0x1F9F {
        (x - 0x8) as u32
    } else if 0x1FA8 <= x && x <= 0x1FAF {
        (x - 0x8) as u32
    } else if 0x1FB8 <= x && x <= 0x1FB9 {
        (x - 0x8) as u32
    } else if 0x1FBA <= x && x <= 0x1FBB {
        (x - 0x4A) as u32
    } else if x == 0x1FBC {
        (x - 0x9) as u32
    } else if x == 0x1FBE {
        (x - 0x1C05) as u32
    } else if 0x1FC8 <= x && x <= 0x1FCB {
        (x - 0x56) as u32
    } else if x == 0x1FCC {
        (x - 0x9) as u32
    } else if 0x1FD8 <= x && x <= 0x1FD9 {
        (x - 0x8) as u32
    } else if 0x1FDA <= x && x <= 0x1FDB {
        (x - 0x64) as u32
    } else if 0x1FE8 <= x && x <= 0x1FE9 {
        (x - 0x8) as u32
    } else if 0x1FEA <= x && x <= 0x1FEB {
        (x - 0x70) as u32
    } else if x == 0x1FEC {
        (x - 0x7) as u32
    } else if 0x1FF8 <= x && x <= 0x1FF9 {
        (x - 0x80) as u32
    } else if 0x1FFA <= x && x <= 0x1FFB {
        (x - 0x7E) as u32
    } else if x == 0x1FFC {
        (x - 0x9) as u32
    } else if x == 0x2126 {
        (x - 0x1D5D) as u32
    } else if x == 0x212A {
        (x - 0x20BF) as u32
    } else if x == 0x212B {
        (x - 0x2046) as u32
    } else if x == 0x2132 {
        (x + 0x1C) as u32
    } else if 0x2160 <= x && x <= 0x216F {
        (x + 0x10) as u32
    } else if x == 0x2183 {
        (x + 0x1) as u32
    } else if 0x24B6 <= x && x <= 0x24CF {
        (x + 0x1A) as u32
    } else if 0x2C00 <= x && x <= 0x2C2F {
        (x + 0x30) as u32
    } else if x == 0x2C60 {
        (x + 0x1) as u32
    } else if x == 0x2C62 {
        (x - 0x29F7) as u32
    } else if x == 0x2C63 {
        (x - 0xEE6) as u32
    } else if x == 0x2C64 {
        (x - 0x29E7) as u32
    } else if 0x2C67 <= x && x <= 0x2C6B && x % 2 == 0x1 {
        (x + 0x1) as u32
    } else if x == 0x2C6D {
        (x - 0x2A1C) as u32
    } else if x == 0x2C6E {
        (x - 0x29FD) as u32
    } else if x == 0x2C6F {
        (x - 0x2A1F) as u32
    } else if x == 0x2C70 {
        (x - 0x2A1E) as u32
    } else if x == 0x2C72 {
        (x + 0x1) as u32
    } else if x == 0x2C75 {
        (x + 0x1) as u32
    } else if 0x2C7E <= x && x <= 0x2C7F {
        (x - 0x2A3F) as u32
    } else if 0x2C80 <= x && x <= 0x2CE2 && x % 2 == 0x0 {
        (x + 0x1) as u32
    } else if 0x2CEB <= x && x <= 0x2CED && x % 2 == 0x1 {
        (x + 0x1) as u32
    } else if x == 0x2CF2 {
        (x + 0x1) as u32
    } else if 0xA640 <= x && x <= 0xA66C && x % 2 == 0x0 {
        (x + 0x1) as u32
    } else if 0xA680 <= x && x <= 0xA69A && x % 2 == 0x0 {
        (x + 0x1) as u32
    } else if 0xA722 <= x && x <= 0xA72E && x % 2 == 0x0 {
        (x + 0x1) as u32
    } else if 0xA732 <= x && x <= 0xA76E && x % 2 == 0x0 {
        (x + 0x1) as u32
    } else if 0xA779 <= x && x <= 0xA77B && x % 2 == 0x1 {
        (x + 0x1) as u32
    } else if x == 0xA77D {
        (x - 0x8A04) as u32
    } else if 0xA77E <= x && x <= 0xA786 && x % 2 == 0x0 {
        (x + 0x1) as u32
    } else if x == 0xA78B {
        (x + 0x1) as u32
    } else if x == 0xA78D {
        (x - 0xA528) as u32
    } else if 0xA790 <= x && x <= 0xA792 && x % 2 == 0x0 {
        (x + 0x1) as u32
    } else if 0xA796 <= x && x <= 0xA7A8 && x % 2 == 0x0 {
        (x + 0x1) as u32
    } else if x == 0xA7AA {
        (x - 0xA544) as u32
    } else if x == 0xA7AB {
        (x - 0xA54F) as u32
    } else if x == 0xA7AC {
        (x - 0xA54B) as u32
    } else if x == 0xA7AD {
        (x - 0xA541) as u32
    } else if x == 0xA7AE {
        (x - 0xA544) as u32
    } else if x == 0xA7B0 {
        (x - 0xA512) as u32
    } else if x == 0xA7B1 {
        (x - 0xA52A) as u32
    } else if x == 0xA7B2 {
        (x - 0xA515) as u32
    } else if x == 0xA7B3 {
        (x + 0x3A0) as u32
    } else if 0xA7B4 <= x && x <= 0xA7C2 && x % 2 == 0x0 {
        (x + 0x1) as u32
    } else if x == 0xA7C4 {
        (x - 0x30) as u32
    } else if x == 0xA7C5 {
        (x - 0xA543) as u32
    } else if x == 0xA7C6 {
        (x - 0x8A38) as u32
    } else if 0xA7C7 <= x && x <= 0xA7C9 && x % 2 == 0x1 {
        (x + 0x1) as u32
    } else if x == 0xA7D0 {
        (x + 0x1) as u32
    } else if 0xA7D6 <= x && x <= 0xA7D8 && x % 2 == 0x0 {
        (x + 0x1) as u32
    } else if x == 0xA7F5 {
        (x + 0x1) as u32
    } else if 0xAB70 <= x && x <= 0xABBF {
        (x - 0x97D0) as u32
    } else if 0xFF21 <= x && x <= 0xFF3A {
        (x + 0x20) as u32
    } else if 0x10400 <= x && x <= 0x10427 {
        (x + 0x28) as u32
    } else if 0x104B0 <= x && x <= 0x104D3 {
        (x + 0x28) as u32
    } else if 0x10570 <= x && x <= 0x1057A {
        (x + 0x27) as u32
    } else if 0x1057C <= x && x <= 0x1058A {
        (x + 0x27) as u32
    } else if 0x1058C <= x && x <= 0x10592 {
        (x + 0x27) as u32
    } else if 0x10594 <= x && x <= 0x10595 {
        (x + 0x27) as u32
    } else if 0x10C80 <= x && x <= 0x10CB2 {
        (x + 0x40) as u32
    } else if 0x118A0 <= x && x <= 0x118BF {
        (x + 0x20) as u32
    } else if 0x16E40 <= x && x <= 0x16E5F {
        (x + 0x20) as u32
    } else if 0x1E900 <= x && x <= 0x1E921 {
        (x + 0x22) as u32
    } else {
        x
    }
}

/// The simple case folding of a character.
pub open spec fn fold_spec(c: char) -> char {
    let m = fold_code(c as u32);
    if is_scalar_value(m) {
        (m as u32) as char
    } else {
        c
    }
}

/// A text with every character folded.
pub open spec fn fold_text(s: Seq<char>) -> Seq<char> {
    s.map_values(|c: char| fold_spec(c))
}

#[verifier::rlimit(100)]
fn fold_code_exec(x: u32) -> (r: u32)
    ensures
        r == fold_code(x),
{
    if 0x41 <= x && x <= 0x5A {
        x + 0x20
    } else if x == 0xB5 {
        x + 0x307
    } else if 0xC0 <= x && x <= 0xD6 {
        x + 0x20
    } else if 0xD8 <= x && x <= 0xDE {
        x + 0x20
    } else if 0x100 <= x && x <= 0x12E && x % 2 == 0x0 {
        x + 0x1
    } else if 0x132 <= x && x <= 0x136 && x % 2 == 0x0 {
        x + 0x1
    } else if 0x139 <= x && x <= 0x147 && x % 2 == 0x1 {
        x + 0x1
    } else if 0x14A <= x && x <= 0x176 && x % 2 == 0x0 {
        x + 0x1
    } else if x == 0x178 {
        x - 0x79
    } else if 0x179 <= x && x <= 0x17D && x % 2 == 0x1 {
        x + 0x1
    } else if x == 0x17F {
        x - 0x10C
    } else if x == 0x181 {
        x + 0xD2
    } else if 0x182 <= x && x <= 0x184 && x % 2 == 0x0 {
        x + 0x1
    } else if x == 0x186 {
        x + 0xCE
    } else if x == 0x187 {
        x + 0x1
    } else if 0x189 <= x && x <= 0x18A {
        x + 0xCD
    } else if x == 0x18B {
        x + 0x1
    } else if x == 0x18E {
        x + 0x4F
    } else if x == 0x18F {
        x + 0xCA
    } else if x == 0x190 {
        x + 0xCB
    } else if x == 0x191 {
        x + 0x1
    } else if x == 0x193 {
        x + 0xCD
    } else if x == 0x194 {
        x + 0xCF
    } else if x == 0x196 {
        x + 0xD3
    } else if x == 0x197 {
        x + 0xD1
    } else if x == 0x198 {
        x + 0x1
    } else if x == 0x19C {
        x + 0xD3
    } else if x == 0x19D {
        x + 0xD5
    } else if x == 0x19F {
        x + 0xD6
    } else if 0x1A0 <= x && x <= 0x1A4 && x % 2 == 0x0 {
        x + 0x1
    } else if x == 0x1A6 {
        x + 0xDA
    } else if x == 0x1A7 {
        x + 0x1
    } else if x == 0x1A9 {
        x + 0xDA
    } else if x == 0x1AC {
        x + 0x1
    } else if x == 0x1AE {
        x + 0xDA
    } else if x == 0x1AF {
        x + 0x1
    } else if 0x1B1 <= x && x <= 0x1B2 {
        x + 0xD9
    } else if 0x1B3 <= x && x <= 0x1B5 && x % 2 == 0x1 {
        x + 0x1
    } else if x == 0x1B7 {
        x + 0xDB
    } else if x == 0x1B8 {
        x + 0x1
    } else if x == 0x1BC {
        x + 0x1
    } else if x == 0x1C4 {
        x + 0x2
    } else if x == 0x1C5 {
        x + 0x1
    } else if x == 0x1C7 {
        x + 0x2
    } else if x == 0x1C8 {
        x + 0x1
    } else if x == 0x1CA {
        x + 0x2
    } else if 0x1CB <= x && x <= 0x1DB && x % 2 == 0x1 {
        x + 0x1
    } else if 0x1DE <= x && x <= 0x1EE && x % 2 == 0x0 {
        x + 0x1
    } else if x == 0x1F1 {
        x + 0x2
    } else if 0x1F2 <= x && x <= 0x1F4 && x % 2 == 0x0 {
        x + 0x1
    } else if x == 0x1F6 {
        x - 0x61
    } else if x == 0x1F7 {
        x - 0x38
    } else if 0x1F8 <= x && x <= 0x21E && x % 2 == 0x0 {
        x + 0x1
    } else if x == 0x220 {
        x - 0x82
    } else if 0x222 <= x && x <= 0x232 && x % 2 == 0x0 {
        x + 0x1
    } else if x == 0x23A {
        x + 0x2A2B
    } else if x == 0x23B {
        x + 0x1
    } else if x == 0x23D {
        x - 0xA3
    } else if x == 0x23E {
        x + 0x2A28
    } else if x == 0x241 {
        x + 0x1
    } else if x == 0x243 {
        x - 0xC3
    } else if x == 0x244 {
        x + 0x45
    } else if x == 0x245 {
        x + 0x47
    } else if 0x246 <= x && x <= 0x24E && x % 2 == 0x0 {
        x + 0x1
    } else if x == 0x345 {
        x + 0x74
    } else if 0x370 <= x && x <= 0x372 && x % 2 == 0x0 {
        x + 0x1
    } else if x == 0x376 {
        x + 0x1
    } else if x == 0x37F {
        x + 0x74
    } else if x == 0x386 {
        x + 0x26
    } else if 0x388 <= x && x <= 0x38A {
        x + 0x25
    } else if x == 0x38C {
        x + 0x40
    } else if 0x38E <= x && x <= 0x38F {
        x + 0x3F
    } else if 0x391 <= x && x <= 0x3A1 {
        x + 0x20
    } else if 0x3A3 <= x && x <= 0x3AB {
        x + 0x20
    } else if x == 0x3C2 {
        x + 0x1
    } else if x == 0x3CF {
        x + 0x8
    } else if x == 0x3D0 {
        x - 0x1E
    } else if x == 0x3D1 {
        x - 0x19
    } else if x == 0x3D5 {
        x - 0xF
    } else if x == 0x3D6 {
        x - 0x16
    } else if 0x3D8 <= x && x <= 0x3EE && x % 2 == 0x0 {
        x + 0x1
    } else if x == 0x3F0 {
        x - 0x36
    } else if x == 0x3F1 {
        x - 0x30
    } else if x == 0x3F4 {
        x - 0x3C
    } else if x == 0x3F5 {
        x - 0x40
    } else if x == 0x3F7 {
        x + 0x1
    } else if x == 0x3F9 {
        x - 0x7
    } else if x == 0x3FA {
        x + 0x1
    } else if 0x3FD <= x && x <= 0x3FF {
        x - 0x82
    } else if 0x400 <= x && x <= 0x40F {
        x + 0x50
    } else if 0x410 <= x && x <= 0x42F {
        x + 0x20
    } else if 0x460 <= x && x <= 0x480 && x % 2 == 0x0 {
        x + 0x1
    } else if 0x48A <= x && x <= 0x4BE && x % 2 == 0x0 {
        x + 0x1
    } else if x == 0x4C0 {
        x + 0xF
    } else if 0x4C1 <= x && x <= 0x4CD && x % 2 == 0x1 {
        x + 0x1
    } else if 0x4D0 <= x && x <= 0x52E && x % 2 == 0x0 {
        x + 0x1
    } else if 0x531 <= x && x <= 0x556 {
        x + 0x30
    } else if 0x10A0 <= x && x <= 0x10C5 {
        x + 0x1C60
    } else if x == 0x10C7 {
        x + 0x1C60
    } else if x == 0x10CD {
        x + 0x1C60
    } else if 0x13F8 <= x && x <= 0x13FD {
        x - 0x8
    } else if x == 0x1C80 {
        x - 0x184E
    } else if x == 0x1C81 {
        x - 0x184D
    } else if x == 0x1C82 {
        x - 0x1844
    } else if 0x1C83 <= x && x <= 0x1C84 {
        x - 0x1842
    } else if x == 0x1C85 {
        x - 0x1843
    } else if x == 0x1C86 {
        x - 0x183C
    } else if x == 0x1C87 {
        x - 0x1824
    } else if x == 0x1C88 {
        x + 0x89C3
    } else if 0x1C90 <= x && x <= 0x1CBA {
        x - 0xBC0
    } else if 0x1CBD <= x && x <= 0x1CBF {
        x - 0xBC0
    } else if 0x1E00 <= x && x <= 0x1E94 && x % 2 == 0x0 {
        x + 0x1
    } else if x == 0x1E9B {
        x - 0x3A
    } else if x == 0x1E9E {
        x - 0x1DBF
    } else if 0x1EA0 <= x && x <= 0x1EFE && x % 2 == 0x0 {
        x + 0x1
    } else if 0x1F08 <= x && x <= 0x1F0F {
        x - 0x8
    } else if 0x1F18 <= x && x <= 0x1F1D {
        x - 0x8
    } else if 0x1F28 <= x && x <= 0x1F2F {
        x - 0x8
    } else if 0x1F38 <= x && x <= 0x1F3F {
        x - 0x8
    } else if 0x1F48 <= x && x <= 0x1F4D {
        x - 0x8
    } else if 0x1F59 <= x && x <= 0x1F5F && x % 2 == 0x1 {
        x - 0x8
    } else if 0x1F68 <= x && x <= 0x1F6F {
        x - 0x8
    } else if 0x1F88 <= x && x <= 0x1F8F {
        x - 0x8
    } else if 0x1F98 <= x && x <= 0x1F9F {
        x - 0x8
    } else if 0x1FA8 <= x && x <= 0x1FAF {
        x - 0x8
    } else if 0x1FB8 <= x && x <= 0x1FB9 {
        x - 0x8
    } else if 0x1FBA <= x && x <= 0x1FBB {
        x - 0x4A
    } else if x == 0x1FBC {
        x - 0x9
    } else if x == 0x1FBE {
        x - 0x1C05
    } else if 0x1FC8 <= x && x <= 0x1FCB {
        x - 0x56
    } else if x == 0x1FCC {
        x - 0x9
    } else if 0x1FD8 <= x && x <= 0x1FD9 {
        x - 0x8
    } else if 0x1FDA <= x && x <= 0x1FDB {
        x - 0x64
    } else if 0x1FE8 <= x && x <= 0x1FE9 {
        x - 0x8
    } else if 0x1FEA <= x && x <= 0x1FEB {
        x - 0x70
    } else if x == 0x1FEC {
        x - 0x7
    } else if 0x1FF8 <= x && x <= 0x1FF9 {
        x - 0x80
    } else if 0x1FFA <= x && x <= 0x1FFB {
        x - 0x7E
    } else if x == 0x1FFC {
        x - 0x9
    } else if x == 0x2126 {
        x - 0x1D5D
    } else if x == 0x212A {
        x - 0x20BF
    } else if x == 0x212B {
        x - 0x2046
    } else if x == 0x2132 {
        x + 0x1C
    } else if 0x2160 <= x && x <= 0x216F {
        x + 0x10
    } else if x == 0x2183 {
        x + 0x1
    } else if 0x24B6 <= x && x <= 0x24CF {
        x + 0x1A
    } else if 0x2C00 <= x && x <= 0x2C2F {
        x + 0x30
    } else if x == 0x2C60 {
        x + 0x1
    } else if x == 0x2C62 {
        x - 0x29F7
    } else if x == 0x2C63 {
        x - 0xEE6
    } else if x == 0x2C64 {
        x - 0x29E7
    } else if 0x2C67 <= x && x <= 0x2C6B && x % 2 == 0x1 {
        x + 0x1
    } else if x == 0x2C6D {
        x - 0x2A1C
    } else if x == 0x2C6E {
        x - 0x29FD
    } else if x == 0x2C6F {
        x - 0x2A1F
    } else if x == 0x2C70 {
        x - 0x2A1E
    } else if x == 0x2C72 {
        x + 0x1
    } else if x == 0x2C75 {
        x + 0x1
    } else if 0x2C7E <= x && x <= 0x2C7F {
        x - 0x2A3F
    } else if 0x2C80 <= x && x <= 0x2CE2 && x % 2 == 0x0 {
        x + 0x1
    } else if 0x2CEB <= x && x <= 0x2CED && x % 2 == 0x1 {
        x + 0x1
    } else if x == 0x2CF2 {
        x + 0x1
    } else if 0xA640 <= x && x <= 0xA66C && x % 2 == 0x0 {
        x + 0x1
    } else if 0xA680 <= x && x <= 0xA69A && x % 2 == 0x0 {
        x + 0x1
    } else if 0xA722 <= x && x <= 0xA72E && x % 2 == 0x0 {
        x + 0x1
    } else if 0xA732 <= x && x <= 0xA76E && x % 2 == 0x0 {
        x + 0x1
    } else if 0xA779 <= x && x <= 0xA77B && x % 2 == 0x1 {
        x + 0x1
    } else if x == 0xA77D {
        x - 0x8A04
    } else if 0xA77E <= x && x <= 0xA786 && x % 2 == 0x0 {
        x + 0x1
    } else if x == 0xA78B {
        x + 0x1
    } else if x == 0xA78D {
        x - 0xA528
    } else if 0xA790 <= x && x <= 0xA792 && x % 2 == 0x0 {
        x + 0x1
    } else if 0xA796 <= x && x <= 0xA7A8 && x % 2 == 0x0 {
        x + 0x1
    } else if x == 0xA7AA {
        x - 0xA544
    } else if x == 0xA7AB {
        x - 0xA54F
    } else if x == 0xA7AC {
        x - 0xA54B
    } else if x == 0xA7AD {
        x - 0xA541
    } else if x == 0xA7AE {
        x - 0xA544
    } else if x == 0xA7B0 {
        x - 0xA512
    } else if x == 0xA7B1 {
        x - 0xA52A
    } else if x == 0xA7B2 {
        x - 0xA515
    } else if x == 0xA7B3 {
        x + 0x3A0
    } else if 0xA7B4 <= x && x <= 0xA7C2 && x % 2 == 0x0 {
        x + 0x1
    } else if x == 0xA7C4 {
        x - 0x30
    } else if x == 0xA7C5 {
        x - 0xA543
    } else if x == 0xA7C6 {
        x - 0x8A38
    } else if 0xA7C7 <= x && x <= 0xA7C9 && x % 2 == 0x1 {
        x + 0x1
    } else if x == 0xA7D0 {
        x + 0x1
    } else if 0xA7D6 <= x && x <= 0xA7D8 && x % 2 == 0x0 {
        x + 0x1
    } else if x == 0xA7F5 {
        x + 0x1
    } else if 0xAB70 <= x && x <= 0xABBF {
        x - 0x97D0
    } else if 0xFF21 <= x && x <= 0xFF3A {
        x + 0x20
    } else if 0x10400 <= x && x <= 0x10427 {
        x + 0x28
    } else if 0x104B0 <= x && x <= 0x104D3 {
        x + 0x28
    } else if 0x10570 <= x && x <= 0x1057A {
        x + 0x27
    } else if 0x1057C <= x && x <= 0x1058A {
        x + 0x27
    } else if 0x1058C <= x && x <= 0x10592 {
        x + 0x27
    } else if 0x10594 <= x && x <= 0x10595 {
        x + 0x27
    } else if 0x10C80 <= x && x <= 0x10CB2 {
        x + 0x40
    } else if 0x118A0 <= x && x <= 0x118BF {
        x + 0x20
    } else if 0x16E40 <= x && x <= 0x16E5F {
        x + 0x20
    } else if 0x1E900 <= x && x <= 0x1E921 {
        x + 0x22
    } else {
        x
    }
}

/// Apply simple case folding to one character.
pub fn fold_char(value: char) -> (r: char)
    ensures
        r == fold_spec(value),
{
    let m = fold_code_exec(value as u32);
    match char_from_u32(m) {
        Some(d) => {
            proof {
                crate::text::lemma_char_of_code(d, m);
            }
            d
        },
        None => value,
    }
}

/// Fold a string to its canonical case-insensitive form.
pub fn fold(s: &str) -> (r: String)
    ensures
        r@ == fold_text(s@),
{
    let mut out: Vec<char> = Vec::new();
    for c in it: s.chars()
        invariant
            it.seq() == s@,
            out@ == fold_text(s@.take(it.index() as int)),
    {
        out.push(fold_char(c));
        assert(fold_text(s@.take(it.index() + 1)) =~= fold_text(s@.take(it.index() as int)).push(
            fold_spec(c),
        ));
    }
    assert(s@.take(s@.len() as int) =~= s@);
    string_from_chars(&out)
}

/// Folding is idempotent: a folded character folds to itself.
#[verifier::rlimit(100)]
pub proof fn lemma_fold_code_idempotent(x: u32)
    ensures
        fold_code(fold_code(x)) == fold_code(x),
{
}

/// Folding a folded text changes nothing.
pub proof fn lemma_fold_idempotent(s: Seq<char>)
    ensures
        fold_text(fold_text(s)) == fold_text(s),
{
    assert forall|i: int| 0 <= i < s.len() implies fold_spec(fold_spec(s[i])) == fold_spec(s[i]) by {
        let c = s[i];
        let m = fold_code(c as u32);
        lemma_fold_code_idempotent(c as u32);
        if is_scalar_value(m) {
            let d = (m as u32) as char;
            assert(d as u32 == m);
        }
    }
    assert(fold_text(fold_text(s)) =~= fold_text(s));
}

/// The lower-case letter of capital `x`, for the blocks whose case pairs
/// follow a fixed offset: Basic Latin, Latin-1, Latin Extended-A and
/// Additional, Greek, Cyrillic, Armenian, Georgian, Roman numerals, circled
/// letters, Glagolitic, Coptic, full-width Latin, Deseret, Osage, Old
/// Hungarian, Warang Citi, Medefaidrin and Adlam. `None` for every other
/// code point.
pub open spec fn lower_partner(x: u32) -> Option<u32> {
    if (0x41 <= x <= 0x5A) {
        Some((x + 0x20) as u32)
    } else if (0xC0 <= x <= 0xD6) {
        Some((x + 0x20) as u32)
    } else if (0xD8 <= x <= 0xDE) {
        Some((x + 0x20) as u32)
    } else if (0x100 <= x <= 0x12E && x % 2 == 0) {
        Some((x + 1) as u32)
    } else if (0x132 <= x <= 0x136 && x % 2 == 0) {
        Some((x + 1) as u32)
    } else if (0x139 <= x <= 0x147 && x % 2 == 1) {
        Some((x + 1) as u32)
    } else if (0x14A <= x <= 0x176 && x % 2 == 0) {
        Some((x + 1) as u32)
    } else if (0x179 <= x <= 0x17D && x % 2 == 1) {
        Some((x + 1) as u32)
    } else if (0x1E00 <= x <= 0x1E94 && x % 2 == 0) {
        Some((x + 1) as u32)
    } else if (0x1EA0 <= x <= 0x1EFE && x % 2 == 0) {
        Some((x + 1) as u32)
    } else if (0x391 <= x <= 0x3A1) {
        Some((x + 0x20) as u32)
    } else if (0x3A3 <= x <= 0x3AB) {
        Some((x + 0x20) as u32)
    } else if (0x400 <= x <= 0x40F) {
        Some((x + 0x50) as u32)
    } else if (0x410 <= x <= 0x42F) {
        Some((x + 0x20) as u32)
    } else if (0x460 <= x <= 0x480 && x % 2 == 0) {
        Some((x + 1) as u32)
    } else if (0x48A <= x <= 0x4BE && x % 2 == 0) {
        Some((x + 1) as u32)
    } else if (0x4C1 <= x <= 0x4CD && x % 2 == 1) {
        Some((x + 1) as u32)
    } else if (0x4D0 <= x <= 0x52E && x % 2 == 0) {
        Some((x + 1) as u32)
    } else if (0x531 <= x <= 0x556) {
        Some((x + 0x30) as u32)
    } else if (0x10A0 <= x <= 0x10C5) {
        Some((x + 0x1C60) as u32)
    } else if (0x2160 <= x <= 0x216F) {
        Some((x + 0x10) as u32)
    } else if (0x24B6 <= x <= 0x24CF) {
        Some((x + 0x1A) as u32)
    } else if (0x2C00 <= x <= 0x2C2F) {
        Some((x + 0x30) as u32)
    } else if (0x2C80 <= x <= 0x2CE2 && x % 2 == 0) {
        Some((x + 1) as u32)
    } else if (0xA640 <= x <= 0xA66C && x % 2 == 0) {
        Some((x + 1) as u32)
    } else if (0xA680 <= x <= 0xA69A && x % 2 == 0) {
        Some((x + 1) as u32)
    } else if (0xFF21 <= x <= 0xFF3A) {
        Some((x + 0x20) as u32)
    } else if (0x10400 <= x <= 0x10427) {
        Some((x + 0x28) as u32)
    } else if (0x104B0 <= x <= 0x104D3) {
        Some((x + 0x28) as u32)
    } else if (0x10C80 <= x <= 0x10CB2) {
        Some((x + 0x40) as u32)
    } else if (0x118A0 <= x <= 0x118BF) {
        Some((x + 0x20) as u32)
    } else if (0x16E40 <= x <= 0x16E5F) {
        Some((x + 0x20) as u32)
    } else if (0x1E900 <= x <= 0x1E921) {
        Some((x + 0x22) as u32)
    } else {
        None
    }
}

#[verifier::rlimit(100)]
proof fn lemma_fold_pairs_latin(x: u32)
    requires
        (0x41 <= x <= 0x5A) || (0xC0 <= x <= 0xD6) || (0xD8 <= x <= 0xDE),
    ensures
        lower_partner(x) matches Some(l) ==> fold_code(x) == l && fold_code(l) == l,
{
}

#[verifier::rlimit(100)]
proof fn lemma_fold_pairs_latin_ext(x: u32)
    requires
        (0x100 <= x <= 0x12E && x % 2 == 0) || (0x132 <= x <= 0x136 && x % 2 == 0) || (0x139 <= x <= 0x147 && x % 2 == 1) || (0x14A <= x <= 0x176 && x % 2 == 0) || (0x179 <= x <= 0x17D && x % 2 == 1),
    ensures
        lower_partner(x) matches Some(l) ==> fold_code(x) == l && fold_code(l) == l,
{
}

#[verifier::rlimit(100)]
proof fn lemma_fold_pairs_latin_additional(x: u32)
    requires
        (0x1E00 <= x <= 0x1E94 && x % 2 == 0) || (0x1EA0 <= x <= 0x1EFE && x % 2 == 0),
    ensures
        lower_partner(x) matches Some(l) ==> fold_code(x) == l && fold_code(l) == l,
{
}

#[verifier::rlimit(100)]
proof fn lemma_fold_pairs_greek_cyrillic(x: u32)
    requires
        (0x391 <= x <= 0x3A1) || (0x3A3 <= x <= 0x3AB) || (0x400 <= x <= 0x40F) || (0x410 <= x <= 0x42F),
    ensures
        lower_partner(x) matches Some(l) ==> fold_code(x) == l && fold_code(l) == l,
{
}

#[verifier::rlimit(100)]
proof fn lemma_fold_pairs_cyrillic_pairs(x: u32)
    requires
        (0x460 <= x <= 0x480 && x % 2 == 0) || (0x48A <= x <= 0x4BE && x % 2 == 0) || (0x4C1 <= x <= 0x4CD && x % 2 == 1) || (0x4D0 <= x <= 0x52E && x % 2 == 0),
    ensures
        lower_partner(x) matches Some(l) ==> fold_code(x) == l && fold_code(l) == l,
{
}

#[verifier::rlimit(100)]
proof fn lemma_fold_pairs_armenian_georgian(x: u32)
    requires
        (0x531 <= x <= 0x556) || (0x10A0 <= x <= 0x10C5),
    ensures
        lower_partner(x) matches Some(l) ==> fold_code(x) == l && fold_code(l) == l,
{
}

#[verifier::rlimit(100)]
proof fn lemma_fold_pairs_symbols(x: u32)
    requires
        (0x2160 <= x <= 0x216F) || (0x24B6 <= x <= 0x24CF) || (0x2C00 <= x <= 0x2C2F) || (0x2C80 <= x <= 0x2CE2 && x % 2 == 0) || (0xA640 <= x <= 0xA66C && x % 2 == 0) || (0xA680 <= x <= 0xA69A && x % 2 == 0) || (0xFF21 <= x <= 0xFF3A),
    ensures
        lower_partner(x) matches Some(l) ==> fold_code(x) == l && fold_code(l) == l,
{
}

#[verifier::rlimit(100)]
proof fn lemma_fold_pairs_supplementary(x: u32)
    requires
        (0x10400 <= x <= 0x10427) || (0x104B0 <= x <= 0x104D3) || (0x10C80 <= x <= 0x10CB2) || (0x118A0 <= x <= 0x118BF) || (0x16E40 <= x <= 0x16E5F) || (0x1E900 <= x <= 0x1E921),
    ensures
        lower_partner(x) matches Some(l) ==> fold_code(x) == l && fold_code(l) == l,
{
}

/// A capital and its lower-case letter fold to the same code point, the
/// lower-case one: `CAFÉ` and `café` name the same key.
pub proof fn lemma_fold_case_pairs(x: u32)
    ensures
        lower_partner(x) matches Some(l) ==> fold_code(x) == l && fold_code(l) == l,
{
    if (0x41 <= x <= 0x5A) || (0xC0 <= x <= 0xD6) || (0xD8 <= x <= 0xDE) {
        lemma_fold_pairs_latin(x);
    } else if (0x100 <= x <= 0x12E && x % 2 == 0) || (0x132 <= x <= 0x136 && x % 2 == 0) || (0x139 <= x <= 0x147 && x % 2 == 1) || (0x14A <= x <= 0x176 && x % 2 == 0) || (0x179 <= x <= 0x17D && x % 2 == 1) {
        lemma_fold_pairs_latin_ext(x);
    } else if (0x1E00 <= x <= 0x1E94 && x % 2 == 0) || (0x1EA0 <= x <= 0x1EFE && x % 2 == 0) {
        lemma_fold_pairs_latin_additional(x);
    } else if (0x391 <= x <= 0x3A1) || (0x3A3 <= x <= 0x3AB) || (0x400 <= x <= 0x40F) || (0x410 <= x <= 0x42F) {
        lemma_fold_pairs_greek_cyrillic(x);
    } else if (0x460 <= x <= 0x480 && x % 2 == 0) || (0x48A <= x <= 0x4BE && x % 2 == 0) || (0x4C1 <= x <= 0x4CD && x % 2 == 1) || (0x4D0 <= x <= 0x52E && x % 2 == 0) {
        lemma_fold_pairs_cyrillic_pairs(x);
    } else if (0x531 <= x <= 0x556) || (0x10A0 <= x <= 0x10C5) {
        lemma_fold_pairs_armenian_georgian(x);
    } else if (0x2160 <= x <= 0x216F) || (0x24B6 <= x <= 0x24CF) || (0x2C00 <= x <= 0x2C2F) || (0x2C80 <= x <= 0x2CE2 && x % 2 == 0) || (0xA640 <= x <= 0xA66C && x % 2 == 0) || (0xA680 <= x <= 0xA69A && x % 2 == 0) || (0xFF21 <= x <= 0xFF3A) {
        lemma_fold_pairs_symbols(x);
    } else if (0x10400 <= x <= 0x10427) || (0x104B0 <= x <= 0x104D3) || (0x10C80 <= x <= 0x10CB2) || (0x118A0 <= x <= 0x118BF) || (0x16E40 <= x <= 0x16E5F) || (0x1E900 <= x <= 0x1E921) {
        lemma_fold_pairs_supplementary(x);
    }
}

/// Folding ignores case: a text and the same text with any of its capitals
/// (of the blocks `lower_partner` covers) written in lower case fold alike.
pub proof fn lemma_fold_ignores_case(s: Seq<char>, t: Seq<char>)
    requires
        s.len() == t.len(),
        forall|i: int|
            0 <= i < s.len() ==> s[i] == t[i] || lower_partner(s[i] as u32) == Some(#[trigger] t[i] as u32),
    ensures
        fold_text(s) == fold_text(t),
{
    assert forall|i: int| 0 <= i < s.len() implies fold_spec(s[i]) == fold_spec(t[i]) by {
        if s[i] != t[i] {
            lemma_fold_case_pairs(s[i] as u32);
            let l = t[i] as u32;
            assert(fold_code(s[i] as u32) == l && fold_code(l) == l);
            assert(is_scalar_value(l));
            assert(((l as u32) as char) == t[i]) by {
                crate::text::lemma_char_of_code(t[i], l);
            }
        }
    }
    assert(fold_text(s) =~= fold_text(t));
}

} // verus!
