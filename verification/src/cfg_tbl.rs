//! Textual rendering of firmware configuration-table GUIDs.
//!
//! A firmware GUID is modelled by its plain fields; the embedding converts
//! from whatever representation the firmware interface library uses.

use vstd::prelude::*;

verus! {

/// A firmware GUID, as the plain values of its five fields plus the node
/// bytes.
#[derive(Clone, Copy, Debug)]
pub struct Guid {
    /// The low field of the timestamp.
    pub time_low: u32,
    /// The middle field of the timestamp.
    pub time_mid: u16,
    /// The high field of the timestamp with the version.
    pub time_hi_and_version: u16,
    /// The high field of the clock sequence with the variant.
    pub clk_seq_hi_res: u8,
    /// The low field of the clock sequence.
    pub clk_seq_low: u8,
    /// The spatially unique node identifier.
    pub node: [u8; 6],
}

/// The upper-case hexadecimal digit, as an ASCII byte, of a value below 16.
pub open spec fn hex_digit_upper(n: u8) -> u8 {
    if n < 10 {
        (n + 0x30) as u8
    } else {
        (n + 0x37) as u8
    }
}

/// The two upper-case hexadecimal digits of a byte, high nibble first.
pub fn u8_hex_str_value_upper(v: u8) -> (r: (u8, u8))
    ensures
        r.0 == hex_digit_upper(v / 16),
        r.1 == hex_digit_upper(v % 16),
{
    proof {
        assert(v >> 4 == v / 16) by (bit_vector);
        assert(v & 0xF == v % 16) by (bit_vector);
    }
    let hi = match v >> 4 {
        0x0 => 0x30,
        0x1 => 0x31,
        0x2 => 0x32,
        0x3 => 0x33,
        0x4 => 0x34,
        0x5 => 0x35,
        0x6 => 0x36,
        0x7 => 0x37u8,
        0x8 => 0x38,
        0x9 => 0x39,
        0xA => 0x41,
        0xB => 0x42,
        0xC => 0x43,
        0xD => 0x44,
        0xE => 0x45,
        _ => 0x46,
    };
    let lo = match v & 0xF {
        0x0 => 0x30,
        0x1 => 0x31,
        0x2 => 0x32,
        0x3 => 0x33,
        0x4 => 0x34,
        0x5 => 0x35,
        0x6 => 0x36,
        0x7 => 0x37u8,
        0x8 => 0x38,
        0x9 => 0x39,
        0xA => 0x41,
        0xB => 0x42,
        0xC => 0x43,
        0xD => 0x44,
        0xE => 0x45,
        _ => 0x46,
    };
    proof {
        assert(v / 16 < 16);
        assert(v >> 4 < 16) by (bit_vector);
        assert(v & 0xF < 16) by (bit_vector);
    }
    (hi, lo)
}

/// The canonical upper-case textual form of a GUID, as the sequence of its
/// 36 ASCII bytes: the five fields in hexadecimal, big-endian, separated by
/// dashes.
pub open spec fn guid_hex_upper(g: Guid) -> Seq<u8> {
    let b0 = (g.time_low >> 24) as u8;
    let b1 = (g.time_low >> 16) as u8;
    let b2 = (g.time_low >> 8) as u8;
    let b3 = g.time_low as u8;
    let b4 = (g.time_mid >> 8) as u8;
    let b5 = g.time_mid as u8;
    let b6 = (g.time_hi_and_version >> 8) as u8;
    let b7 = g.time_hi_and_version as u8;
    seq![
        hex_digit_upper(b0 / 16),
        hex_digit_upper(b0 % 16),
        hex_digit_upper(b1 / 16),
        hex_digit_upper(b1 % 16),
        hex_digit_upper(b2 / 16),
        hex_digit_upper(b2 % 16),
        hex_digit_upper(b3 / 16),
        hex_digit_upper(b3 % 16),
        0x2D,
        hex_digit_upper(b4 / 16),
        hex_digit_upper(b4 % 16),
        hex_digit_upper(b5 / 16),
        hex_digit_upper(b5 % 16),
        0x2D,
        hex_digit_upper(b6 / 16),
        hex_digit_upper(b6 % 16),
        hex_digit_upper(b7 / 16),
        hex_digit_upper(b7 % 16),
        0x2D,
        hex_digit_upper(g.clk_seq_hi_res / 16),
        hex_digit_upper(g.clk_seq_hi_res % 16),
        hex_digit_upper(g.clk_seq_low / 16),
        hex_digit_upper(g.clk_seq_low % 16),
        0x2D,
        hex_digit_upper(g.node[0] / 16),
        hex_digit_upper(g.node[0] % 16),
        hex_digit_upper(g.node[1] / 16),
        hex_digit_upper(g.node[1] % 16),
        hex_digit_upper(g.node[2] / 16),
        hex_digit_upper(g.node[2] % 16),
        hex_digit_upper(g.node[3] / 16),
        hex_digit_upper(g.node[3] % 16),
        hex_digit_upper(g.node[4] / 16),
        hex_digit_upper(g.node[4] % 16),
        hex_digit_upper(g.node[5] / 16),
        hex_digit_upper(g.node[5] % 16),
    ]
}

/// Renders a GUID in its canonical upper-case textual form, 36 ASCII bytes.
pub fn guid_utf8_upper(guid: Guid) -> (r: Vec<u8>)
    ensures
        r@ == guid_hex_upper(guid),
{
    let tl1 = u8_hex_str_value_upper((guid.time_low >> 24) as u8);
    let tl2 = u8_hex_str_value_upper((guid.time_low >> 16) as u8);
    let tl3 = u8_hex_str_value_upper((guid.time_low >> 8) as u8);
    let tl4 = u8_hex_str_value_upper(guid.time_low as u8);

    let tm1 = u8_hex_str_value_upper((guid.time_mid >> 8) as u8);
    let tm2 = u8_hex_str_value_upper(guid.time_mid as u8);

    let th1 = u8_hex_str_value_upper((guid.time_hi_and_version >> 8) as u8);
    let th2 = u8_hex_str_value_upper(guid.time_hi_and_version as u8);

    let csh = u8_hex_str_value_upper(guid.clk_seq_hi_res);
    let csl = u8_hex_str_value_upper(guid.clk_seq_low);

    let n1 = u8_hex_str_value_upper(guid.node[0]);
    let n2 = u8_hex_str_value_upper(guid.node[1]);
    let n3 = u8_hex_str_value_upper(guid.node[2]);
    let n4 = u8_hex_str_value_upper(guid.node[3]);
    let n5 = u8_hex_str_value_upper(guid.node[4]);
    let n6 = u8_hex_str_value_upper(guid.node[5]);

    let mut r: Vec<u8> = Vec::new();
    r.push(tl1.0);
    r.push(tl1.1);
    r.push(tl2.0);
    r.push(tl2.1);
    r.push(tl3.0);
    r.push(tl3.1);
    r.push(tl4.0);
    r.push(tl4.1);
    r.push(0x2D);
    r.push(tm1.0);
    r.push(tm1.1);
    r.push(tm2.0);
    r.push(tm2.1);
    r.push(0x2D);
    r.push(th1.0);
    r.push(th1.1);
    r.push(th2.0);
    r.push(th2.1);
    r.push(0x2D);
    r.push(csh.0);
    r.push(csh.1);
    r.push(csl.0);
    r.push(csl.1);
    r.push(0x2D);
    r.push(n1.0);
    r.push(n1.1);
    r.push(n2.0);
    r.push(n2.1);
    r.push(n3.0);
    r.push(n3.1);
    r.push(n4.0);
    r.push(n4.1);
    r.push(n5.0);
    r.push(n5.1);
    r.push(n6.0);
    r.push(n6.1);
    proof {
        assert(r@ =~= guid_hex_upper(guid));
    }
    r
}

} // verus!
