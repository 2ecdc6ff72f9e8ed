//! Byte-level helpers: little-endian integers, hexadecimal and numeric literals.
use vstd::prelude::*;
use vstd::arithmetic::div_mod::lemma_mod_breakdown;
use vstd::string::{StrSliceExecFns, StringExecFns, StringSliceAdditionalSpecFns};

use clap::builder::styling::{AnsiColor, Style};

use crate::isa::inst_code;
use crate::isa::reg_code;
use crate::isa::RegFile;
use crate::object::{hex_char, push_char};

verus! {

/// Value of a byte sequence read as a little-endian unsigned integer.
pub open spec fn le_value(s: Seq<u8>) -> nat
    decreases s.len(),
{
    if s.len() == 0 {
        0
    } else {
        s[0] as nat + 256 * le_value(s.drop_first())
    }
}

/// Byte `i` (little-endian) of `v`.
pub open spec fn byte_at(v: nat, i: nat) -> u8
    decreases i,
{
    if i == 0 {
        (v % 256) as u8
    } else {
        byte_at(v / 256, (i - 1) as nat)
    }
}

/// `v` shifted right by `i` bytes.
pub open spec fn shift_bytes(v: nat, i: nat) -> nat
    decreases i,
{
    if i == 0 {
        v
    } else {
        shift_bytes(v / 256, (i - 1) as nat)
    }
}

/// The `n` low bytes of `v`, least significant first.
pub open spec fn le_bytes(v: nat, n: nat) -> Seq<u8> {
    Seq::new(n, |i: int| byte_at(v, i as nat))
}

pub open spec fn pow256(n: nat) -> nat
    decreases n,
{
    if n == 0 {
        1
    } else {
        256 * pow256((n - 1) as nat)
    }
}

pub proof fn lemma_le_value_bound(s: Seq<u8>)
    ensures
        le_value(s) < pow256(s.len()),
    decreases s.len(),
{
    if s.len() > 0 {
        lemma_le_value_bound(s.drop_first());
    }
}

pub proof fn lemma_byte_at_shift(v: nat, i: nat)
    ensures
        byte_at(v, i) == (shift_bytes(v, i) % 256) as u8,
        shift_bytes(v, i + 1) == shift_bytes(v, i) / 256,
    decreases i,
{
    assert(shift_bytes(v, i + 1) == shift_bytes(v / 256, i));
    if i > 0 {
        lemma_byte_at_shift(v / 256, (i - 1) as nat);
    }
}

/// Reading back the `n` low bytes of `v` gives `v` modulo `256^n`.
pub proof fn lemma_le_value_of_bytes(v: nat, n: nat)
    ensures
        le_value(le_bytes(v, n)) == v % pow256(n),
    decreases n,
{
    if n > 0 {
        let s = le_bytes(v, n);
        lemma_le_value_of_bytes(v / 256, (n - 1) as nat);
        assert(s.drop_first() =~= le_bytes(v / 256, (n - 1) as nat)) by {
            assert forall|i: int| 0 <= i < n - 1 implies s.drop_first()[i] == byte_at(v / 256, i as nat) by {
                assert(byte_at(v, (i + 1) as nat) == byte_at(v / 256, i as nat));
            }
        }
        let p = pow256((n - 1) as nat);
        assert(p > 0) by {
            lemma_pow256_pos((n - 1) as nat);
        }
        lemma_mod_breakdown(v as int, 256, p as int);
    }
}

pub proof fn lemma_pow256_pos(n: nat)
    ensures
        pow256(n) > 0,
    decreases n,
{
    if n > 0 {
        lemma_pow256_pos((n - 1) as nat);
    }
}

/// The first `min(8, len)` bytes of a sequence.
pub open spec fn first8(s: Seq<u8>) -> Seq<u8> {
    if s.len() < 8 {
        s
    } else {
        s.subrange(0, 8)
    }
}

/// Get 64-bit unsigned integer value in little endian order from the first
/// (at most) eight bytes.
pub fn get_u64(binary: &[u8]) -> (r: u64)
    ensures
        r as nat == le_value(first8(binary@)),
{
    let n: usize = if binary.len() < 8 {
        binary.len()
    } else {
        8
    };
    let ghost s = first8(binary@);
    proof {
        lemma_le_value_bound(s);
        reveal_with_fuel(pow256, 9);
        assert(pow256(8) == 0x1_0000_0000_0000_0000nat);
        assert(pow256(s.len()) <= pow256(8)) by {
            lemma_pow256_mono(s.len(), 8);
        }
    }
    let mut res: u64 = 0;
    let mut i: usize = n;
    while i > 0
        invariant
            i <= n,
            n == s.len(),
            s == first8(binary@),
            n <= binary@.len(),
            res as nat == le_value(s.subrange(i as int, n as int)),
            le_value(s) <= u64::MAX,
        decreases i,
    {
        i = i - 1;
        let ghost t = s.subrange(i as int, n as int);
        assert(t.drop_first() =~= s.subrange(i + 1, n as int));
        proof {
            lemma_le_value_prefix_bound(s, i as int);
        }
        res = res * 256 + binary[i] as u64;
    }
    assert(s.subrange(0, n as int) =~= s);
    res
}

proof fn lemma_pow256_mono(a: nat, b: nat)
    requires
        a <= b,
    ensures
        pow256(a) <= pow256(b),
    decreases b,
{
    if a < b {
        lemma_pow256_mono(a, (b - 1) as nat);
        lemma_pow256_pos((b - 1) as nat);
    }
}

/// A suffix of a sequence is worth no more than the whole.
proof fn lemma_le_value_prefix_bound(s: Seq<u8>, i: int)
    requires
        0 <= i <= s.len(),
    ensures
        le_value(s.subrange(i, s.len() as int)) <= le_value(s),
    decreases i,
{
    if i > 0 {
        assert(le_value(s) == s[0] as nat + 256 * le_value(s.drop_first()));
        assert(s.drop_first().subrange(i - 1, s.drop_first().len() as int) =~= s.subrange(i, s.len() as int));
        lemma_le_value_prefix_bound(s.drop_first(), i - 1);
    } else {
        assert(s.subrange(0, s.len() as int) =~= s);
    }
}

/// Write 64-bit unsigned integer value to binary in little endian order.
/// At most eight bytes are written; the rest stays as it was.
pub fn put_u64(binary: &mut [u8], val: u64)
    ensures
        final(binary)@.len() == old(binary)@.len(),
        forall|i: int| 0 <= i < final(binary)@.len() ==> #[trigger] final(binary)@[i] == (if i < 8 {
            byte_at(val as nat, i as nat)
        } else {
            old(binary)@[i]
        }),
{
    let n: usize = if binary.len() < 8 {
        binary.len()
    } else {
        8
    };
    let mut x: u64 = val;
    let mut i: usize = 0;
    while i < n
        invariant
            i <= n,
            n <= 8,
            n <= binary@.len(),
            binary@.len() == old(binary)@.len(),
            x as nat == shift_bytes(val as nat, i as nat),
            forall|j: int| 0 <= j < binary@.len() ==> #[trigger] binary@[j] == (if j < i {
                byte_at(val as nat, j as nat)
            } else {
                old(binary)@[j]
            }),
        decreases n - i,
    {
        proof {
            lemma_byte_at_shift(val as nat, i as nat);
        }
        binary[i] = (x % 256) as u8;
        x = x / 256;
        i = i + 1;
    }
}

/// Value of an ASCII hexadecimal digit, either case.
pub open spec fn hex_digit_value(c: u8) -> Option<nat> {
    if 0x30 <= c <= 0x39 {
        Some((c - 0x30) as nat)
    } else if 0x61 <= c <= 0x66 {
        Some((c - 0x61 + 10) as nat)
    } else if 0x41 <= c <= 0x46 {
        Some((c - 0x41 + 10) as nat)
    } else {
        None
    }
}

/// Value of an ASCII decimal digit.
pub open spec fn dec_digit_value(c: u8) -> Option<nat> {
    if 0x30 <= c <= 0x39 {
        Some((c - 0x30) as nat)
    } else {
        None
    }
}

/// Value of a non-empty string of digits in base `radix` (10 or 16), most
/// significant first.
pub open spec fn digits_value(s: Seq<u8>, radix: nat) -> Option<nat>
    decreases s.len(),
{
    let dv = |c: u8| if radix == 16 { hex_digit_value(c) } else { dec_digit_value(c) };
    if s.len() == 0 {
        None
    } else {
        match dv(s.last()) {
            None => None,
            Some(d) => if s.len() == 1 {
                Some(d)
            } else {
                match digits_value(s.drop_last(), radix) {
                    Some(v) => Some(v * radix + d),
                    None => None,
                }
            },
        }
    }
}

/// `s` without a leading `+`.
pub open spec fn skip_plus(s: Seq<u8>) -> Seq<u8> {
    if s.len() > 0 && s[0] == 0x2b {
        s.drop_first()
    } else {
        s
    }
}

/// A decimal `i64` with an optional sign: its value, if in range.
pub open spec fn parse_i64(s: Seq<u8>) -> Option<int> {
    if s.len() > 0 && s[0] == 0x2d {
        match digits_value(s.drop_first(), 10) {
            Some(v) => if v <= 0x8000_0000_0000_0000 { Some(-v) } else { None },
            None => None,
        }
    } else {
        match digits_value(skip_plus(s), 10) {
            Some(v) => if v < 0x8000_0000_0000_0000 { Some(v as int) } else { None },
            None => None,
        }
    }
}

/// A hexadecimal `u64` with an optional `+`: its value, if in range.
pub open spec fn parse_hex_u64(s: Seq<u8>) -> Option<nat> {
    match digits_value(skip_plus(s), 16) {
        Some(v) => if v <= u64::MAX { Some(v) } else { None },
        None => None,
    }
}

/// `v` as a 64-bit word, modulo 2^64.
pub open spec fn wrap64(v: int) -> u64 {
    (v % 0x1_0000_0000_0000_0000) as u64
}

/// A numeric literal of the assembly language: a decimal `i64` (with its
/// optional sign), or `0x` followed by a hexadecimal `u64`, which a leading
/// `-` negates. The result is the two's-complement word.
pub open spec fn literal_value(s: Seq<u8>) -> Option<u64> {
    let neg = s.len() > 0 && s[0] == 0x2d;
    let t = if neg { s.drop_first() } else { s };
    let sign = if neg { -1int } else { 1int };
    match parse_i64(s) {
        Some(r) => Some(wrap64(r)),
        None => if t.len() >= 2 && t[0] == 0x30 && t[1] == 0x78 {
            match parse_hex_u64(t.subrange(2, t.len() as int)) {
                Some(r) => Some(wrap64(sign * r)),
                None => None,
            }
        } else {
            None
        },
    }
}

fn digit_of(c: u8, radix: u64) -> (r: Option<u64>)
    requires
        radix == 10 || radix == 16,
    ensures
        (if radix == 16 { hex_digit_value(c) } else { dec_digit_value(c) }) matches Some(v) ==> r == Some(v as u64),
        (if radix == 16 { hex_digit_value(c) } else { dec_digit_value(c) }) is None ==> r is None,
{
    if 0x30 <= c && c <= 0x39 {
        Some((c - 0x30) as u64)
    } else if radix == 16 && 0x61 <= c && c <= 0x66 {
        Some((c - 0x61 + 10) as u64)
    } else if radix == 16 && 0x41 <= c && c <= 0x46 {
        Some((c - 0x41 + 10) as u64)
    } else {
        None
    }
}

/// A digit string holds only digits.
proof fn lemma_digits_none(t: Seq<u8>, radix: nat, k: int)
    requires
        radix == 10 || radix == 16,
        0 <= k < t.len(),
        (if radix == 16 { hex_digit_value(t[k]) } else { dec_digit_value(t[k]) }) is None,
    ensures
        digits_value(t, radix) is None,
    decreases t.len(),
{
    if k < t.len() - 1 {
        lemma_digits_none(t.drop_last(), radix, k);
    }
}

/// Value of `s[from..]` in base `radix`, or `None` if it is not a digit
/// string or its value exceeds `limit`.
fn digits_upto(s: &[u8], from: usize, radix: u64, limit: u64) -> (r: Option<u64>)
    requires
        radix == 10 || radix == 16,
        from <= s@.len(),
        limit >= 16,
    ensures
        r == (match digits_value(s@.subrange(from as int, s@.len() as int), radix as nat) {
            Some(v) => if v <= limit { Some(v as u64) } else { None },
            None => None,
        }),
{
    let ghost t = s@.subrange(from as int, s@.len() as int);
    if from == s.len() {
        return None;
    }
    let mut acc: u64 = 0;
    let mut over = false;
    let mut i: usize = from;
    while i < s.len()
        invariant
            radix == 10 || radix == 16,
            from < s@.len(),
            from <= i <= s@.len(),
            t == s@.subrange(from as int, s@.len() as int),
            i > from ==> digits_value(t.subrange(0, i - from), radix as nat) is Some,
            i > from && !over ==> digits_value(t.subrange(0, i - from), radix as nat) == Some(acc as nat),
            i > from && over ==> digits_value(t.subrange(0, i - from), radix as nat).unwrap() > limit,
            i == from ==> acc == 0 && !over,
            acc <= limit,
            limit >= 16,
        decreases s@.len() - i,
    {
        let d = match digit_of(s[i], radix) {
            Some(d) => d,
            None => {
                proof {
                    lemma_digits_none(t, radix as nat, i - from);
                }
                return None;
            },
        };
        let ghost k = i - from;
        proof {
            assert(t.subrange(0, k + 1).drop_last() =~= t.subrange(0, k));
            assert(t.subrange(0, k + 1).last() == s@[i as int]);
        }
        if !over {
            let q = (limit - d) / radix;
            if acc > q {
                over = true;
                proof {
                    let (a, r, dd, l, qq) = (acc as int, radix as int, d as int, limit as int, q as int);
                    assert(a * r + dd > l) by (nonlinear_arith)
                        requires a > qq, qq == (l - dd) / r, r > 0, dd <= l;
                }
            } else {
                proof {
                    let (a, r, dd, l, qq) = (acc as int, radix as int, d as int, limit as int, q as int);
                    assert(a * r + dd <= l) by (nonlinear_arith)
                        requires a <= qq, qq == (l - dd) / r, r > 0, dd <= l, a >= 0;
                }
                acc = acc * radix + d;
            }
        } else {
            proof {
                let pv = digits_value(t.subrange(0, k), radix as nat).unwrap();
                assert(pv * radix as nat + d as nat >= pv) by (nonlinear_arith)
                    requires radix >= 10;
            }
        }
        i = i + 1;
    }
    assert(t.subrange(0, (s@.len() - from) as int) =~= t);
    if over {
        None
    } else {
        Some(acc)
    }
}

proof fn lemma_wrap_neg(m: u64)
    ensures
        wrap64(-(m as int)) == 0u64.wrapping_sub(m),
        wrap64(m as int) == m,
{
    assert(wrap64(-(m as int)) == 0u64.wrapping_sub(m)) by {
        if m != 0 {
            assert((-(m as int)) % 0x1_0000_0000_0000_0000 == 0x1_0000_0000_0000_0000 - m);
        }
    }
}

/// A decimal `i64` in `t`: whether it is negative, and its magnitude.
fn parse_i64_bytes(t: &[u8]) -> (r: Option<(bool, u64)>)
    ensures
        match parse_i64(t@) {
            Some(v) => r matches Some((neg, m)) && v == (if neg { -(m as int) } else { m as int }),
            None => r is None,
        },
{
    if t.len() > 0 && t[0] == 0x2d {
        assert(t@.drop_first() =~= t@.subrange(1, t@.len() as int));
        match digits_upto(t, 1, 10, 0x8000_0000_0000_0000) {
            Some(m) => Some((true, m)),
            None => None,
        }
    } else {
        let from: usize = if t.len() > 0 && t[0] == 0x2b { 1 } else { 0 };
        assert(skip_plus(t@) =~= t@.subrange(from as int, t@.len() as int));
        match digits_upto(t, from, 10, 0x7fff_ffff_ffff_ffff) {
            Some(m) => Some((false, m)),
            None => None,
        }
    }
}

/// Parse numeric literal from string in yas source file.
///
/// For decimal number, it should be a valid i64.
/// For hexadecimal number, it should be prefixed with "0x" and in range of u64.
/// A leading `-` negates the number (`-0x10` is -16).
pub fn parse_literal(s: &str) -> (r: Option<u64>)
    ensures
        r == literal_value(s.spec_bytes()),
{
    let b = s.as_bytes();
    if let Some((inner_neg, m)) = parse_i64_bytes(b) {
        proof {
            lemma_wrap_neg(m);
        }
        return Some(if inner_neg { 0u64.wrapping_sub(m) } else { m });
    }
    let n = b.len();
    let neg = n > 0 && b[0] == 0x2d;
    let start: usize = if neg { 1 } else { 0 };
    let t = vstd::slice::slice_subrange(b, start, n);
    proof {
        if neg {
            assert(t@ =~= b@.drop_first());
        } else {
            assert(t@ =~= b@);
        }
    }
    if !(t.len() >= 2 && t[0] == 0x30 && t[1] == 0x78) {
        return None;
    }
    let from: usize = if t.len() > 2 && t[2] == 0x2b { 3 } else { 2 };
    let ghost h = t@.subrange(2, t@.len() as int);
    assert(skip_plus(h) =~= t@.subrange(from as int, t@.len() as int));
    let x = match digits_upto(t, from, 16, u64::MAX) {
        Some(m) => m,
        None => {
            return None;
        },
    };
    proof {
        lemma_wrap_neg(x);
        lemma_wrap_sign(x as int, neg);
    }
    Some(if neg { 0u64.wrapping_sub(x) } else { x })
}

proof fn lemma_wrap_sign(v: int, neg: bool)
    ensures
        wrap64((if neg { -1int } else { 1int }) * v) == (if neg { 0u64.wrapping_sub(wrap64(v)) } else { wrap64(v) }),
{
    let m = 0x1_0000_0000_0000_0000int;
    if neg {
        let w = v % m;
        assert(0 <= w < m);
        assert((-1int * v) % m == (if w == 0 { 0 } else { m - w })) by {
            vstd::arithmetic::div_mod::lemma_fundamental_div_mod(v, m);
            vstd::arithmetic::div_mod::lemma_fundamental_div_mod(-v, m);
            let q = v / m;
            vstd::arithmetic::div_mod::lemma_mod_multiples_vanish(-q, -v + q * m, m) ;
        }
    }
}

/// Value of the two-character chunk `c0 c1` read as a hexadecimal `u8`
/// (an optional `+` then digits).
pub open spec fn hex_pair(c0: u8, c1: u8) -> Option<u8> {
    if c0 == 0x2b {
        match hex_digit_value(c1) {
            Some(v) => Some(v as u8),
            None => None,
        }
    } else {
        match (hex_digit_value(c0), hex_digit_value(c1)) {
            (Some(a), Some(b)) => Some((a * 16 + b) as u8),
            _ => None,
        }
    }
}

/// Whether chunk `k` of `s` is a valid pair.
pub open spec fn pair_ok(s: Seq<u8>, k: int) -> bool {
    hex_pair(s[2 * k], s[2 * k + 1]) is Some
}

/// A chunk of a hexadecimal string was not a hexadecimal byte; it starts at
/// this byte offset.
#[derive(Debug, Clone, Copy, PartialEq, Eq, Structural)]
pub struct InvalidHex(pub usize);

/// Decode hexadecimal string to byte array, two characters per byte.
pub fn decode_hex(s: &str) -> (r: Result<Vec<u8>, InvalidHex>)
    requires
        s.spec_bytes().len() % 2 == 0,
    ensures
        match r {
            Ok(v) => v@.len() * 2 == s.spec_bytes().len() && forall|k: int|
                0 <= k < v@.len() ==> hex_pair(s.spec_bytes()[2 * k], s.spec_bytes()[2 * k + 1]) == Some(#[trigger] v@[k]),
            Err(InvalidHex(i)) => i % 2 == 0 && i < s.spec_bytes().len() && !pair_ok(s.spec_bytes(), (i / 2) as int)
                && forall|k: int| 0 <= k < i / 2 ==> #[trigger] pair_ok(s.spec_bytes(), k),
        },
{
    let b = s.as_bytes();
    let mut out: Vec<u8> = Vec::new();
    let mut i: usize = 0;
    while i < b.len()
        invariant
            b@ == s.spec_bytes(),
            b@.len() % 2 == 0,
            i % 2 == 0,
            i <= b@.len(),
            out@.len() * 2 == i,
            forall|k: int| 0 <= k < out@.len() ==> hex_pair(b@[2 * k], b@[2 * k + 1]) == Some(#[trigger] out@[k]),
        decreases b@.len() - i,
    {
        let c0 = b[i];
        let c1 = b[i + 1];
        proof {
            assert forall|k: int| 0 <= k < i / 2 implies #[trigger] pair_ok(b@, k) by {
                assert(hex_pair(b@[2 * k], b@[2 * k + 1]) == Some(out@[k]));
            }
            assert(2 * (i / 2) as int == i);
        }
        let v = if c0 == 0x2b {
            match digit_of(c1, 16) {
                Some(d) => d as u8,
                None => {
                    return Err(InvalidHex(i));
                },
            }
        } else {
            match (digit_of(c0, 16), digit_of(c1, 16)) {
                (Some(a), Some(d)) => (a * 16 + d) as u8,
                _ => {
                    return Err(InvalidHex(i));
                },
            }
        };
        out.push(v);
        i = i + 2;
    }
    Ok(out)
}

/// The terminal styles of the tools' output.
#[derive(Debug, Clone, Copy, PartialEq, Eq, Structural)]
pub enum Tone {
    /// Bright black.
    Gray,
    Red,
    /// Bold red.
    RedBold,
    Green,
    /// Bold green.
    GreenBold,
    /// Bold, default color.
    Bold,
}

/// The ANSI escape codes that switch a tone on: the bold effect first,
/// then the foreground color.
pub open spec fn tone_codes(tone: Tone) -> Seq<char> {
    let bold = seq!['\x1b', '[', '1', 'm'];
    match tone {
        Tone::Gray => seq!['\x1b', '[', '9', '0', 'm'],
        Tone::Red => seq!['\x1b', '[', '3', '1', 'm'],
        Tone::RedBold => bold + seq!['\x1b', '[', '3', '1', 'm'],
        Tone::Green => seq!['\x1b', '[', '3', '2', 'm'],
        Tone::GreenBold => bold + seq!['\x1b', '[', '3', '2', 'm'],
        Tone::Bold => bold,
    }
}

/// `text` rendered in `tone`: the tone's escape codes, the text, then the
/// reset `ESC[0m`.
pub open spec fn painted(tone: Tone, text: Seq<char>) -> Seq<char> {
    tone_codes(tone) + text + seq!['\x1b', '[', '0', 'm']
}

/// Relies on anstyle's `Style` (re-exported by clap): `{style}` renders the
/// effects (bold is `ESC[1m`) and then the foreground color (`ESC[3Nm` for a
/// basic color, `ESC[9Nm` for a bright one); `{style:#}` renders the reset
/// `ESC[0m` for any style other than the empty one.
#[verifier::external_body]
fn paint(tone: Tone, text: &str) -> (r: String)
    ensures
        r@ == painted(tone, text@),
{
    let style = match tone {
        Tone::Gray => Style::new().fg_color(Some(AnsiColor::BrightBlack.into())),
        Tone::Red => Style::new().fg_color(Some(AnsiColor::Red.into())),
        Tone::RedBold => Style::new().fg_color(Some(AnsiColor::Red.into())).bold(),
        Tone::Green => Style::new().fg_color(Some(AnsiColor::Green.into())),
        Tone::GreenBold => Style::new().fg_color(Some(AnsiColor::Green.into())).bold(),
        Tone::Bold => Style::new().bold(),
    };
    format!("{style}{text}{style:#}")
}

/// The pipeline-control column of a stage: bubble wins over stall.
pub fn format_ctrl(bubble: bool, stall: bool) -> (r: String)
    ensures
        r@ == (if bubble {
            painted(Tone::RedBold, "Bubble"@)
        } else if stall {
            painted(Tone::RedBold, "Stall "@)
        } else {
            painted(Tone::Green, "Normal"@)
        }),
{
    if bubble {
        paint(Tone::RedBold, "Bubble")
    } else if stall {
        paint(Tone::RedBold, "Stall ")
    } else {
        paint(Tone::Green, "Normal")
    }
}

/// `s` padded with spaces on the right to `n` characters.
pub open spec fn pad_right(s: Seq<char>, n: nat) -> Seq<char> {
    if s.len() >= n {
        s
    } else {
        s + Seq::new((n - s.len()) as nat, |i: int| ' ')
    }
}

fn padded(s: &str, n: usize) -> (r: String)
    ensures
        r@ == pad_right(s@, n as nat),
{
    let mut out = String::from_str(s);
    let len = s.unicode_len();
    if len < n {
        let mut i: usize = len;
        while i < n
            invariant
                len == s@.len(),
                len <= i <= n,
                out@ == s@ + Seq::new((i - len) as nat, |j: int| ' '),
            decreases n - i,
        {
            out.append(" ");
            proof {
                reveal_strlit(" ");
            }
            i = i + 1;
            assert(out@ =~= s@ + Seq::new((i - len) as nat, |j: int| ' '));
        }
    }
    out
}

/// The mnemonic of an instruction code in a 6-character column; `NOP` is
/// dimmed.
pub fn format_icode(icode: u8) -> (r: String)
    ensures
        r@ == (if icode == inst_code::NOP {
            painted(Tone::Gray, pad_right(inst_code::spec_name_of(icode), 6))
        } else {
            pad_right(inst_code::spec_name_of(icode), 6)
        }),
{
    let name = inst_code::name_of(icode);
    let text = padded(name, 6);
    if icode == inst_code::NOP {
        paint(Tone::Gray, text.as_str())
    } else {
        text
    }
}

/// Lowercase hexadecimal digits of `v`, without leading zeros.
pub open spec fn hex_text(v: nat) -> Seq<char>
    decreases v,
{
    if v < 16 {
        seq![hex_char(v)]
    } else {
        hex_text(v / 16) + seq![hex_char(v % 16)]
    }
}

proof fn lemma_hex_text_len(v: nat, k: nat)
    requires
        v < pow16(k),
        k >= 1,
    ensures
        hex_text(v).len() <= k,
    decreases k,
{
    if v >= 16 {
        assert(v / 16 < pow16((k - 1) as nat));
        lemma_hex_text_len(v / 16, (k - 1) as nat);
    }
}

pub open spec fn pow16(n: nat) -> nat
    decreases n,
{
    if n == 0 {
        1
    } else {
        16 * pow16((n - 1) as nat)
    }
}

/// Append the hexadecimal digits of `v`.
pub(crate) fn push_hex(out: &mut String, v: u64)
    ensures
        final(out)@ == old(out)@ + hex_text(v as nat),
    decreases v,
{
    if v >= 16 {
        push_hex(out, v / 16);
    }
    let d = (v % 16) as u8;
    let c = if d < 10 {
        (d + 48) as char
    } else {
        (d + 87) as char
    };
    push_char(out, c);
    assert(out@ =~= old(out)@ + hex_text(v as nat));
}

/// A register value in 16 hexadecimal digits: the leading zeros dimmed, the
/// significant digits bold; zero is all dimmed.
pub open spec fn reg_val_text(v: u64) -> Seq<char> {
    if v == 0 {
        painted(Tone::Gray, Seq::new(16, |i: int| '0'))
    } else {
        let num = hex_text(v as nat);
        painted(Tone::Gray, Seq::new((16 - num.len()) as nat, |i: int| '0')) + painted(Tone::Bold, num)
    }
}

fn format_reg_val(v: u64) -> (r: String)
    ensures
        r@ == reg_val_text(v),
{
    if v == 0 {
        let zeros = "0000000000000000";
        proof {
            reveal_strlit("0000000000000000");
            assert(zeros@ =~= Seq::new(16, |i: int| '0'));
        }
        paint(Tone::Gray, zeros)
    } else {
        let mut num = String::new();
        push_hex(&mut num, v);
        proof {
            reveal_with_fuel(pow16, 17);
            lemma_hex_text_len(v as nat, 16);
        }
        let mut zeros = String::new();
        let mut i: usize = num.unicode_len();
        let ghost n = num@.len();
        while i < 16
            invariant
                n <= i <= 16,
                zeros@ == Seq::new((i - n) as nat, |j: int| '0'),
            decreases 16 - i,
        {
            push_char(&mut zeros, '0');
            i = i + 1;
            assert(zeros@ =~= Seq::new((i - n) as nat, |j: int| '0'));
        }
        let head = paint(Tone::Gray, zeros.as_str());
        let tail = paint(Tone::Bold, num.as_str());
        head.concat(tail.as_str())
    }
}

/// The general-purpose registers `rax` to `rbp`, two lines of four.
pub open spec fn reg_file_text(r: Seq<u64>) -> Seq<char> {
    "ax "@ + reg_val_text(r[reg_code::RAX as int]) + " bx "@ + reg_val_text(r[reg_code::RBX as int])
        + " cx "@ + reg_val_text(r[reg_code::RCX as int]) + " dx "@ + reg_val_text(r[reg_code::RDX as int])
        + "\nsi "@ + reg_val_text(r[reg_code::RSI as int]) + " di "@ + reg_val_text(r[reg_code::RDI as int])
        + " sp "@ + reg_val_text(r[reg_code::RSP as int]) + " bp "@ + reg_val_text(r[reg_code::RBP as int])
}

pub fn format_reg_file(reg_file: RegFile) -> (r: String)
    ensures
        r@ == reg_file_text(reg_file@),
{
    let mut out = String::new();
    out.append("ax ");
    out.append(format_reg_val(reg_file[reg_code::RAX as usize]).as_str());
    out.append(" bx ");
    out.append(format_reg_val(reg_file[reg_code::RBX as usize]).as_str());
    out.append(" cx ");
    out.append(format_reg_val(reg_file[reg_code::RCX as usize]).as_str());
    out.append(" dx ");
    out.append(format_reg_val(reg_file[reg_code::RDX as usize]).as_str());
    out.append("\nsi ");
    out.append(format_reg_val(reg_file[reg_code::RSI as usize]).as_str());
    out.append(" di ");
    out.append(format_reg_val(reg_file[reg_code::RDI as usize]).as_str());
    out.append(" sp ");
    out.append(format_reg_val(reg_file[reg_code::RSP as usize]).as_str());
    out.append(" bp ");
    out.append(format_reg_val(reg_file[reg_code::RBP as usize]).as_str());
    assert(out@ =~= reg_file_text(reg_file@));
    out
}

} // verus!
