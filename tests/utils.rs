use y86_sim::isa::inst_code::{name_of, HALT, IOPQ, NOP};
use y86_sim::isa::{arithmetic_compute, ConditionCode, Stat};
use y86_sim::utils::{decode_hex, format_ctrl, format_icode, format_reg_file, get_u64, parse_literal, put_u64, InvalidHex};
use y86_sim::verbose::{verbose_level_to_trace, TraceLevel, VerboseLevel};

#[test]
fn parse_literal_decimal_and_hex() {
    assert_eq!(parse_literal("42"), Some(42));
    assert_eq!(parse_literal("-1"), Some(u64::MAX));
    assert_eq!(parse_literal("+7"), Some(7));
    assert_eq!(parse_literal("0x10"), Some(16));
    assert_eq!(parse_literal("0xffffffffffffffff"), Some(u64::MAX));
    assert_eq!(parse_literal("0xFf"), Some(255));
    assert_eq!(parse_literal("9223372036854775807"), Some(i64::MAX as u64));
}

#[test]
fn parse_literal_leading_minus_negates() {
    assert_eq!(parse_literal("-5"), Some((-5i64) as u64));
    assert_eq!(parse_literal("-0x10"), Some((-16i64) as u64));
    assert_eq!(parse_literal("5-"), None);
    assert_eq!(parse_literal("-9223372036854775808"), Some(i64::MIN as u64));
}

#[test]
fn parse_literal_rejects_malformed() {
    assert_eq!(parse_literal(""), None);
    assert_eq!(parse_literal("-"), None);
    assert_eq!(parse_literal("0x"), None);
    assert_eq!(parse_literal("12a"), None);
    assert_eq!(parse_literal("0x1g"), None);
    assert_eq!(parse_literal("9223372036854775808"), None);
    assert_eq!(parse_literal("0x10000000000000000"), None);
    assert_eq!(parse_literal("label"), None);
}

#[test]
fn decode_hex_pairs() {
    assert_eq!(decode_hex("00ff10Ab"), Ok(vec![0x00, 0xff, 0x10, 0xab]));
    assert_eq!(decode_hex(""), Ok(vec![]));
    assert_eq!(decode_hex("+f"), Ok(vec![0x0f]));
    assert_eq!(decode_hex("00zz11"), Err(InvalidHex(2)));
}

#[test]
fn little_endian_words() {
    let mut buf = [0u8; 10];
    put_u64(&mut buf, 0x0102_0304_0506_0708);
    assert_eq!(buf, [8, 7, 6, 5, 4, 3, 2, 1, 0, 0]);
    assert_eq!(get_u64(&buf), 0x0102_0304_0506_0708);
    assert_eq!(get_u64(&[0x34, 0x12]), 0x1234);
    let mut short = [0xffu8; 3];
    put_u64(&mut short, 0x0a0b0c0d);
    assert_eq!(short, [0x0d, 0x0c, 0x0b]);
}

#[test]
fn alu_functions() {
    assert_eq!(arithmetic_compute(3, 10, 0), Some(13));
    assert_eq!(arithmetic_compute(3, 10, 1), Some(7));
    assert_eq!(arithmetic_compute(1, 0, 1), Some(u64::MAX));
    assert_eq!(arithmetic_compute(0b1100, 0b1010, 2), Some(0b1000));
    assert_eq!(arithmetic_compute(0b1100, 0b1010, 3), Some(0b0110));
    assert_eq!(arithmetic_compute(1, 1, 4), None);
}

#[test]
fn condition_table() {
    let zero = ConditionCode { sf: false, of: false, zf: true };
    let neg = ConditionCode { sf: true, of: false, zf: false };
    let pos = ConditionCode { sf: false, of: false, zf: false };
    let expect = [
        (zero, [true, true, false, true, false, true, false]),
        (neg, [true, true, true, false, true, false, false]),
        (pos, [true, false, false, false, true, true, true]),
    ];
    for (cc, row) in expect {
        for (cfn, want) in row.iter().enumerate() {
            assert_eq!(cc.test(cfn as u8), *want, "{:?} {}", cc, cfn);
        }
        assert!(!cc.test(7));
    }
}

#[test]
fn condition_codes_after_ops() {
    let mut cc = ConditionCode::default();
    cc.set(1, u64::MAX, 0, 0);
    assert_eq!(cc, ConditionCode { sf: false, of: false, zf: true });
    cc.set(1, 0x7fff_ffff_ffff_ffff, 0x8000_0000_0000_0000, 0);
    assert_eq!(cc, ConditionCode { sf: true, of: true, zf: false });
    cc.set(1, 0x8000_0000_0000_0000, 0x7fff_ffff_ffff_ffff, 1);
    assert_eq!(cc, ConditionCode { sf: false, of: true, zf: false });
    cc.set(1, 2, 0, 2);
    assert_eq!(cc, ConditionCode { sf: false, of: false, zf: true });
}

#[test]
fn names_and_stats() {
    assert_eq!(name_of(HALT), "HALT");
    assert_eq!(name_of(NOP), "NOP");
    assert_eq!(name_of(IOPQ), "IOPQ");
    assert_eq!(name_of(0xe), "no name");
    assert_eq!(Stat::default(), Stat::Aok);
    assert_eq!(Stat::Adr.name(), "adr");
    assert!(Stat::Hlt.is_fault_or_halt());
    assert!(!Stat::Bub.is_fault_or_halt());
}

#[test]
fn verbosity_to_log_level() {
    assert_eq!(verbose_level_to_trace(None), TraceLevel::Error);
    assert_eq!(verbose_level_to_trace(Some(VerboseLevel::Error)), TraceLevel::Warn);
    assert_eq!(verbose_level_to_trace(Some(VerboseLevel::Warn)), TraceLevel::Info);
    assert_eq!(verbose_level_to_trace(Some(VerboseLevel::Info)), TraceLevel::Debug);
    assert_eq!(verbose_level_to_trace(Some(VerboseLevel::Debug)), TraceLevel::Trace);
    assert_eq!(verbose_level_to_trace(Some(VerboseLevel::Trace)), TraceLevel::Trace);
}

fn strip_ansi(s: &str) -> String {
    let mut out = String::new();
    let mut in_escape = false;
    for c in s.chars() {
        if in_escape {
            if c == 'm' {
                in_escape = false;
            }
        } else if c == '\x1b' {
            in_escape = true;
        } else {
            out.push(c);
        }
    }
    out
}

#[test]
fn control_column() {
    assert_eq!(strip_ansi(&format_ctrl(true, false)), "Bubble");
    assert_eq!(strip_ansi(&format_ctrl(true, true)), "Bubble");
    assert_eq!(strip_ansi(&format_ctrl(false, true)), "Stall ");
    assert_eq!(strip_ansi(&format_ctrl(false, false)), "Normal");
    assert_eq!(format_ctrl(true, false), "\x1b[1m\x1b[31mBubble\x1b[0m");
    assert_eq!(format_ctrl(false, false), "\x1b[32mNormal\x1b[0m");
}

#[test]
fn icode_column() {
    assert_eq!(format_icode(HALT), "HALT  ");
    assert_eq!(format_icode(0x3), "IRMOVQ");
    assert_eq!(format_icode(0xf), "no name");
    assert_eq!(strip_ansi(&format_icode(NOP)), "NOP   ");
    assert_eq!(format_icode(NOP), "\x1b[90mNOP   \x1b[0m");
}

#[test]
fn register_panel() {
    let mut regs = [0u64; 16];
    regs[0] = 0xfed;
    regs[4] = 0x100;
    let text = strip_ansi(&format_reg_file(regs));
    assert_eq!(
        text,
        "ax 0000000000000fed bx 0000000000000000 cx 0000000000000000 dx 0000000000000000\n\
         si 0000000000000000 di 0000000000000000 sp 0000000000000100 bp 0000000000000000"
    );
    let styled = format_reg_file(regs);
    assert!(styled.starts_with("ax \x1b[90m0000000000000\x1b[0m\x1b[1mfed\x1b[0m bx \x1b[90m0000000000000000\x1b[0m"));
}
