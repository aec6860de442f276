use insndec::decode::{assemble, unpack};
use insndec::template::{match_table, BitRun, FieldSpec, Guard, Template};
use insndec::{decode, parse_insn, parse_line, DecodeError, Insn};

#[test]
fn test_identity_without_sentinel() {
    let line = "0x3a6 <+22>: fea42623                 sw     a0, -0x14(s0)".to_owned();
    assert_eq!(parse_line(&line), Ok(line.clone()));
    let odd = "no colon and no hex at all".to_owned();
    assert_eq!(parse_line(&odd), Ok(odd.clone()));
}

#[test]
fn test_pack_round_trip() {
    let cases: [(usize, Vec<u16>); 4] = [
        (2, vec![0xb8f2]),
        (4, vec![0x084f, 0x940b]),
        (6, vec![0x021f, 0x0000, 0x1000]),
        (8, vec![0x0940, 0x003f, 0x0020, 0x0020]),
    ];
    for (sz, words) in cases {
        let x = assemble(sz, &words);
        assert_eq!(unpack(sz, x), words);
    }
}

#[test]
fn test_template_precedence() {
    // Two templates whose fixed bits overlap and whose guards both pass:
    // the earlier-declared one must win.
    let early = Template {
        mask: 0x0F,
        value: 0x0F,
        fields: vec![FieldSpec { runs: vec![BitRun { hi: 7, lo: 4 }] }],
        guard: Guard::FieldNonZero { field: 0 },
    };
    let late = Template {
        mask: 0x0F,
        value: 0x0F,
        fields: vec![FieldSpec { runs: vec![BitRun { hi: 7, lo: 4 }] }],
        guard: Guard::Always,
    };
    let table = vec![early, late];
    let r = match_table(&table, 0x3F);
    let (idx, vals) = r.unwrap();
    assert_eq!(idx, 0);
    assert_eq!(vals, vec![3]);
}

#[test]
fn test_guard_rejects_zero_destination() {
    // Fixed bits of the bit-field insert template, destination field zero.
    assert_eq!(
        decode(4, vec![0x0000, 0x100b]),
        Err(DecodeError::UnrecognizedEncoding)
    );
    // The same word with a non-zero destination decodes.
    let ok = decode(4, vec![0x0000, 0x108b]).unwrap();
    assert_eq!(
        ok,
        Insn::Insbi { rd: 1, imm: 0, shift: 0, width: 0 }
    );
}

#[test]
fn test_malformed_token_length_six() {
    let line = "3a6: 12345f <unknown>".to_owned();
    assert_eq!(parse_insn(&line), Err(DecodeError::MalformedToken));
    assert_eq!(parse_line(&line), Err(DecodeError::MalformedToken));
}

#[test]
fn test_malformed_token_non_hex() {
    let line = "3a6: 12g4 <unknown>".to_owned();
    assert_eq!(parse_insn(&line), Err(DecodeError::MalformedToken));
}

#[test]
fn test_missing_delimiter() {
    let line = "3a6 b8f2 <unknown>".to_owned();
    assert_eq!(parse_insn(&line), Err(DecodeError::MissingDelimiter));
}

#[test]
fn test_unsupported_length() {
    assert_eq!(decode(10, vec![1, 2, 3, 4, 5]), Err(DecodeError::UnsupportedLength));
    let line = "3a6: b8f2 b8f2 b8f2 b8f2 b8f2 <unknown>".to_owned();
    assert_eq!(parse_line(&line), Err(DecodeError::UnsupportedLength));
}

#[test]
fn test_format_error_unmapped_urlist() {
    let i = Insn::CmPush { urlist: 0, spimm: 0 };
    assert_eq!(i.render(), Err(DecodeError::FormatError));
    let j = Insn::CmPush { urlist: 3, spimm: 2 };
    assert_eq!(j.render(), Err(DecodeError::FormatError));
}

#[test]
fn test_cmpush_full_range() {
    // Fixed bits 10111000, urlist 15, spimm 1, fixed bits 10.
    let i = decode(2, vec![0xb8f6]).unwrap();
    assert_eq!(i, Insn::CmPush { urlist: 15, spimm: 1 });
    assert_eq!(i.render().unwrap(), "CmPush {ra, s0-s11},-16");
}

#[test]
fn test_cmpush_single_register() {
    // The same fixed bits with urlist 4: the single-register form.
    let i = decode(2, vec![0xb846]).unwrap();
    assert_eq!(i, Insn::CmPush { urlist: 4, spimm: 1 });
    let text = i.render().unwrap();
    assert!(text.starts_with("CmPush {ra},"));
    assert_eq!(text, "CmPush {ra},-16");
}

#[test]
fn test_cmpush_forms() {
    assert_eq!(
        Insn::CmPush { urlist: 5, spimm: 0 }.render().unwrap(),
        "CmPush {ra, s0},-0"
    );
    assert_eq!(
        Insn::CmPush { urlist: 9, spimm: 3 }.render().unwrap(),
        "CmPush {ra, s0-s4},-48"
    );
    assert_eq!(
        Insn::CmPush { urlist: 14, spimm: 2 }.render().unwrap(),
        "CmPush {ra, s0-s9},-32"
    );
}

#[test]
fn test_zero_destination_line_unchanged() {
    // A 32-bit word matching the bit-field insert fixed bits with a zero
    // destination must not decode; the caller then emits the line unchanged.
    let line = "3b8: 0000100b     \t<unknown>".to_owned();
    let r = parse_line(&line);
    assert_eq!(r, Err(DecodeError::UnrecognizedEncoding));
    let emitted = match r {
        Ok(out) => out,
        Err(_) => line.clone(),
    };
    assert_eq!(emitted, line);
}

#[test]
fn test_insbi_rendering() {
    let i = decode(4, vec![0x084f, 0x940b]).unwrap();
    assert_eq!(i, Insn::Insbi { rd: 8, imm: 31, shift: 4, width: 4 });
    assert_eq!(i.render().unwrap(), "insbi x8, #0x1f, #0x4, #0x4");
}

#[test]
fn test_xqci_e_li_rendering() {
    let i = decode(6, vec![0x021f, 0x0000, 0x1000]).unwrap();
    assert_eq!(i, Insn::XqciELi { rd: 4, imm: 268435456 });
    assert_eq!(i.render().unwrap(), "xqci.e.li 4, 268435456");
}

#[test]
fn test_fake64_rendering() {
    let i = decode(8, vec![0x0940, 0x003f, 0x0020, 0x0020]).unwrap();
    assert_eq!(i, Insn::Fake64);
    assert_eq!(i.render().unwrap(), "Fake64");
}

#[test]
fn test_unrecognized_encodings() {
    assert_eq!(decode(2, vec![0x0000]), Err(DecodeError::UnrecognizedEncoding));
    assert_eq!(
        decode(6, vec![0x0200, 0x0000, 0x1000]),
        Err(DecodeError::UnrecognizedEncoding)
    );
    assert_eq!(
        decode(8, vec![0, 0, 0, 0]),
        Err(DecodeError::UnrecognizedEncoding)
    );
}

#[test]
fn test_parse_line_substitution() {
    let line = "3b2: 021f 0000 1000 <unknown>".to_owned();
    assert_eq!(
        parse_line(&line),
        Ok("3b2: 021f 0000 1000 xqci.e.li 4, 268435456".to_owned())
    );
}

#[test]
fn test_parse_insn_word_order() {
    let line = "3aa: 0940003f 0020 <unknown>".to_owned();
    let (sz, words) = parse_insn(&line).unwrap();
    assert_eq!(sz, 6);
    assert_eq!(words, vec![0x0940, 0x003f, 0x0020]);
}

#[test]
fn test_parse_insn_uppercase_hex() {
    let line = "3bc: B8F2".to_owned();
    let (sz, words) = parse_insn(&line).unwrap();
    assert_eq!(sz, 2);
    assert_eq!(words, vec![0xb8f2]);
}
