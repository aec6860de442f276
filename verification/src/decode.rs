use crate::error::DecodeError;
use crate::insn::Insn;
use crate::template::{
    field_val, field_width, lemma_first_hit_props, match_table, template_wf, BitRun, FieldSpec,
    Guard, Template,
};
use vstd::bits::{lemma_low_bits_mask_values, low_bits_mask};
use vstd::prelude::*;

verus! {

/// The supported total byte counts: 2, 4, 6 and 8 bytes, standing for the
/// 16-, 32-, 48- and 64-bit instruction widths.
pub open spec fn supported_width(sz: int) -> bool {
    sz == 2 || sz == 4 || sz == 6 || sz == 8
}

/// How many 16-bit raw words a width holds.
pub open spec fn word_count(sz: int) -> int {
    sz / 2
}

/// The width-specific packing of the raw words into one integer.  Each width
/// has its own fixed permutation of which word occupies which bit range; the
/// 48- and 64-bit widths use irregular orders of their own, as the known-good
/// sample encodings of the target instruction set require.
pub open spec fn spec_assemble(sz: int, w: Seq<u16>) -> u64 {
    if sz == 2 {
        w[0] as u64
    } else if sz == 4 {
        (((w[0] as u32) << 16u32) | (w[1] as u32)) as u64
    } else if sz == 6 {
        (w[0] as u64) | ((w[1] as u64) << 16u64) | ((w[2] as u64) << 32u64)
    } else if sz == 8 {
        ((w[0] as u64) << 16u64) | (w[1] as u64) | ((w[2] as u64) << 48u64) | ((w[3] as u64)
            << 32u64)
    } else {
        0
    }
}

/// The inverse of the packing: the 16-bit slices of the assembled integer,
/// listed in the order the words stood in the source text.
pub open spec fn spec_unpack(sz: int, x: u64) -> Seq<u16> {
    if sz == 2 {
        seq![x as u16]
    } else if sz == 4 {
        seq![(x >> 16u64) as u16, x as u16]
    } else if sz == 6 {
        seq![x as u16, (x >> 16u64) as u16, (x >> 32u64) as u16]
    } else if sz == 8 {
        seq![(x >> 16u64) as u16, x as u16, (x >> 48u64) as u16, (x >> 32u64) as u16]
    } else {
        Seq::empty()
    }
}

/// Round trip: packing the raw words of a supported width per the dispatcher's
/// order and then re-splitting the assembled integer into half-words recovers
/// the original ordered word sequence.
pub proof fn lemma_assemble_round_trip(sz: int, w: Seq<u16>)
    requires
        supported_width(sz),
        w.len() == word_count(sz),
    ensures
        spec_unpack(sz, spec_assemble(sz, w)) == w,
{
    if sz == 2 {
        let w0 = w[0];
        assert((w0 as u64) as u16 == w0) by (bit_vector);
        assert(spec_unpack(sz, spec_assemble(sz, w)) =~= w);
    } else if sz == 4 {
        let w0 = w[0];
        let w1 = w[1];
        let x = (((w0 as u32) << 16u32) | (w1 as u32)) as u64;
        assert((x >> 16u64) as u16 == w0 && x as u16 == w1) by (bit_vector)
            requires
                x == (((w0 as u32) << 16u32) | (w1 as u32)) as u64,
        ;
        assert(spec_unpack(sz, spec_assemble(sz, w)) =~= w);
    } else if sz == 6 {
        let w0 = w[0];
        let w1 = w[1];
        let w2 = w[2];
        let x = (w0 as u64) | ((w1 as u64) << 16u64) | ((w2 as u64) << 32u64);
        assert(x as u16 == w0 && (x >> 16u64) as u16 == w1 && (x >> 32u64) as u16 == w2)
            by (bit_vector)
            requires
                x == (w0 as u64) | ((w1 as u64) << 16u64) | ((w2 as u64) << 32u64),
        ;
        assert(spec_unpack(sz, spec_assemble(sz, w)) =~= w);
    } else {
        let w0 = w[0];
        let w1 = w[1];
        let w2 = w[2];
        let w3 = w[3];
        let x = ((w0 as u64) << 16u64) | (w1 as u64) | ((w2 as u64) << 48u64) | ((w3 as u64)
            << 32u64);
        assert((x >> 16u64) as u16 == w0 && x as u16 == w1 && (x >> 48u64) as u16 == w2 && (x
            >> 32u64) as u16 == w3) by (bit_vector)
            requires
                x == ((w0 as u64) << 16u64) | (w1 as u64) | ((w2 as u64) << 48u64) | ((w3 as u64)
                    << 32u64),
        ;
        assert(spec_unpack(sz, spec_assemble(sz, w)) =~= w);
    }
}

/// Packs the raw words of a supported width into the assembled integer.
pub fn assemble(sz: usize, insn: &Vec<u16>) -> (x: u64)
    requires
        supported_width(sz as int),
        insn@.len() == word_count(sz as int),
    ensures
        x == spec_assemble(sz as int, insn@),
{
    if sz == 2 {
        insn[0] as u64
    } else if sz == 4 {
        (((insn[0] as u32) << 16u32) | (insn[1] as u32)) as u64
    } else if sz == 6 {
        (insn[0] as u64) | ((insn[1] as u64) << 16u64) | ((insn[2] as u64) << 32u64)
    } else {
        ((insn[0] as u64) << 16u64) | (insn[1] as u64) | ((insn[2] as u64) << 48u64) | ((insn[3]
            as u64) << 32u64)
    }
}

/// Splits an assembled integer of a supported width back into its raw words.
pub fn unpack(sz: usize, x: u64) -> (w: Vec<u16>)
    requires
        supported_width(sz as int),
    ensures
        w@ == spec_unpack(sz as int, x),
{
    let mut w: Vec<u16> = Vec::new();
    if sz == 2 {
        w.push(x as u16);
    } else if sz == 4 {
        w.push((x >> 16u64) as u16);
        w.push(x as u16);
    } else if sz == 6 {
        w.push(x as u16);
        w.push((x >> 16u64) as u16);
        w.push((x >> 32u64) as u16);
    } else {
        w.push((x >> 16u64) as u16);
        w.push(x as u16);
        w.push((x >> 48u64) as u16);
        w.push((x >> 32u64) as u16);
    }
    proof {
        assert(w@ =~= spec_unpack(sz as int, x));
    }
    w
}

/// What the 16-bit table decodes: the register-list push encoding, fixed bits
/// `10111000` above the `urlist` and `spimm` fields and `10` below them.
pub open spec fn spec_decode_16(x: u16) -> Result<Insn, DecodeError> {
    if x & 0xFF03 == 0xB802 {
        Ok(
            Insn::CmPush {
                urlist: (x >> 4u16) & 0xF,
                spimm: (x >> 2u16) & 0x3,
            },
        )
    } else {
        Err(DecodeError::UnrecognizedEncoding)
    }
}

/// What the 32-bit table decodes: the bit-field insert encoding, whose guard
/// rejects a zero destination register.
pub open spec fn spec_decode_32(x: u32) -> Result<Insn, DecodeError> {
    if x & 0xC000_707F == 0x100B && (x >> 7u32) & 0x1F != 0 {
        Ok(
            Insn::Insbi {
                rd: ((x >> 7u32) & 0x1F) as u8,
                imm: ((x >> 15u32) & 0x1F) as u8,
                shift: ((x >> 20u32) & 0x1F) as u8,
                width: ((x >> 25u32) & 0x1F) as u8,
            },
        )
    } else {
        Err(DecodeError::UnrecognizedEncoding)
    }
}

/// What the 48-bit table decodes: the extended load-immediate encoding, whose
/// guard rejects a zero destination register.
pub open spec fn spec_decode_48(x: u64) -> Result<Insn, DecodeError> {
    if x & 0xF07F == 0x1F && (x >> 7u64) & 0x1F != 0 {
        Ok(
            Insn::XqciELi {
                rd: ((x >> 7u64) & 0x1F) as u8,
                imm: ((x >> 16u64) & 0xFFFF_FFFF) as u32,
            },
        )
    } else {
        Err(DecodeError::UnrecognizedEncoding)
    }
}

/// What the 64-bit table decodes: one fully fixed placeholder encoding.
pub open spec fn spec_decode_64(x: u64) -> Result<Insn, DecodeError> {
    if x & 0x00FF_FFFF_FFFF_FFFF == 0x0020_0020_0940_003F {
        Ok(Insn::Fake64)
    } else {
        Err(DecodeError::UnrecognizedEncoding)
    }
}

/// Decoding a raw word sequence: map the byte count to a width, pack the
/// words per that width's order, and run the width's template table.
pub open spec fn spec_decode(sz: int, w: Seq<u16>) -> Result<Insn, DecodeError> {
    if sz == 2 {
        spec_decode_16(w[0])
    } else if sz == 4 {
        spec_decode_32(spec_assemble(4, w) as u32)
    } else if sz == 6 {
        spec_decode_48(spec_assemble(6, w))
    } else if sz == 8 {
        spec_decode_64(spec_assemble(8, w))
    } else {
        Err(DecodeError::UnsupportedLength)
    }
}

/// A field of one bit run, from `hi` down to `lo`, as a vector.
fn single_run_field(hi: u8, lo: u8) -> (f: FieldSpec)
    requires
        lo <= hi < 64,
    ensures
        f.runs@ =~= seq![BitRun { hi, lo }],
{
    let mut runs: Vec<BitRun> = Vec::new();
    runs.push(BitRun { hi, lo });
    FieldSpec { runs }
}

/// The width and value of a field of one run.
proof fn lemma_single_run(hi: u8, lo: u8, x: u64)
    requires
        lo <= hi < 64,
    ensures
        field_width(seq![BitRun { hi, lo }]) == (hi - lo + 1) as nat,
        field_val(seq![BitRun { hi, lo }], x) == ((x >> (lo as u64)) & (low_bits_mask(
            (hi - lo + 1) as nat,
        ) as u64)) as nat,
{
    let s = seq![BitRun { hi, lo }];
    let r = BitRun { hi, lo };
    assert(s.drop_last() =~= Seq::<BitRun>::empty());
    assert(field_width(s.drop_last()) == 0);
    assert(field_val(s.drop_last(), x) == 0);
    assert(s.last() == r);
    assert(field_val(s, x) == field_val(s.drop_last(), x) * vstd::arithmetic::power2::pow2(
        crate::template::run_width(s.last()),
    ) + crate::template::run_val(s.last(), x) as nat);
    assert(0 * vstd::arithmetic::power2::pow2(crate::template::run_width(r)) == 0);
    assert(field_val(s, x) == crate::template::run_val(r, x) as nat);
}

/// Decodes one assembled 16-bit word against the 16-bit template table.
pub fn decode_16(x: u16) -> (r: Result<Insn, DecodeError>)
    ensures
        r == spec_decode_16(x),
{
    let mut fields: Vec<FieldSpec> = Vec::new();
    fields.push(single_run_field(7, 4));
    fields.push(single_run_field(3, 2));
    let t = Template { mask: 0xFF03, value: 0xB802, fields, guard: Guard::Always };
    let mut table: Vec<Template> = Vec::new();
    table.push(t);
    let xw: u64 = x as u64;
    proof {
        lemma_single_run(7, 4, xw);
        lemma_single_run(3, 2, xw);
        lemma_low_bits_mask_values();
        assert(template_wf(&table@[0]));
        lemma_first_hit_props(table@, xw);
        assert(((x as u64) & 0xFF03 == 0xB802) == (x & 0xFF03 == 0xB802)) by (bit_vector);
    }
    match match_table(&table, xw) {
        Some((i, vals)) => {
            let v0 = vals[0];
            let v1 = vals[1];
            proof {
                assert(v0 as u16 == (x >> 4u16) & 0xF && v1 as u16 == (x >> 2u16) & 0x3)
                    by (bit_vector)
                    requires
                        v0 == ((x as u64) >> 4u64) & 0xFu64,
                        v1 == ((x as u64) >> 2u64) & 0x3u64,
                ;
            }
            Ok(Insn::CmPush { urlist: v0 as u16, spimm: v1 as u16 })
        },
        None => Err(DecodeError::UnrecognizedEncoding),
    }
}

/// Decodes one assembled 32-bit word against the 32-bit template table.
pub fn decode_32(x: u32) -> (r: Result<Insn, DecodeError>)
    ensures
        r == spec_decode_32(x),
{
    let mut fields: Vec<FieldSpec> = Vec::new();
    fields.push(single_run_field(29, 25));
    fields.push(single_run_field(24, 20));
    fields.push(single_run_field(19, 15));
    fields.push(single_run_field(11, 7));
    let t = Template {
        mask: 0xC000_707F,
        value: 0x100B,
        fields,
        guard: Guard::FieldNonZero { field: 3 },
    };
    let mut table: Vec<Template> = Vec::new();
    table.push(t);
    let xw: u64 = x as u64;
    proof {
        lemma_single_run(29, 25, xw);
        lemma_single_run(24, 20, xw);
        lemma_single_run(19, 15, xw);
        lemma_single_run(11, 7, xw);
        lemma_low_bits_mask_values();
        assert(template_wf(&table@[0]));
        lemma_first_hit_props(table@, xw);
        assert(((x as u64) & 0xC000_707F == 0x100B) == (x & 0xC000_707F == 0x100B)
            && (((x as u64) >> 7u64) & 0x1F != 0) == ((x >> 7u32) & 0x1F != 0)) by (bit_vector);
    }
    match match_table(&table, xw) {
        Some((i, vals)) => {
            let v0 = vals[0];
            let v1 = vals[1];
            let v2 = vals[2];
            let v3 = vals[3];
            proof {
                assert(v3 as u8 == ((x >> 7u32) & 0x1F) as u8 && v2 as u8 == ((x >> 15u32) & 0x1F)
                    as u8 && v1 as u8 == ((x >> 20u32) & 0x1F) as u8 && v0 as u8 == ((x >> 25u32)
                    & 0x1F) as u8) by (bit_vector)
                    requires
                        v0 == ((x as u64) >> 25u64) & 0x1Fu64,
                        v1 == ((x as u64) >> 20u64) & 0x1Fu64,
                        v2 == ((x as u64) >> 15u64) & 0x1Fu64,
                        v3 == ((x as u64) >> 7u64) & 0x1Fu64,
                ;
            }
            Ok(
                Insn::Insbi {
                    rd: v3 as u8,
                    imm: v2 as u8,
                    shift: v1 as u8,
                    width: v0 as u8,
                },
            )
        },
        None => Err(DecodeError::UnrecognizedEncoding),
    }
}

/// Decodes one assembled 48-bit word against the 48-bit template table.
pub fn decode_48(x: u64) -> (r: Result<Insn, DecodeError>)
    ensures
        r == spec_decode_48(x),
{
    let mut fields: Vec<FieldSpec> = Vec::new();
    fields.push(single_run_field(47, 16));
    fields.push(single_run_field(11, 7));
    let t = Template { mask: 0xF07F, value: 0x1F, fields, guard: Guard::FieldNonZero { field: 1 } };
    let mut table: Vec<Template> = Vec::new();
    table.push(t);
    proof {
        lemma_single_run(47, 16, x);
        lemma_single_run(11, 7, x);
        lemma_low_bits_mask_values();
        assert(template_wf(&table@[0]));
        lemma_first_hit_props(table@, x);
    }
    match match_table(&table, x) {
        Some((i, vals)) => {
            let v0 = vals[0];
            let v1 = vals[1];
            proof {
                assert(v1 as u8 == ((x >> 7u64) & 0x1F) as u8 && v0 as u32 == ((x >> 16u64)
                    & 0xFFFF_FFFF) as u32) by (bit_vector)
                    requires
                        v0 == (x >> 16u64) & 0xFFFF_FFFFu64,
                        v1 == (x >> 7u64) & 0x1Fu64,
                ;
            }
            Ok(Insn::XqciELi { rd: v1 as u8, imm: v0 as u32 })
        },
        None => Err(DecodeError::UnrecognizedEncoding),
    }
}

/// Decodes one assembled 64-bit word against the 64-bit template table.
pub fn decode_64(x: u64) -> (r: Result<Insn, DecodeError>)
    ensures
        r == spec_decode_64(x),
{
    let fields: Vec<FieldSpec> = Vec::new();
    let t = Template {
        mask: 0x00FF_FFFF_FFFF_FFFF,
        value: 0x0020_0020_0940_003F,
        fields,
        guard: Guard::Always,
    };
    let mut table: Vec<Template> = Vec::new();
    table.push(t);
    proof {
        assert(template_wf(&table@[0]));
        lemma_first_hit_props(table@, x);
    }
    match match_table(&table, x) {
        Some((i, vals)) => Ok(Insn::Fake64),
        None => Err(DecodeError::UnrecognizedEncoding),
    }
}

/// Guard rejection: any 32-bit word whose fixed bits match the bit-field
/// insert template but whose destination field is zero fails to decode --
/// the guard rejects it, no other template matches, and no record with a
/// zero register is fabricated.
pub proof fn lemma_zero_destination_rejected(x: u32)
    requires
        x & 0xC000_707F == 0x100B,
        (x >> 7u32) & 0x1F == 0,
    ensures
        spec_decode_32(x) == Err::<Insn, DecodeError>(DecodeError::UnrecognizedEncoding),
{
}

/// Maps the total byte count to an instruction width, packs the raw words in
/// that width's order, and decodes the assembled integer against the width's
/// template table.  A byte count outside 2, 4, 6, 8 is unsupported.
pub fn decode(sz: usize, insn: Vec<u16>) -> (r: Result<Insn, DecodeError>)
    requires
        supported_width(sz as int) ==> insn@.len() == word_count(sz as int),
    ensures
        r == spec_decode(sz as int, insn@),
{
    if sz == 2 || sz == 4 || sz == 6 || sz == 8 {
        let x = assemble(sz, &insn);
        if sz == 2 {
            decode_16(x as u16)
        } else if sz == 4 {
            decode_32(x as u32)
        } else if sz == 6 {
            decode_48(x)
        } else {
            decode_64(x)
        }
    } else {
        Err(DecodeError::UnsupportedLength)
    }
}

} // verus!
