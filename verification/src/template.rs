use vstd::arithmetic::power2::{lemma_pow2_adds, lemma_pow2_pos, pow2};
use vstd::bits::{
    lemma_low_bits_mask_values, lemma_u64_pow2_no_overflow, lemma_u64_shl_is_mul, low_bits_mask,
};
use vstd::prelude::*;

verus! {

/// One contiguous run of bit positions of the assembled instruction word,
/// from `hi` down to `lo`, both inclusive.
#[derive(Clone, Copy, Debug, PartialEq, Eq, Structural)]
pub struct BitRun {
    pub hi: u8,
    pub lo: u8,
}

/// A named field of a template: bit runs concatenated most-significant-first.
/// The runs need not be adjacent in the instruction word, so a field may
/// gather non-contiguous bit positions.
pub struct FieldSpec {
    pub runs: Vec<BitRun>,
}

/// An optional predicate over the extracted field values that can veto an
/// otherwise-matching template.
#[derive(Clone, Copy, Debug, PartialEq, Eq, Structural)]
pub enum Guard {
    /// The template matches whenever its fixed bits match.
    Always,
    /// The field at the given index must be non-zero (a reserved all-zero
    /// form is rejected, and matching continues with the next template).
    FieldNonZero { field: usize },
}

/// One recognized encoding: fixed-bit mask and value over the assembled
/// instruction word, the named field descriptors, and an optional guard.
pub struct Template {
    pub mask: u64,
    pub value: u64,
    pub fields: Vec<FieldSpec>,
    pub guard: Guard,
}

pub open spec fn run_wf(r: BitRun) -> bool {
    r.lo <= r.hi && r.hi < 64
}

pub open spec fn run_width(r: BitRun) -> nat {
    (r.hi - r.lo + 1) as nat
}

/// The value of one bit run of `x`: the bits from `hi` down to `lo`.
pub open spec fn run_val(r: BitRun, x: u64) -> u64 {
    (x >> (r.lo as u64)) & (low_bits_mask(run_width(r)) as u64)
}

/// The total number of bits a field gathers.
pub open spec fn field_width(runs: Seq<BitRun>) -> nat
    decreases runs.len(),
{
    if runs.len() == 0 {
        0
    } else {
        field_width(runs.drop_last()) + run_width(runs.last())
    }
}

/// The value of a field: its runs concatenated most-significant-first.
pub open spec fn field_val(runs: Seq<BitRun>, x: u64) -> nat
    decreases runs.len(),
{
    if runs.len() == 0 {
        0
    } else {
        field_val(runs.drop_last(), x) * pow2(run_width(runs.last())) + run_val(
            runs.last(),
            x,
        ) as nat
    }
}

pub open spec fn field_wf(f: &FieldSpec) -> bool {
    &&& forall|i: int| 0 <= i < f.runs@.len() ==> run_wf(#[trigger] f.runs@[i])
    &&& field_width(f.runs@) <= 63
}

pub open spec fn template_wf(t: &Template) -> bool {
    &&& forall|i: int| 0 <= i < t.fields@.len() ==> field_wf(#[trigger] &t.fields@[i])
    &&& match t.guard {
        Guard::Always => true,
        Guard::FieldNonZero { field } => field < t.fields@.len(),
    }
}

pub open spec fn guard_passes(t: &Template, x: u64) -> bool {
    match t.guard {
        Guard::Always => true,
        Guard::FieldNonZero { field } => field_val(t.fields@[field as int].runs@, x) != 0,
    }
}

/// A template hits when its fixed bits match and its guard passes.
pub open spec fn template_hits(t: &Template, x: u64) -> bool {
    x & t.mask == t.value && guard_passes(t, x)
}

/// The index of the first template of the table that hits, if any:
/// overlapping templates are resolved purely by declaration order.
pub open spec fn first_hit(table: Seq<Template>, x: u64) -> Option<int>
    decreases table.len(),
{
    if table.len() == 0 {
        None
    } else if template_hits(&table[0], x) {
        Some(0)
    } else {
        match first_hit(table.drop_first(), x) {
            Some(i) => Some(i + 1),
            None => None,
        }
    }
}

/// `first_hit` returns the least hitting index, and `None` exactly when no
/// template hits.
pub proof fn lemma_first_hit_props(table: Seq<Template>, x: u64)
    ensures
        match first_hit(table, x) {
            Some(i) => 0 <= i < table.len() && template_hits(&table[i], x) && forall|j: int|
                0 <= j < i ==> !template_hits(&table[j], x),
            None => forall|j: int| 0 <= j < table.len() ==> !template_hits(&table[j], x),
        },
    decreases table.len(),
{
    if table.len() > 0 && !template_hits(&table[0], x) {
        let rest = table.drop_first();
        lemma_first_hit_props(rest, x);
        assert forall|j: int| 0 <= j < rest.len() implies rest[j] == table[j + 1] by {}
        match first_hit(rest, x) {
            Some(i) => {
                assert(first_hit(table, x) == Some(i + 1));
                assert(template_hits(&table[i + 1], x));
                assert forall|j: int| 0 <= j < i + 1 implies !template_hits(&table[j], x) by {
                    if j > 0 {
                        assert(!template_hits(&rest[j - 1], x));
                    }
                }
            },
            None => {
                assert forall|j: int| 0 <= j < table.len() implies !template_hits(
                    &table[j],
                    x,
                ) by {
                    if j > 0 {
                        assert(!template_hits(&rest[j - 1], x));
                    }
                }
            },
        }
    }
}

/// Template precedence: whenever two templates of a table both hit -- their
/// fixed bits both match and their guards both pass -- the one declared
/// earlier wins; the match lands at or before the earlier of the two.
pub proof fn lemma_earlier_template_wins(table: Seq<Template>, x: u64, i: int, j: int)
    requires
        0 <= i < j < table.len(),
        template_hits(&table[i], x),
        template_hits(&table[j], x),
    ensures
        first_hit(table, x) is Some,
        first_hit(table, x)->Some_0 <= i,
{
    lemma_first_hit_props(table, x);
}

/// Extracts one field of `x` by concatenating its bit runs
/// most-significant-first.
pub fn extract_field(f: &FieldSpec, x: u64) -> (v: u64)
    requires
        field_wf(f),
    ensures
        v as nat == field_val(f.runs@, x),
{
    let mut v: u64 = 0;
    let mut j: usize = 0;
    proof {
        assert(f.runs@.take(0) =~= Seq::<BitRun>::empty());
        vstd::arithmetic::power2::lemma2_to64();
    }
    while j < f.runs.len()
        invariant
            field_wf(f),
            j <= f.runs@.len(),
            v as nat == field_val(f.runs@.take(j as int), x),
            field_width(f.runs@.take(j as int)) <= 63,
            (v as nat) < pow2(field_width(f.runs@.take(j as int))),
        decreases f.runs@.len() - j,
    {
        let r = f.runs[j];
        assert(run_wf(r));
        let w: u64 = (r.hi - r.lo) as u64 + 1;
        proof {
            lemma_field_width_take_grows(f.runs@, j as int);
            lemma_field_width_take_le(f.runs@, j + 1);
            assert(field_width(f.runs@.take(j as int)) + run_width(r) <= 63);
            lemma_u64_pow2_no_overflow(w as nat);
            lemma_u64_shl_is_mul(1u64, w);
        }
        let m: u64 = (1u64 << w) - 1;
        assert(m as nat == low_bits_mask(w as nat)) by {
            lemma_pow2_pos(w as nat);
        }
        let lo: u64 = r.lo as u64;
        let chunk: u64 = (x >> lo) & m;
        assert(chunk == run_val(r, x));
        assert(chunk <= m) by (bit_vector)
            requires
                chunk == (x >> lo) & m,
        ;
        let ghost wide: nat = field_width(f.runs@.take(j as int));
        proof {
            lemma_pow2_adds(wide, w as nat);
            lemma_pow2_pos(w as nat);
            lemma_pow2_pos(wide);
            assert((v as nat) * pow2(w as nat) + chunk < pow2(wide + w as nat)) by (nonlinear_arith)
                requires
                    (v as nat) < pow2(wide),
                    (chunk as nat) < pow2(w as nat),
                    pow2(wide + w as nat) == pow2(wide) * pow2(w as nat),
                    pow2(wide) >= 1,
                    pow2(w as nat) >= 1,
            ;
            assert(pow2(wide + w as nat) <= pow2(63)) by {
                if wide + w < 63 {
                    vstd::arithmetic::power2::lemma_pow2_strictly_increases(
                        (wide + w) as nat,
                        63,
                    );
                }
            }
            vstd::arithmetic::power2::lemma2_to64();
            vstd::arithmetic::power2::lemma2_to64_rest();
            lemma_u64_shl_is_mul(v, w);
        }
        let shifted: u64 = v << w;
        assert(shifted & m == 0) by (bit_vector)
            requires
                shifted == v << w,
                w < 64u64,
                m as int == (1u64 << w) - 1,
        ;
        assert(shifted | chunk == shifted + chunk) by (bit_vector)
            requires
                w < 64u64,
                chunk <= m,
                m as int == (1u64 << w) - 1,
                shifted & m == 0,
        ;
        let v2: u64 = shifted | chunk;
        proof {
            assert(f.runs@.take(j + 1).drop_last() =~= f.runs@.take(j as int));
            assert(f.runs@.take(j + 1).last() == r);
            assert(v2 as nat == field_val(f.runs@.take(j + 1), x));
            assert(field_width(f.runs@.take(j + 1)) == wide + w as nat);
        }
        v = v2;
        j = j + 1;
    }
    proof {
        assert(f.runs@.take(f.runs@.len() as int) =~= f.runs@);
    }
    v
}

/// A prefix of a field's runs gathers no more bits than the whole field.
proof fn lemma_field_width_take_le(runs: Seq<BitRun>, k: int)
    requires
        0 <= k <= runs.len(),
    ensures
        field_width(runs.take(k)) <= field_width(runs),
    decreases runs.len(),
{
    if k == runs.len() {
        assert(runs.take(k) =~= runs);
    } else {
        let head = runs.drop_last();
        assert(runs.take(k) =~= head.take(k));
        lemma_field_width_take_le(head, k);
    }
}

/// The width of the first `j + 1` runs is the width of the first `j` plus the
/// width of run `j`.
proof fn lemma_field_width_take_grows(runs: Seq<BitRun>, j: int)
    requires
        0 <= j < runs.len(),
    ensures
        field_width(runs.take(j + 1)) == field_width(runs.take(j)) + run_width(runs[j]),
{
    assert(runs.take(j + 1).drop_last() =~= runs.take(j));
    assert(runs.take(j + 1).last() == runs[j]);
}

/// Evaluates the ordered template table against the assembled word `x`: the
/// first template whose fixed bits match and whose guard passes wins, and its
/// extracted field values are returned beside its index.
pub fn match_table(table: &Vec<Template>, x: u64) -> (r: Option<(usize, Vec<u64>)>)
    requires
        forall|i: int| 0 <= i < table@.len() ==> template_wf(#[trigger] &table@[i]),
    ensures
        match r {
            None => first_hit(table@, x) is None,
            Some((i, vals)) => {
                &&& first_hit(table@, x) == Some(i as int)
                &&& i < table@.len()
                &&& template_hits(&table@[i as int], x)
                &&& vals@.len() == table@[i as int].fields@.len()
                &&& forall|j: int|
                    0 <= j < vals@.len() ==> #[trigger] vals@[j] as nat == field_val(
                        table@[i as int].fields@[j].runs@,
                        x,
                    )
            },
        },
{
    let mut i: usize = 0;
    while i < table.len()
        invariant
            forall|k: int| 0 <= k < table@.len() ==> template_wf(#[trigger] &table@[k]),
            i <= table@.len(),
            forall|k: int| 0 <= k < i ==> !template_hits(#[trigger] &table@[k], x),
        decreases table@.len() - i,
    {
        let t = &table[i];
        if x & t.mask == t.value {
            let mut vals: Vec<u64> = Vec::new();
            let mut j: usize = 0;
            while j < t.fields.len()
                invariant
                    template_wf(t),
                    j <= t.fields@.len(),
                    vals@.len() == j,
                    forall|k: int|
                        0 <= k < j ==> #[trigger] vals@[k] as nat == field_val(
                            t.fields@[k].runs@,
                            x,
                        ),
                decreases t.fields@.len() - j,
            {
                let v = extract_field(&t.fields[j], x);
                vals.push(v);
                j = j + 1;
            }
            let pass = match t.guard {
                Guard::Always => true,
                Guard::FieldNonZero { field } => vals[field] != 0,
            };
            assert(pass == guard_passes(t, x));
            if pass {
                proof {
                    lemma_first_hit_props(table@, x);
                    assert(template_hits(&table@[i as int], x));
                }
                return Some((i, vals));
            }
        }
        assert(!template_hits(&table@[i as int], x));
        i = i + 1;
    }
    proof {
        lemma_first_hit_props(table@, x);
    }
    None
}

} // verus!
