use crate::decode::{
    decode, spec_assemble, spec_decode, spec_unpack, supported_width, word_count,
};
use crate::error::DecodeError;
use crate::render::{hex_digit, render_view, spec_render};
use vstd::prelude::*;
use vstd::string::{StrSliceExecFns, StringExecFns};

verus! {

/// The whitespace that separates byte-region tokens.
pub open spec fn is_ws(c: char) -> bool {
    c == ' ' || c == '\t'
}

/// The token list of a text region, scanned one character at a time: `cur`
/// is the token being gathered and `acc` the tokens already complete.
pub open spec fn tokens_from(s: Seq<char>, i: int, cur: Seq<char>, acc: Seq<Seq<char>>) -> Seq<
    Seq<char>,
>
    decreases s.len() - i,
{
    if i < 0 || i >= s.len() {
        if cur.len() > 0 {
            acc.push(cur)
        } else {
            acc
        }
    } else if is_ws(s[i]) {
        if cur.len() > 0 {
            tokens_from(s, i + 1, Seq::empty(), acc.push(cur))
        } else {
            tokens_from(s, i + 1, Seq::empty(), acc)
        }
    } else {
        tokens_from(s, i + 1, cur.push(s[i]), acc)
    }
}

/// The whitespace-separated tokens of a text region, in order.
pub open spec fn spec_tokens(s: Seq<char>) -> Seq<Seq<char>> {
    tokens_from(s, 0, Seq::empty(), Seq::empty())
}

/// Tokens already complete stand before whatever the scan still produces.
proof fn lemma_tokens_from_acc(s: Seq<char>, i: int, cur: Seq<char>, acc: Seq<Seq<char>>)
    ensures
        tokens_from(s, i, cur, acc) == acc + tokens_from(s, i, cur, Seq::empty()),
    decreases s.len() - i,
{
    if i < 0 || i >= s.len() {
        if cur.len() > 0 {
            assert(acc.push(cur) =~= acc + Seq::<Seq<char>>::empty().push(cur));
        } else {
            assert(acc =~= acc + Seq::<Seq<char>>::empty());
        }
    } else if is_ws(s[i]) {
        if cur.len() > 0 {
            let t = tokens_from(s, i + 1, Seq::empty(), Seq::empty());
            lemma_tokens_from_acc(s, i + 1, Seq::empty(), acc.push(cur));
            lemma_tokens_from_acc(s, i + 1, Seq::empty(), Seq::<Seq<char>>::empty().push(cur));
            assert(acc.push(cur) + t =~= acc + (Seq::<Seq<char>>::empty().push(cur) + t));
        } else {
            lemma_tokens_from_acc(s, i + 1, Seq::empty(), acc);
        }
    } else {
        lemma_tokens_from_acc(s, i + 1, cur.push(s[i]), acc);
    }
}

/// A hexadecimal digit: `0` to `9`, `a` to `f`, or `A` to `F`.
pub open spec fn is_hex_digit(c: char) -> bool {
    (48 <= c as u32 && c as u32 <= 57) || (97 <= c as u32 && c as u32 <= 102) || (65 <= c as u32
        && c as u32 <= 70)
}

/// The value of a hexadecimal digit.
pub open spec fn hex_val(c: char) -> nat {
    if 48 <= c as u32 && c as u32 <= 57 {
        (c as u32 - 48) as nat
    } else if 97 <= c as u32 && c as u32 <= 102 {
        (c as u32 - 87) as nat
    } else if 65 <= c as u32 && c as u32 <= 70 {
        (c as u32 - 55) as nat
    } else {
        0
    }
}

pub open spec fn all_hex(t: Seq<char>) -> bool {
    forall|k: int| 0 <= k < t.len() ==> is_hex_digit(#[trigger] t[k])
}

/// The value of four hexadecimal digits, most significant first.
pub open spec fn hex4_val(t: Seq<char>) -> nat {
    ((hex_val(t[0]) * 16 + hex_val(t[1])) * 16 + hex_val(t[2])) * 16 + hex_val(t[3])
}

/// The raw words one token contributes: a 4-digit hex token is one half-word,
/// an 8-digit hex token is two in encountered order, and anything else --
/// another length, or a non-hex character -- is malformed.
pub open spec fn token_words(t: Seq<char>) -> Option<Seq<u16>> {
    if t.len() == 4 && all_hex(t) {
        Some(seq![hex4_val(t) as u16])
    } else if t.len() == 8 && all_hex(t) {
        Some(seq![hex4_val(t.take(4)) as u16, hex4_val(t.skip(4)) as u16])
    } else {
        None
    }
}

/// The raw words of a token list, or nothing if any token is malformed.
pub open spec fn words_of(ts: Seq<Seq<char>>) -> Option<Seq<u16>>
    decreases ts.len(),
{
    if ts.len() == 0 {
        Some(Seq::empty())
    } else {
        match token_words(ts[0]) {
            None => None,
            Some(w) => match words_of(ts.drop_first()) {
                None => None,
                Some(rest) => Some(w + rest),
            },
        }
    }
}

proof fn lemma_words_of_concat(a: Seq<Seq<char>>, b: Seq<Seq<char>>)
    ensures
        words_of(a + b) == (match (words_of(a), words_of(b)) {
            (Some(u), Some(v)) => Some(u + v),
            _ => None::<Seq<u16>>,
        }),
    decreases a.len(),
{
    if a.len() == 0 {
        assert(a + b =~= b);
        if words_of(b) is Some {
            assert(Seq::<u16>::empty() + words_of(b)->Some_0 =~= words_of(b)->Some_0);
        }
    } else {
        assert((a + b)[0] == a[0]);
        assert((a + b).len() > 0);
        assert((a + b).drop_first() =~= a.drop_first() + b);
        lemma_words_of_concat(a.drop_first(), b);
        match token_words(a[0]) {
            Some(w) => {
                match (words_of(a.drop_first()), words_of(b)) {
                    (Some(u), Some(v)) => {
                        assert(w + (u + v) =~= (w + u) + v);
                    },
                    _ => {},
                }
            },
            None => {},
        }
    }
}

/// Appending a malformed token anywhere makes the whole list malformed.
proof fn lemma_words_none(acc: Seq<Seq<char>>, cur: Seq<char>, t: Seq<Seq<char>>, ws: Seq<u16>)
    requires
        words_of(acc) == Some(ws),
        token_words(cur) is None,
    ensures
        words_of(acc.push(cur) + t) is None,
{
    assert(acc.push(cur) =~= acc + seq![cur]);
    assert(seq![cur].drop_first() =~= Seq::<Seq<char>>::empty());
    assert(words_of(seq![cur]) is None);
    lemma_words_of_concat(acc, seq![cur]);
    assert(words_of(acc + seq![cur]) is None);
    assert(acc.push(cur) + t =~= (acc + seq![cur]) + t);
    lemma_words_of_concat(acc + seq![cur], t);
}

/// Appending a well-formed token appends its words.
proof fn lemma_words_some(acc: Seq<Seq<char>>, cur: Seq<char>, ws: Seq<u16>, tw: Seq<u16>)
    requires
        words_of(acc) == Some(ws),
        token_words(cur) == Some(tw),
    ensures
        words_of(acc.push(cur)) == Some(ws + tw),
{
    assert(acc.push(cur) =~= acc + seq![cur]);
    assert(seq![cur].drop_first() =~= Seq::<Seq<char>>::empty());
    assert(words_of(Seq::<Seq<char>>::empty()) == Some(Seq::<u16>::empty()));
    assert(tw + Seq::<u16>::empty() =~= tw);
    assert(words_of(seq![cur]) == Some(tw));
    lemma_words_of_concat(acc, seq![cur]);
}

/// The canonical text of one raw word: four hexadecimal digits, most
/// significant first.
pub open spec fn hex4_of(w: u16) -> Seq<char> {
    seq![
        hex_digit(((w >> 12u16) & 0xF) as nat),
        hex_digit(((w >> 8u16) & 0xF) as nat),
        hex_digit(((w >> 4u16) & 0xF) as nat),
        hex_digit((w & 0xF) as nat),
    ]
}

/// The canonical byte-region text of a word sequence: 4-digit hex tokens
/// separated by single spaces.
pub open spec fn words_text(w: Seq<u16>) -> Seq<char>
    decreases w.len(),
{
    if w.len() == 0 {
        Seq::empty()
    } else if w.len() == 1 {
        hex4_of(w[0])
    } else {
        hex4_of(w[0]) + seq![' '] + words_text(w.drop_first())
    }
}

/// A hex digit character reads back as its value, and is never whitespace.
proof fn lemma_hex_digit_val(d: nat)
    requires
        d < 16,
    ensures
        is_hex_digit(hex_digit(d)),
        hex_val(hex_digit(d)) == d,
        !is_ws(hex_digit(d)),
{
}

/// The canonical text of one word is one well-formed token holding it.
proof fn lemma_token_words_hex4(wd: u16)
    ensures
        token_words(hex4_of(wd)) == Some(seq![wd]),
        forall|m: int| 0 <= m < 4 ==> !is_ws(#[trigger] hex4_of(wd)[m]),
{
    let t = hex4_of(wd);
    assert((wd >> 12u16) & 0xF < 16 && (wd >> 8u16) & 0xF < 16 && (wd >> 4u16) & 0xF < 16 && wd
        & 0xF < 16) by (bit_vector);
    lemma_hex_digit_val(((wd >> 12u16) & 0xF) as nat);
    lemma_hex_digit_val(((wd >> 8u16) & 0xF) as nat);
    lemma_hex_digit_val(((wd >> 4u16) & 0xF) as nat);
    lemma_hex_digit_val((wd & 0xF) as nat);
    assert(all_hex(t)) by {
        assert(forall|k: int| 0 <= k < 4 ==> is_hex_digit(#[trigger] t[k]));
    }
    assert(((wd >> 12u16) & 0xF) * 4096 + ((wd >> 8u16) & 0xF) * 256 + ((wd >> 4u16) & 0xF) * 16
        + (wd & 0xF) == wd) by (bit_vector);
    assert(hex4_val(t) == wd as nat);
    assert(seq![hex4_val(t) as u16] =~= seq![wd]);
}

/// The token scan depends only on the text at and after the scan position.
proof fn lemma_tokens_from_suffix(
    s1: Seq<char>,
    i1: int,
    s2: Seq<char>,
    i2: int,
    cur: Seq<char>,
    acc: Seq<Seq<char>>,
)
    requires
        0 <= i1 <= s1.len(),
        0 <= i2 <= s2.len(),
        s1.skip(i1) == s2.skip(i2),
    ensures
        tokens_from(s1, i1, cur, acc) == tokens_from(s2, i2, cur, acc),
    decreases s1.len() - i1,
{
    assert(s1.skip(i1).len() == s1.len() - i1);
    assert(s2.skip(i2).len() == s2.len() - i2);
    assert(s1.skip(i1).len() == s2.skip(i2).len());
    if i1 < s1.len() {
        assert(i2 < s2.len());
        assert(s1[i1] == s1.skip(i1)[0] && s2[i2] == s2.skip(i2)[0]);
        assert(s1.skip(i1 + 1) =~= s2.skip(i2 + 1)) by {
            assert forall|k: int| 0 <= k < s1.skip(i1 + 1).len() implies #[trigger] s1.skip(
                i1 + 1,
            )[k] == s2.skip(i2 + 1)[k] by {
                assert(s1.skip(i1 + 1)[k] == s1[i1 + 1 + k]);
                assert(s1.skip(i1)[k + 1] == s1[i1 + 1 + k]);
                assert(s2.skip(i2 + 1)[k] == s2[i2 + 1 + k]);
                assert(s2.skip(i2)[k + 1] == s2[i2 + 1 + k]);
            }
        }
        if is_ws(s1[i1]) {
            if cur.len() > 0 {
                lemma_tokens_from_suffix(s1, i1 + 1, s2, i2 + 1, Seq::empty(), acc.push(cur));
            } else {
                lemma_tokens_from_suffix(s1, i1 + 1, s2, i2 + 1, Seq::empty(), acc);
            }
        } else {
            lemma_tokens_from_suffix(s1, i1 + 1, s2, i2 + 1, cur.push(s1[i1]), acc);
        }
    }
}

/// Scanning across a whitespace-free stretch only lengthens the current
/// token by that stretch.
proof fn lemma_tokens_from_run(s: Seq<char>, i: int, k: int, cur: Seq<char>, acc: Seq<Seq<char>>)
    requires
        0 <= i,
        0 <= k,
        i + k <= s.len(),
        forall|m: int| i <= m < i + k ==> !is_ws(#[trigger] s[m]),
    ensures
        tokens_from(s, i, cur, acc) == tokens_from(s, i + k, cur + s.subrange(i, i + k), acc),
    decreases k,
{
    if k == 0 {
        assert(cur + s.subrange(i, i) =~= cur);
    } else {
        assert(!is_ws(s[i]));
        lemma_tokens_from_run(s, i + 1, k - 1, cur.push(s[i]), acc);
        assert(cur.push(s[i]) + s.subrange(i + 1, i + k) =~= cur + s.subrange(i, i + k));
    }
}

/// The canonical text of a word sequence splits back into exactly one token
/// per word.
proof fn lemma_spec_tokens_words_text(w: Seq<u16>)
    requires
        w.len() >= 1,
    ensures
        spec_tokens(words_text(w)) == Seq::new(w.len(), |k: int| hex4_of(w[k])),
    decreases w.len(),
{
    let s = words_text(w);
    lemma_token_words_hex4(w[0]);
    if w.len() == 1 {
        assert(s == hex4_of(w[0]));
        assert(s.subrange(0, 4) =~= s);
        lemma_tokens_from_run(s, 0, 4, Seq::empty(), Seq::empty());
        assert(Seq::<char>::empty() + s =~= s);
        assert(spec_tokens(s) == Seq::<Seq<char>>::empty().push(s));
        assert(Seq::<Seq<char>>::empty().push(s) =~= Seq::new(w.len(), |k: int| hex4_of(w[k])));
    } else {
        let rest = w.drop_first();
        let rest_text = words_text(rest);
        assert(s == hex4_of(w[0]) + seq![' '] + rest_text);
        assert(s.subrange(0, 4) =~= hex4_of(w[0]));
        assert(forall|m: int| 0 <= m < 4 ==> s[m] == hex4_of(w[0])[m]);
        lemma_tokens_from_run(s, 0, 4, Seq::empty(), Seq::empty());
        let tok = Seq::<char>::empty() + s.subrange(0, 4);
        assert(tok =~= hex4_of(w[0]));
        assert(s[4] == ' ');
        assert(tokens_from(s, 4, tok, Seq::empty()) == tokens_from(
            s,
            5,
            Seq::empty(),
            Seq::<Seq<char>>::empty().push(tok),
        ));
        lemma_tokens_from_acc(s, 5, Seq::empty(), Seq::<Seq<char>>::empty().push(tok));
        assert(s.skip(5) =~= rest_text.skip(0)) by {
            assert(forall|m: int| 0 <= m < rest_text.len() ==> s.skip(5)[m] == rest_text[m]);
            assert(forall|m: int| 0 <= m < rest_text.len() ==> rest_text.skip(0)[m] == rest_text[m]);
        }
        lemma_tokens_from_suffix(s, 5, rest_text, 0, Seq::empty(), Seq::empty());
        lemma_spec_tokens_words_text(rest);
        assert(spec_tokens(s) == Seq::<Seq<char>>::empty().push(tok) + Seq::new(
            rest.len(),
            |k: int| hex4_of(rest[k]),
        ));
        assert(Seq::<Seq<char>>::empty().push(tok) + Seq::new(rest.len(), |k: int| hex4_of(rest[k]))
            =~= Seq::new(w.len(), |k: int| hex4_of(w[k])));
    }
}

/// Reading one canonical token per word back recovers the word sequence.
proof fn lemma_words_of_hex_tokens(w: Seq<u16>)
    ensures
        words_of(Seq::new(w.len(), |k: int| hex4_of(w[k]))) == Some(w),
    decreases w.len(),
{
    let ts = Seq::new(w.len(), |k: int| hex4_of(w[k]));
    if w.len() == 0 {
        assert(ts =~= Seq::<Seq<char>>::empty());
        assert(w =~= Seq::<u16>::empty());
    } else {
        let rest = w.drop_first();
        lemma_token_words_hex4(w[0]);
        assert(ts[0] == hex4_of(w[0]));
        assert(ts.drop_first() =~= Seq::new(rest.len(), |k: int| hex4_of(rest[k])));
        lemma_words_of_hex_tokens(rest);
        assert(seq![w[0]] + rest =~= w);
    }
}

/// Round trip through the text: pack the raw words of a supported width per
/// the dispatcher's order, re-split the assembled integer into half-words,
/// write those as 4-digit hex tokens, and extract them again per the byte
/// extractor's splitting rules: the original ordered raw word sequence comes
/// back.
pub proof fn lemma_pack_text_round_trip(sz: int, w: Seq<u16>)
    requires
        supported_width(sz),
        w.len() == word_count(sz),
    ensures
        words_of(spec_tokens(words_text(spec_unpack(sz, spec_assemble(sz, w))))) == Some(w),
{
    crate::decode::lemma_assemble_round_trip(sz, w);
    lemma_spec_tokens_words_text(w);
    lemma_words_of_hex_tokens(w);
}

/// The first index at which a character occurs, at or after `i`.
pub open spec fn find_char_from(s: Seq<char>, c: char, i: int) -> Option<int>
    decreases s.len() - i,
{
    if i < 0 || i >= s.len() {
        None
    } else if s[i] == c {
        Some(i)
    } else {
        find_char_from(s, c, i + 1)
    }
}

/// The sentinel token that ends the byte region in one of the two dialects.
pub open spec fn sentinel() -> Seq<char> {
    seq!['<', 'u', 'n', 'k', 'n', 'o', 'w', 'n', '>']
}

/// The first index at which the sentinel occurs, at or after `i`.
pub open spec fn find_sentinel_from(s: Seq<char>, i: int) -> Option<int>
    decreases s.len() - i,
{
    if i < 0 || i + 9 > s.len() {
        None
    } else if s.subrange(i, i + 9) == sentinel() {
        Some(i)
    } else {
        find_sentinel_from(s, i + 1)
    }
}

/// Finds the first occurrence of a character.
fn find_char(s: &str, c: char) -> (r: Option<usize>)
    ensures
        match r {
            Some(i) => find_char_from(s@, c, 0) == Some(i as int) && i < s@.len(),
            None => find_char_from(s@, c, 0) is None,
        },
{
    let n = s.unicode_len();
    let mut i: usize = 0;
    while i < n
        invariant
            i <= n,
            n as nat == s@.len(),
            find_char_from(s@, c, 0) == find_char_from(s@, c, i as int),
        decreases n - i,
    {
        if s.get_char(i) == c {
            return Some(i);
        }
        i = i + 1;
    }
    None
}

/// One character of the sentinel.
fn sentinel_char(k: usize) -> (c: char)
    requires
        k < 9,
    ensures
        c == sentinel()[k as int],
{
    match k {
        0 => '<',
        1 => 'u',
        2 => 'n',
        3 => 'k',
        4 => 'n',
        5 => 'o',
        6 => 'w',
        7 => 'n',
        _ => '>',
    }
}

/// Finds the first occurrence of the sentinel token.
fn find_sentinel(s: &str) -> (r: Option<usize>)
    ensures
        match r {
            Some(i) => find_sentinel_from(s@, 0) == Some(i as int) && i + 9 <= s@.len(),
            None => find_sentinel_from(s@, 0) is None,
        },
{
    let n = s.unicode_len();
    if n < 9 {
        return None;
    }
    let mut i: usize = 0;
    while i <= n - 9
        invariant
            i <= n - 8,
            n as nat == s@.len(),
            n >= 9,
            find_sentinel_from(s@, 0) == find_sentinel_from(s@, i as int),
        decreases n - i,
    {
        let mut k: usize = 0;
        let mut hit = true;
        while k < 9
            invariant
                i + 9 <= n,
                n as nat == s@.len(),
                k <= 9,
                hit <==> (forall|m: int| 0 <= m < k ==> s@[i + m] == sentinel()[m]),
            decreases 9 - k,
        {
            if s.get_char(i + k) != sentinel_char(k) {
                hit = false;
            }
            k = k + 1;
        }
        if hit {
            proof {
                assert(s@.subrange(i as int, i + 9) =~= sentinel());
            }
            return Some(i);
        }
        proof {
            assert(s@.subrange(i as int, i + 9) != sentinel()) by {
                let m = choose|m: int| 0 <= m < 9 && s@[i + m] != sentinel()[m];
                assert(s@.subrange(i as int, i + 9)[m] != sentinel()[m]);
            }
        }
        i = i + 1;
    }
    None
}

/// The value of one hexadecimal digit character, if it is one.
fn hex_digit_val(c: char) -> (r: Option<u16>)
    ensures
        r is Some <==> is_hex_digit(c),
        r is Some ==> r->Some_0 as nat == hex_val(c) && r->Some_0 < 16,
{
    let v = c as u32;
    if 48 <= v && v <= 57 {
        Some((v - 48) as u16)
    } else if 97 <= v && v <= 102 {
        Some((v - 87) as u16)
    } else if 65 <= v && v <= 70 {
        Some((v - 55) as u16)
    } else {
        None
    }
}

/// Parses four hexadecimal digits of a token into one raw word.
fn hex4(t: &Vec<char>, off: usize) -> (r: Option<u16>)
    requires
        off + 4 <= t@.len(),
    ensures
        r is Some <==> all_hex(t@.subrange(off as int, off as int + 4)),
        r is Some ==> r->Some_0 as nat == hex4_val(t@.subrange(off as int, off as int + 4)),
{
    let ghost sub = t@.subrange(off as int, off as int + 4);
    let n = t.len();
    assert(off + 4 <= n);
    let d0 = hex_digit_val(t[off]);
    let d1 = hex_digit_val(t[off + 1]);
    let d2 = hex_digit_val(t[off + 2]);
    let d3 = hex_digit_val(t[off + 3]);
    proof {
        assert(sub[0] == t@[off as int] && sub[1] == t@[off as int + 1] && sub[2] == t@[off as int
            + 2] && sub[3] == t@[off as int + 3]);
    }
    match (d0, d1, d2, d3) {
        (Some(v0), Some(v1), Some(v2), Some(v3)) => {
            proof {
                assert(all_hex(sub)) by {
                    assert(forall|k: int| 0 <= k < 4 ==> sub[k] == t@[off + k]);
                }
            }
            Some(((v0 * 16 + v1) * 16 + v2) * 16 + v3)
        },
        _ => {
            proof {
                if all_hex(sub) {
                    assert(is_hex_digit(sub[0]) && is_hex_digit(sub[1]) && is_hex_digit(sub[2])
                        && is_hex_digit(sub[3]));
                }
            }
            None
        },
    }
}

/// Appends the raw words of one complete token, or reports it malformed.
fn push_token_words(words: &mut Vec<u16>, cur: &Vec<char>) -> (ok: bool)
    ensures
        match token_words(cur@) {
            Some(tw) => ok && final(words)@ == old(words)@ + tw,
            None => !ok && final(words)@ == old(words)@,
        },
{
    if cur.len() == 4 {
        proof {
            assert(cur@.subrange(0, 4) =~= cur@);
        }
        match hex4(cur, 0) {
            Some(v) => {
                words.push(v);
                proof {
                    assert(hex4_val(cur@) < 0x10000) by {
                        assert(hex_val(cur@[0]) < 16 && hex_val(cur@[1]) < 16 && hex_val(cur@[2])
                            < 16 && hex_val(cur@[3]) < 16);
                    }
                    assert(final(words)@ =~= old(words)@ + seq![hex4_val(cur@) as u16]);
                }
                true
            },
            None => false,
        }
    } else if cur.len() == 8 {
        proof {
            assert(cur@.subrange(0, 4) =~= cur@.take(4));
            assert(cur@.subrange(4, 8) =~= cur@.skip(4));
        }
        let lo = hex4(cur, 0);
        let hi = hex4(cur, 4);
        match (lo, hi) {
            (Some(v0), Some(v1)) => {
                words.push(v0);
                words.push(v1);
                proof {
                    assert(all_hex(cur@)) by {
                        assert(forall|k: int|
                            0 <= k < 4 ==> cur@.take(4)[k] == cur@[k] && cur@.skip(4)[k] == cur@[k
                                + 4]);
                    }
                    assert(hex4_val(cur@.take(4)) < 0x10000 && hex4_val(cur@.skip(4)) < 0x10000)
                        by {
                        assert(hex_val(cur@.take(4)[0]) < 16 && hex_val(cur@.take(4)[1]) < 16
                            && hex_val(cur@.take(4)[2]) < 16 && hex_val(cur@.take(4)[3]) < 16);
                        assert(hex_val(cur@.skip(4)[0]) < 16 && hex_val(cur@.skip(4)[1]) < 16
                            && hex_val(cur@.skip(4)[2]) < 16 && hex_val(cur@.skip(4)[3]) < 16);
                    }
                    assert(final(words)@ =~= old(words)@ + seq![
                        hex4_val(cur@.take(4)) as u16,
                        hex4_val(cur@.skip(4)) as u16,
                    ]);
                }
                true
            },
            _ => {
                proof {
                    if all_hex(cur@) {
                        assert(all_hex(cur@.take(4)) && all_hex(cur@.skip(4))) by {
                            assert(forall|k: int|
                                0 <= k < 4 ==> cur@.take(4)[k] == cur@[k] && cur@.skip(4)[k]
                                    == cur@[k + 4]);
                        }
                    }
                }
                false
            },
        }
    } else {
        false
    }
}

/// The byte region of a line: the text between the colon and the sentinel
/// when the sentinel is present, and the rest of the line otherwise.
pub open spec fn spec_region(s: Seq<char>, ci: int) -> Seq<char> {
    match find_sentinel_from(s, 0) {
        Some(bi) => if ci + 1 <= bi {
            s.subrange(ci + 1, bi)
        } else {
            Seq::empty()
        },
        None => s.subrange(ci + 1, s.len() as int),
    }
}

/// Extracting the raw bytes of a line: find the colon, take the byte region,
/// split it into whitespace-separated tokens, and read each token as one or
/// two hexadecimal half-words.  The result is the total byte count and the
/// ordered half-word sequence, exactly as encountered.
pub open spec fn spec_parse_insn(s: Seq<char>) -> Result<(int, Seq<u16>), DecodeError> {
    match find_char_from(s, ':', 0) {
        None => Err(DecodeError::MissingDelimiter),
        Some(ci) => match words_of(spec_tokens(spec_region(s, ci))) {
            None => Err(DecodeError::MalformedToken),
            Some(ws) => Ok((2 * ws.len() as int, ws)),
        },
    }
}

/// Parses the byte region of one line into its total byte count and ordered
/// raw word sequence, without reordering anything.
pub fn parse_insn(line: &String) -> (r: Result<(usize, Vec<u16>), DecodeError>)
    ensures
        (match r {
            Ok(p) => spec_parse_insn(line@) == Ok::<(int, Seq<u16>), DecodeError>(
                (p.0 as int, p.1@),
            ) && p.0 as int == 2 * p.1@.len(),
            Err(e) => spec_parse_insn(line@) == Err::<(int, Seq<u16>), DecodeError>(e),
        }),
{
    let s = line.as_str();
    let n = s.unicode_len();
    let ci = match find_char(s, ':') {
        None => {
            return Err(DecodeError::MissingDelimiter);
        },
        Some(ci) => ci,
    };
    let (rs, re) = match find_sentinel(s) {
        Some(bi) => if ci + 1 <= bi {
            (ci + 1, bi)
        } else {
            (ci + 1, ci + 1)
        },
        None => (ci + 1, n),
    };
    let region = s.substring_char(rs, re);
    proof {
        assert(region@ =~= spec_region(line@, ci as int));
    }
    let rn = re - rs;
    let mut words: Vec<u16> = Vec::new();
    let mut cur: Vec<char> = Vec::new();
    let ghost mut acc: Seq<Seq<char>> = Seq::empty();
    let mut i: usize = 0;
    while i < rn
        invariant
            i <= rn,
            rn as nat == region@.len(),
            region@ == spec_region(line@, ci as int),
            find_char_from(line@, ':', 0) == Some(ci as int),
            spec_tokens(region@) == tokens_from(region@, i as int, cur@, acc),
            words_of(acc) == Some(words@),
            2 * words@.len() + cur@.len() <= i,
        decreases rn - i,
    {
        let c = region.get_char(i);
        if c == ' ' || c == '\t' {
            if cur.len() > 0 {
                proof {
                    assert(tokens_from(region@, i as int, cur@, acc) == tokens_from(
                        region@,
                        i + 1,
                        Seq::empty(),
                        acc.push(cur@),
                    ));
                }
                let ghost words0 = words@;
                let ghost cur0 = cur@;
                let ok = push_token_words(&mut words, &cur);
                if !ok {
                    proof {
                        let t = tokens_from(region@, i + 1, Seq::empty(), Seq::empty());
                        lemma_tokens_from_acc(region@, i + 1, Seq::empty(), acc.push(cur0));
                        assert(spec_tokens(region@) == acc.push(cur0) + t);
                        lemma_words_none(acc, cur0, t, words0);
                        assert(words_of(spec_tokens(region@)) is None);
                    }
                    return Err(DecodeError::MalformedToken);
                }
                proof {
                    lemma_words_some(acc, cur0, words0, token_words(cur0)->Some_0);
                    acc = acc.push(cur0);
                }
                cur = Vec::new();
            } else {
                proof {
                    assert(tokens_from(region@, i as int, cur@, acc) == tokens_from(
                        region@,
                        i + 1,
                        Seq::empty(),
                        acc,
                    ));
                    assert(cur@ =~= Seq::<char>::empty());
                }
            }
        } else {
            proof {
                assert(tokens_from(region@, i as int, cur@, acc) == tokens_from(
                    region@,
                    i + 1,
                    cur@.push(region@[i as int]),
                    acc,
                ));
            }
            cur.push(c);
        }
        i = i + 1;
    }
    if cur.len() > 0 {
        let ghost words0 = words@;
        let ok = push_token_words(&mut words, &cur);
        if !ok {
            proof {
                assert(spec_tokens(region@) == acc.push(cur@));
                assert(acc.push(cur@) =~= acc.push(cur@) + Seq::<Seq<char>>::empty());
                lemma_words_none(acc, cur@, Seq::empty(), words0);
            }
            return Err(DecodeError::MalformedToken);
        }
        proof {
            lemma_words_some(acc, cur@, words0, token_words(cur@)->Some_0);
            acc = acc.push(cur@);
        }
    }
    proof {
        assert(spec_tokens(region@) == acc);
    }
    let sz = 2 * words.len();
    Ok((sz, words))
}

/// Decoding a full line: a line without the sentinel is returned as it is;
/// a line with it has the text before the sentinel kept and the decoded
/// instruction text put in its place, or fails with the stage's error kind.
pub open spec fn spec_parse_line(s: Seq<char>) -> Result<Seq<char>, DecodeError> {
    match find_sentinel_from(s, 0) {
        None => Ok(s),
        Some(idx) => match spec_parse_insn(s) {
            Err(e) => Err(e),
            Ok(p) => match spec_decode(p.0, p.1) {
                Err(e) => Err(e),
                Ok(i) => match spec_render(i) {
                    Err(e) => Err(e),
                    Ok(txt) => Ok(s.subrange(0, idx) + txt),
                },
            },
        },
    }
}

/// Rewrites one line: any line without the sentinel token comes back exactly
/// as it was, and a sentinel line either gets its unresolved region replaced
/// by the decoded instruction text or fails, so that the caller can fall
/// back to the original line.
pub fn parse_line(s: &String) -> (r: Result<String, DecodeError>)
    ensures
        render_view(r) == spec_parse_line(s@),
        find_sentinel_from(s@, 0) is None ==> r is Ok && r->Ok_0@ == s@,
{
    let st = s.as_str();
    match find_sentinel(st) {
        None => Ok(st.to_owned()),
        Some(idx) => {
            let (sz, words) = match parse_insn(s) {
                Err(e) => {
                    return Err(e);
                },
                Ok(p) => p,
            };
            let ghost wseq = words@;
            proof {
                assert(supported_width(sz as int) ==> words@.len() == word_count(sz as int));
            }
            let insn = match decode(sz, words) {
                Err(e) => {
                    return Err(e);
                },
                Ok(i) => i,
            };
            let txt = match insn.render() {
                Err(e) => {
                    return Err(e);
                },
                Ok(t) => t,
            };
            let prefix = st.substring_char(0, idx);
            let mut out = prefix.to_owned();
            out.append(txt.as_str());
            Ok(out)
        },
    }
}

} // verus!
