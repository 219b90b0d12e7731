//! Byte-level text handling shared by both protocols: words, fields and
//! decimal numbers.

use vstd::prelude::*;
use vstd::string::StringSliceAdditionalSpecFns;
use vstd::utf8::valid_utf8;

verus! {

/// ASCII whitespace: space and the control characters from horizontal tab to
/// carriage return.
pub open spec fn is_space(b: u8) -> bool {
    b == 0x20u8 || (0x09u8 <= b && b <= 0x0du8)
}

pub fn is_space_byte(b: u8) -> (r: bool)
    ensures
        r == is_space(b),
{
    b == 0x20u8 || (0x09u8 <= b && b <= 0x0du8)
}

/// The maximal runs of non-whitespace bytes of `s`, in order.
pub open spec fn words(s: Seq<u8>) -> Seq<Seq<u8>>
    decreases s.len(),
{
    if s.len() == 0 {
        Seq::empty()
    } else {
        let pre = s.drop_last();
        let b = s.last();
        if is_space(b) {
            words(pre)
        } else if pre.len() > 0 && !is_space(pre.last()) {
            let w = words(pre);
            w.update(w.len() - 1, w.last().push(b))
        } else {
            words(pre).push(seq![b])
        }
    }
}

/// The views of a vector of byte strings.
pub open spec fn byte_strings(v: Seq<Vec<u8>>) -> Seq<Seq<u8>> {
    v.map_values(|x: Vec<u8>| x@)
}

pub proof fn lemma_words_nonempty(s: Seq<u8>)
    requires
        s.len() > 0,
        !is_space(s.last()),
    ensures
        words(s).len() > 0,
    decreases s.len(),
{
    let pre = s.drop_last();
    if pre.len() > 0 && !is_space(pre.last()) {
        lemma_words_nonempty(pre);
    }
}

/// Every element of `words(s)` is a word.
pub proof fn lemma_words_are_words(s: Seq<u8>)
    ensures
        forall|i: int| 0 <= i < words(s).len() ==> is_word(#[trigger] words(s)[i]),
    decreases s.len(),
{
    if s.len() > 0 {
        let pre = s.drop_last();
        lemma_words_are_words(pre);
        let w = words(pre);
        let b = s.last();
        if !is_space(b) {
            if pre.len() > 0 && !is_space(pre.last()) {
                assert forall|i: int| 0 <= i < words(s).len() implies is_word(
                    #[trigger] words(s)[i],
                ) by {
                    lemma_words_nonempty(pre);
                    if i == w.len() - 1 {
                        let x = w.last().push(b);
                        assert(words(s)[i] == x);
                        assert(is_word(w[w.len() - 1]));
                        assert forall|j: int| 0 <= j < x.len() implies !is_space(#[trigger] x[j]) by {
                            if j < x.len() - 1 {
                                assert(x[j] == w.last()[j]);
                            }
                        }
                    } else {
                        assert(words(s)[i] == w[i]);
                    }
                }
            } else {
                assert forall|i: int| 0 <= i < words(s).len() implies is_word(
                    #[trigger] words(s)[i],
                ) by {
                    if i == w.len() {
                        assert(words(s)[i] == seq![b]);
                    }
                }
            }
        }
    }
}

/// Splits `s` into its whitespace-separated words.
pub fn split_words(s: &[u8]) -> (r: Vec<Vec<u8>>)
    ensures
        byte_strings(r@) == words(s@),
{
    let mut toks: Vec<Vec<u8>> = Vec::new();
    let mut cur: Vec<u8> = Vec::new();
    let mut i: usize = 0;
    while i < s.len()
        invariant
            i <= s@.len(),
            cur@.len() > 0 <==> (i > 0 && !is_space(s@[i - 1])),
            words(s@.subrange(0, i as int)) == if cur@.len() > 0 {
                byte_strings(toks@).push(cur@)
            } else {
                byte_strings(toks@)
            },
        decreases s@.len() - i,
    {
        let b = s[i];
        let ghost pre = s@.subrange(0, i as int);
        assert(s@.subrange(0, i + 1).drop_last() == pre);
        assert(s@.subrange(0, i + 1).last() == b);
        if is_space_byte(b) {
            if cur.len() > 0 {
                let ghost before = toks@;
                let done = cur;
                toks.push(done);
                cur = Vec::new();
                assert(byte_strings(toks@) =~= byte_strings(before).push(done@));
            }
        } else {
            proof {
                if i > 0 && !is_space(s@[i - 1]) {
                    lemma_words_nonempty(pre);
                }
            }
            let ghost old_cur = cur@;
            cur.push(b);
            proof {
                let w = words(pre);
                if old_cur.len() > 0 {
                    assert(w == byte_strings(toks@).push(old_cur));
                    assert(w.update(w.len() - 1, w.last().push(b)) =~= byte_strings(toks@).push(
                        cur@,
                    ));
                } else {
                    assert(cur@ =~= seq![b]);
                }
            }
        }
        i = i + 1;
    }
    if cur.len() > 0 {
        toks.push(cur);
    }
    assert(s@.subrange(0, s@.len() as int) == s@);
    toks
}

/// The words of `ws` joined by single spaces.
pub open spec fn joined(ws: Seq<Seq<u8>>) -> Seq<u8>
    decreases ws.len(),
{
    if ws.len() == 0 {
        Seq::empty()
    } else if ws.len() == 1 {
        ws[0]
    } else {
        joined(ws.drop_last()) + seq![0x20u8] + ws.last()
    }
}

/// `w` is a word: non-empty and free of whitespace.
pub open spec fn is_word(w: Seq<u8>) -> bool {
    w.len() > 0 && forall|i: int| 0 <= i < w.len() ==> !is_space(#[trigger] w[i])
}

proof fn lemma_words_append_word(x: Seq<u8>, t: Seq<u8>)
    requires
        x.len() == 0 || is_space(x.last()),
        is_word(t),
    ensures
        words(x + t) == words(x).push(t),
    decreases t.len(),
{
    if t.len() == 1 {
        assert((x + t).drop_last() =~= x);
        assert(t =~= seq![t[0]]);
    } else {
        let t1 = t.drop_last();
        assert(is_word(t1)) by {
            assert forall|i: int| 0 <= i < t1.len() implies !is_space(#[trigger] t1[i]) by {
                assert(t1[i] == t[i]);
            }
        }
        lemma_words_append_word(x, t1);
        assert((x + t).drop_last() =~= x + t1);
        assert((x + t1).last() == t1.last());
        assert(!is_space(t[t.len() - 1]));
        let w = words(x + t1);
        assert(t1.push(t.last()) =~= t);
        assert(w.update(w.len() - 1, w.last().push(t.last())) =~= words(x).push(t));
    }
}

/// Splitting the space-joined words back into words gives them back.
pub proof fn lemma_words_of_joined(ws: Seq<Seq<u8>>)
    requires
        forall|i: int| 0 <= i < ws.len() ==> is_word(#[trigger] ws[i]),
    ensures
        words(joined(ws)) == ws,
    decreases ws.len(),
{
    if ws.len() == 0 {
        assert(words(joined(ws)) =~= ws);
    } else if ws.len() == 1 {
        lemma_words_append_word(Seq::empty(), ws[0]);
        assert(Seq::<u8>::empty() + ws[0] =~= ws[0]);
        assert(Seq::<Seq<u8>>::empty().push(ws[0]) =~= ws);
    } else {
        let pre = ws.drop_last();
        assert forall|i: int| 0 <= i < pre.len() implies is_word(#[trigger] pre[i]) by {
            assert(pre[i] == ws[i]);
        }
        lemma_words_of_joined(pre);
        let x = joined(pre) + seq![0x20u8];
        assert(x.drop_last() =~= joined(pre));
        lemma_words_append_word(x, ws.last());
        assert(pre.push(ws.last()) =~= ws);
    }
}

/// Appends the bytes of `b` to `out`.
pub fn append_bytes(out: &mut Vec<u8>, b: &[u8])
    ensures
        final(out)@ == old(out)@ + b@,
{
    let ghost start = out@;
    let mut i: usize = 0;
    while i < b.len()
        invariant
            i <= b@.len(),
            out@ == start + b@.subrange(0, i as int),
        decreases b@.len() - i,
    {
        out.push(b[i]);
        i = i + 1;
        assert(out@ =~= start + b@.subrange(0, i as int));
    }
    assert(b@.subrange(0, b@.len() as int) =~= b@);
}

/// The words `ws[from..]` joined by single spaces.
pub fn join_from(ws: &Vec<Vec<u8>>, from: usize) -> (r: Vec<u8>)
    requires
        from <= ws@.len(),
    ensures
        r@ == joined(byte_strings(ws@).subrange(from as int, ws@.len() as int)),
{
    let ghost all = byte_strings(ws@);
    let mut out: Vec<u8> = Vec::new();
    let mut i: usize = from;
    while i < ws.len()
        invariant
            from <= i <= ws@.len(),
            all == byte_strings(ws@),
            out@ == joined(all.subrange(from as int, i as int)),
        decreases ws@.len() - i,
    {
        let ghost pre = all.subrange(from as int, i as int);
        let ghost next = all.subrange(from as int, i + 1);
        assert(next.drop_last() =~= pre);
        assert(next.last() == ws@[i as int]@);
        if i > from {
            out.push(0x20u8);
        }
        append_bytes(&mut out, ws[i].as_slice());
        proof {
            if i == from {
                assert(out@ =~= next[0]);
            } else {
                assert(out@ =~= joined(pre) + seq![0x20u8] + next.last());
            }
        }
        i = i + 1;
    }
    out
}

/// The decimal digits of `n`, most significant first, without leading zeros.
pub open spec fn decimal(n: nat) -> Seq<u8>
    decreases n,
{
    if n < 10 {
        seq![(n + 0x30) as u8]
    } else {
        decimal(n / 10).push((n % 10 + 0x30) as u8)
    }
}

/// `n` in decimal, with a leading minus sign when it is negative.
pub open spec fn signed_decimal(n: int) -> Seq<u8> {
    if n < 0 {
        seq![0x2du8] + decimal((-n) as nat)
    } else {
        decimal(n as nat)
    }
}

/// Appends the decimal form of `n` to `out`.
pub fn push_decimal(out: &mut Vec<u8>, n: u64)
    ensures
        final(out)@ == old(out)@ + decimal(n as nat),
    decreases n,
{
    let ghost start = out@;
    if n >= 10 {
        push_decimal(out, n / 10);
    }
    out.push((n % 10) as u8 + 0x30u8);
    assert(out@ =~= start + decimal(n as nat));
}

/// Appends the decimal form of `n` to `out`, with a minus sign when negative.
pub fn push_signed(out: &mut Vec<u8>, n: i64)
    ensures
        final(out)@ == old(out)@ + signed_decimal(n as int),
{
    let ghost start = out@;
    if n < 0 {
        out.push(0x2du8);
        let m: u64 = (0i128 - n as i128) as u64;
        push_decimal(out, m);
        assert(out@ =~= start + signed_decimal(n as int));
    } else {
        push_decimal(out, n as u64);
    }
}

pub open spec fn is_digit(b: u8) -> bool {
    0x30u8 <= b && b <= 0x39u8
}

/// A non-empty run of decimal digits.
pub open spec fn is_digits(s: Seq<u8>) -> bool {
    s.len() > 0 && forall|i: int| 0 <= i < s.len() ==> is_digit(#[trigger] s[i])
}

/// The number that the decimal digits `s` denote.
pub open spec fn digits_value(s: Seq<u8>) -> nat
    decreases s.len(),
{
    if s.len() == 0 {
        0
    } else {
        digits_value(s.drop_last()) * 10 + (s.last() - 0x30) as nat
    }
}

/// An unsigned decimal: digits, optionally after a plus sign.
pub open spec fn unsigned_text(s: Seq<u8>) -> Option<nat> {
    let d = if s.len() > 0 && s[0] == 0x2bu8 {
        s.subrange(1, s.len() as int)
    } else {
        s
    };
    if is_digits(d) {
        Some(digits_value(d))
    } else {
        None
    }
}

/// A signed decimal: digits, optionally after a plus or a minus sign.
pub open spec fn signed_text(s: Seq<u8>) -> Option<int> {
    if s.len() > 0 && s[0] == 0x2du8 {
        let d = s.subrange(1, s.len() as int);
        if is_digits(d) {
            Some(-(digits_value(d) as int))
        } else {
            None
        }
    } else {
        match unsigned_text(s) {
            Some(v) => Some(v as int),
            None => None,
        }
    }
}

proof fn lemma_digits_prefix(d: Seq<u8>, k: int)
    requires
        0 <= k <= d.len(),
        forall|i: int| 0 <= i < d.len() ==> is_digit(#[trigger] d[i]),
    ensures
        digits_value(d.subrange(0, k)) <= digits_value(d),
    decreases d.len(),
{
    if k < d.len() {
        let p = d.drop_last();
        assert forall|i: int| 0 <= i < p.len() implies is_digit(#[trigger] p[i]) by {
            assert(p[i] == d[i]);
        }
        lemma_digits_prefix(p, k);
        assert(p.subrange(0, k) =~= d.subrange(0, k));
    } else {
        assert(d.subrange(0, k) =~= d);
    }
}

/// Reads the digits `s[from..]` as a `u64`: `None` unless they form a
/// non-empty run of digits whose value fits.
fn parse_digits(s: &[u8], from: usize) -> (r: Option<u64>)
    requires
        from <= s@.len(),
    ensures
        ({
            let d = s@.subrange(from as int, s@.len() as int);
            r == if is_digits(d) && digits_value(d) <= u64::MAX {
                Some(digits_value(d) as u64)
            } else {
                None::<u64>
            }
        }),
{
    let ghost d = s@.subrange(from as int, s@.len() as int);
    if from == s.len() {
        return None;
    }
    let mut acc: u64 = 0;
    let mut i: usize = from;
    while i < s.len()
        invariant
            from <= i <= s@.len(),
            d == s@.subrange(from as int, s@.len() as int),
            forall|j: int| 0 <= j < i - from ==> is_digit(#[trigger] d[j]),
            acc as nat == digits_value(d.subrange(0, i - from)),
        decreases s@.len() - i,
    {
        let b = s[i];
        assert(d[i - from] == b);
        if !(0x30u8 <= b && b <= 0x39u8) {
            assert(!is_digits(d));
            return None;
        }
        let ghost next = d.subrange(0, i - from + 1);
        assert(next.drop_last() =~= d.subrange(0, i - from));
        let dig: u64 = (b - 0x30u8) as u64;
        let r = match acc.checked_mul(10) {
            None => None,
            Some(m) => m.checked_add(dig),
        };
        match r {
            None => {
                proof {
                    if is_digits(d) {
                        lemma_digits_prefix(d, i - from + 1);
                    }
                }
                return None;
            },
            Some(v) => {
                acc = v;
            },
        }
        i = i + 1;
    }
    assert(d.subrange(0, i - from) =~= d);
    Some(acc)
}

/// Reads `s` as an unsigned decimal that fits in a `u64`.
pub fn parse_unsigned(s: &[u8]) -> (r: Option<u64>)
    ensures
        r == match unsigned_text(s@) {
            Some(v) => if v <= u64::MAX {
                Some(v as u64)
            } else {
                None::<u64>
            },
            None => None::<u64>,
        },
{
    if s.len() > 0 && s[0] == 0x2bu8 {
        parse_digits(s, 1)
    } else {
        assert(s@.subrange(0, s@.len() as int) =~= s@);
        parse_digits(s, 0)
    }
}

/// Reads `s` as a signed decimal that fits in an `i64`.
pub fn parse_signed(s: &[u8]) -> (r: Option<i64>)
    ensures
        r == match signed_text(s@) {
            Some(v) => if i64::MIN <= v <= i64::MAX {
                Some(v as i64)
            } else {
                None::<i64>
            },
            None => None::<i64>,
        },
{
    if s.len() > 0 && s[0] == 0x2du8 {
        match parse_digits(s, 1) {
            Some(m) => {
                if m <= 0x8000_0000_0000_0000u64 {
                    Some((0i128 - m as i128) as i64)
                } else {
                    None
                }
            },
            None => None,
        }
    } else {
        match parse_unsigned(s) {
            Some(v) => {
                if v <= 0x7fff_ffff_ffff_ffffu64 {
                    Some(v as i64)
                } else {
                    None
                }
            },
            None => None,
        }
    }
}

/// The pieces of `s` between the separator bytes `seps`: one more piece than
/// separators, empty pieces included.
pub open spec fn fields(s: Seq<u8>, seps: Seq<u8>) -> Seq<Seq<u8>>
    decreases s.len(),
{
    if s.len() == 0 {
        seq![Seq::empty()]
    } else {
        let f = fields(s.drop_last(), seps);
        if seps.contains(s.last()) {
            f.push(Seq::empty())
        } else {
            f.update(f.len() - 1, f.last().push(s.last()))
        }
    }
}

pub proof fn lemma_fields_nonempty(s: Seq<u8>, seps: Seq<u8>)
    ensures
        fields(s, seps).len() > 0,
    decreases s.len(),
{
    if s.len() > 0 {
        lemma_fields_nonempty(s.drop_last(), seps);
    }
}

pub fn contains_byte(v: &[u8], b: u8) -> (r: bool)
    ensures
        r == v@.contains(b),
{
    let mut i: usize = 0;
    while i < v.len()
        invariant
            i <= v@.len(),
            forall|j: int| 0 <= j < i ==> v@[j] != b,
        decreases v@.len() - i,
    {
        if v[i] == b {
            return true;
        }
        i = i + 1;
    }
    false
}

/// Splits `s` at every byte of `seps`.
pub fn split_fields(s: &[u8], seps: &[u8]) -> (r: Vec<Vec<u8>>)
    ensures
        byte_strings(r@) == fields(s@, seps@),
{
    let mut done: Vec<Vec<u8>> = Vec::new();
    let mut cur: Vec<u8> = Vec::new();
    let mut i: usize = 0;
    assert(s@.subrange(0, 0) =~= Seq::<u8>::empty());
    while i < s.len()
        invariant
            i <= s@.len(),
            fields(s@.subrange(0, i as int), seps@) == byte_strings(done@).push(cur@),
        decreases s@.len() - i,
    {
        let b = s[i];
        assert(s@.subrange(0, i + 1).drop_last() =~= s@.subrange(0, i as int));
        let ghost f = fields(s@.subrange(0, i as int), seps@);
        let ghost before = done@;
        let ghost old_cur = cur@;
        if contains_byte(seps, b) {
            let piece = cur;
            done.push(piece);
            cur = Vec::new();
            assert(byte_strings(done@).push(cur@) =~= f.push(Seq::empty()));
        } else {
            cur.push(b);
            assert(f.update(f.len() - 1, f.last().push(b)) =~= byte_strings(done@).push(cur@));
        }
        i = i + 1;
    }
    assert(s@.subrange(0, s@.len() as int) =~= s@);
    let ghost before = done@;
    done.push(cur);
    assert(byte_strings(done@) =~= byte_strings(before).push(cur@));
    done
}

/// `a` and `b` hold the same bytes.
pub fn same_bytes(a: &[u8], b: &[u8]) -> (r: bool)
    ensures
        r == (a@ == b@),
{
    if a.len() != b.len() {
        return false;
    }
    let mut i: usize = 0;
    while i < a.len()
        invariant
            a@.len() == b@.len(),
            i <= a@.len(),
            forall|j: int| 0 <= j < i ==> a@[j] == b@[j],
        decreases a@.len() - i,
    {
        if a[i] != b[i] {
            return false;
        }
        i = i + 1;
    }
    assert(a@ =~= b@);
    true
}

/// Relies on std::str::from_utf8: it fails exactly when the bytes are not
/// valid UTF-8, and the text it returns has exactly those bytes.
#[verifier::external_body]
pub(crate) fn utf8_text(b: &[u8]) -> (r: Option<&str>)
    ensures
        r is Some <==> valid_utf8(b@),
        r matches Some(s) ==> s.spec_bytes() == b@,
{
    std::str::from_utf8(b).ok()
}

} // verus!
