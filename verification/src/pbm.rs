//! Reading 1-bit images in the plain portable bitmap format (`P1`): the magic
//! `P1`, the width and the height in decimal, then one `0` (white) or `1`
//! (black) per dot, row by row, separated by any whitespace or none.
//! Comments are not accepted.
use vstd::prelude::*;
use crate::graphics::{Bitmap, BitmapModel};
use crate::strings::{fields, fields_from};

verus! {

/// ASCII whitespace as the format knows it.
pub open spec fn is_pbm_space(b: u8) -> bool {
    b == 0x20 || b == 0x09 || b == 0x0A || b == 0x0B || b == 0x0C || b == 0x0D
}

/// The whitespace-separated tokens of `b`.
pub open spec fn pbm_tokens(b: Seq<u8>) -> Seq<Seq<u8>> {
    fields(b, |c: u8| is_pbm_space(c))
}

/// A non-empty run of ASCII decimal digits.
pub open spec fn is_decimal(t: Seq<u8>) -> bool {
    t.len() > 0 && forall|i: int| 0 <= i < t.len() ==> 0x30 <= #[trigger] t[i] <= 0x39
}

/// The number that the digits of `t` spell.
pub open spec fn decimal_value(t: Seq<u8>) -> int
    decreases t.len(),
{
    if t.len() == 0 {
        0
    } else {
        decimal_value(t.drop_last()) * 10 + (t.last() - 0x30)
    }
}

/// The tokens of `ts`, concatenated.
pub open spec fn concat_tokens(ts: Seq<Seq<u8>>) -> Seq<u8>
    decreases ts.len(),
{
    if ts.len() == 0 {
        Seq::empty()
    } else {
        concat_tokens(ts.drop_last()) + ts.last()
    }
}

/// The image that a plain bitmap file holds, or `None` where `b` is not one.
pub open spec fn pbm_image(b: Seq<u8>) -> Option<BitmapModel> {
    let ts = pbm_tokens(b);
    if ts.len() >= 3 && ts[0] == seq![0x50u8, 0x31u8] && is_decimal(ts[1]) && is_decimal(ts[2]) {
        let w = decimal_value(ts[1]);
        let h = decimal_value(ts[2]);
        let px = concat_tokens(ts.skip(3));
        if w <= usize::MAX && h <= usize::MAX && w * h <= usize::MAX && px.len() == w * h && (forall|i: int|
            0 <= i < px.len() ==> #[trigger] px[i] == 0x30 || px[i] == 0x31) {
            Some(
                BitmapModel {
                    width: w as nat,
                    height: h as nat,
                    rows: Seq::new(h as nat, |y: int| Seq::new(w as nat, |x: int| px[y * w + x] == 0x31)),
                },
            )
        } else {
            None
        }
    } else {
        None
    }
}

/// The whitespace-separated tokens of `s`.
fn split_tokens(s: &[u8]) -> (out: Vec<Vec<u8>>)
    ensures
        out@.map_values(|p: Vec<u8>| p@) == pbm_tokens(s@),
{
    let ghost is_sep = |c: u8| is_pbm_space(c);
    let mut out: Vec<Vec<u8>> = Vec::new();
    let mut cur: Vec<u8> = Vec::new();
    let mut i: usize = 0;
    assert(s@.skip(0) =~= s@);
    while i < s.len()
        invariant
            i <= s.len(),
            is_sep == (|c: u8| is_pbm_space(c)),
            pbm_tokens(s@) == out@.map_values(|p: Vec<u8>| p@) + fields_from(
                s@.skip(i as int),
                is_sep,
                cur@,
            ),
        decreases s.len() - i,
    {
        let ghost before = out@.map_values(|p: Vec<u8>| p@);
        let ghost rest = s@.skip(i + 1);
        assert(s@.skip(i as int).drop_first() =~= rest);
        assert(s@.skip(i as int)[0] == s@[i as int]);
        assert(is_sep(s@[i as int]) == is_pbm_space(s@[i as int]));
        let c = s[i];
        if c == 0x20 || c == 0x09 || c == 0x0A || c == 0x0B || c == 0x0C || c == 0x0D {
            if cur.len() > 0 {
                let ghost cw = cur@;
                assert(fields_from(s@.skip(i as int), is_sep, cw) == seq![cw] + fields_from(
                    rest,
                    is_sep,
                    Seq::empty(),
                ));
                out.push(cur);
                cur = Vec::new();
                assert(out@.map_values(|p: Vec<u8>| p@) =~= before + seq![cw]);
                assert(before + (seq![cw] + fields_from(rest, is_sep, Seq::empty())) =~= before
                    + seq![cw] + fields_from(rest, is_sep, cur@));
            } else {
                assert(fields_from(s@.skip(i as int), is_sep, cur@) =~= fields_from(
                    rest,
                    is_sep,
                    Seq::empty(),
                ));
                assert(cur@ =~= Seq::<u8>::empty());
            }
        } else {
            assert(fields_from(s@.skip(i as int), is_sep, cur@) == fields_from(
                rest,
                is_sep,
                cur@.push(s@[i as int]),
            ));
            cur.push(c);
        }
        i = i + 1;
    }
    if cur.len() > 0 {
        let ghost before = out@.map_values(|p: Vec<u8>| p@);
        let ghost cw = cur@;
        out.push(cur);
        assert(out@.map_values(|p: Vec<u8>| p@) =~= before + seq![cw]);
    } else {
        assert(out@.map_values(|p: Vec<u8>| p@) =~= out@.map_values(|p: Vec<u8>| p@) + Seq::<
            Seq<u8>,
        >::empty());
    }
    out
}

/// A prefix of a run of digits spells no larger a number.
proof fn lemma_decimal_prefix(t: Seq<u8>, i: int)
    requires
        forall|k: int| 0 <= k < t.len() ==> 0x30 <= #[trigger] t[k] <= 0x39,
        0 <= i <= t.len(),
    ensures
        0 <= decimal_value(t.take(i)) <= decimal_value(t),
    decreases t.len(),
{
    if t.len() > 0 {
        if i == t.len() {
            assert(t.take(i) =~= t);
            lemma_decimal_prefix(t.drop_last(), i - 1);
            assert(t.drop_last().take(i - 1) =~= t.drop_last());
        } else {
            lemma_decimal_prefix(t.drop_last(), i);
            assert(t.drop_last().take(i) =~= t.take(i));
            lemma_decimal_prefix(t.drop_last(), t.len() - 1);
            assert(t.drop_last().take(t.len() - 1) =~= t.drop_last());
        }
    } else {
        assert(t.take(i) =~= t);
    }
}

/// The number that the digits of `t` spell, or `None` where `t` is not a run
/// of digits or the number does not fit a `usize`.
fn parse_decimal(t: &[u8]) -> (v: Option<usize>)
    ensures
        v matches Some(n) ==> is_decimal(t@) && n == decimal_value(t@),
        v is None ==> !is_decimal(t@) || decimal_value(t@) > usize::MAX,
{
    if t.len() == 0 {
        return None;
    }
    let mut i: usize = 0;
    while i < t.len()
        invariant
            i <= t.len(),
            forall|k: int| 0 <= k < i ==> 0x30 <= #[trigger] t@[k] <= 0x39,
        decreases t.len() - i,
    {
        if t[i] < 0x30 || t[i] > 0x39 {
            return None;
        }
        i = i + 1;
    }
    let mut v: usize = 0;
    let mut j: usize = 0;
    assert(t@.take(0) =~= Seq::<u8>::empty());
    while j < t.len()
        invariant
            j <= t.len(),
            is_decimal(t@),
            v == decimal_value(t@.take(j as int)),
        decreases t.len() - j,
    {
        assert(t@.take(j + 1).drop_last() =~= t@.take(j as int));
        let d = (t[j] - 0x30) as usize;
        proof {
            lemma_decimal_prefix(t@, j + 1);
        }
        match v.checked_mul(10) {
            Some(v10) => match v10.checked_add(d) {
                Some(next) => {
                    v = next;
                },
                None => {
                    return None;
                },
            },
            None => {
                assert(decimal_value(t@.take(j + 1)) >= v * 10);
                return None;
            },
        }
        j = j + 1;
    }
    assert(t@.take(t.len() as int) =~= t@);
    Some(v)
}

/// The tokens of `ts`, concatenated.
fn concat_all(ts: &[Vec<u8>]) -> (out: Vec<u8>)
    ensures
        out@ == concat_tokens(ts@.map_values(|p: Vec<u8>| p@)),
{
    let ghost tv = ts@.map_values(|p: Vec<u8>| p@);
    let mut out: Vec<u8> = Vec::new();
    let mut i: usize = 0;
    while i < ts.len()
        invariant
            i <= ts.len(),
            tv == ts@.map_values(|p: Vec<u8>| p@),
            out@ == concat_tokens(tv.take(i as int)),
        decreases ts.len() - i,
    {
        assert(tv.take(i + 1).drop_last() =~= tv.take(i as int));
        let ghost before = out@;
        let t = &ts[i];
        let mut k: usize = 0;
        while k < t.len()
            invariant
                k <= t.len(),
                out@ == before + t@.take(k as int),
            decreases t.len() - k,
        {
            out.push(t[k]);
            assert(out@ =~= before + t@.take(k + 1));
            k = k + 1;
        }
        assert(t@.take(t.len() as int) =~= t@);
        i = i + 1;
    }
    assert(tv.take(ts.len() as int) =~= tv);
    out
}

/// Read a plain portable bitmap (see [`pbm_image`]).
pub fn parse_pbm(bytes: &[u8]) -> (b: Option<Bitmap>)
    ensures
        match b {
            Some(b) => pbm_image(bytes@) == Some(b@),
            None => pbm_image(bytes@) is None,
        },
{
    let ts = split_tokens(bytes);
    let ghost tv = ts@.map_values(|p: Vec<u8>| p@);
    if ts.len() < 3 {
        return None;
    }
    assert(tv[0] == ts@[0]@ && tv[1] == ts@[1]@ && tv[2] == ts@[2]@);
    if ts[0].len() != 2 || ts[0][0] != 0x50 || ts[0][1] != 0x31 {
        assert(tv[0] != seq![0x50u8, 0x31u8]);
        return None;
    }
    assert(tv[0] =~= seq![0x50u8, 0x31u8]);
    let w = match parse_decimal(ts[1].as_slice()) {
        Some(w) => w,
        None => {
            return None;
        },
    };
    let h = match parse_decimal(ts[2].as_slice()) {
        Some(h) => h,
        None => {
            return None;
        },
    };
    let n = match w.checked_mul(h) {
        Some(n) => n,
        None => {
            return None;
        },
    };
    let rest = ts.as_slice().split_at(3).1;
    assert(rest@ == ts@.skip(3));
    assert(rest@.map_values(|p: Vec<u8>| p@) =~= tv.skip(3));
    let px = concat_all(rest);
    if px.len() != n {
        return None;
    }
    let mut dots: Vec<bool> = Vec::new();
    let mut i: usize = 0;
    while i < n
        invariant
            i <= n,
            px.len() == n,
            tv == pbm_tokens(bytes@),
            tv.len() >= 3,
            tv[0] == seq![0x50u8, 0x31u8],
            is_decimal(tv[1]),
            is_decimal(tv[2]),
            w == decimal_value(tv[1]),
            h == decimal_value(tv[2]),
            n == w * h,
            px@ == concat_tokens(tv.skip(3)),
            dots.len() == i,
            forall|k: int| 0 <= k < i ==> (px@[k] == 0x30 || px@[k] == 0x31) && dots@[k] == (px@[k]
                == 0x31),
        decreases n - i,
    {
        if px[i] == 0x31 {
            dots.push(true);
        } else if px[i] == 0x30 {
            dots.push(false);
        } else {
            assert(!(px@[i as int] == 0x30 || px@[i as int] == 0x31));
            return None;
        }
        i = i + 1;
    }
    let b = Bitmap::from_dots(w, h, dots);
    let ghost want = pbm_image(bytes@)->Some_0;
    assert forall|y: int| 0 <= y < h implies #[trigger] b@.rows[y] =~= want.rows[y] by {
        assert forall|x: int| 0 <= x < w implies b@.rows[y][x] == want.rows[y][x] by {
            assert(0 <= y * w + x < n) by (nonlinear_arith)
                requires
                    0 <= x < w,
                    0 <= y < h,
                    n == w * h,
            ;
        }
    }
    assert(b@.rows =~= pbm_image(bytes@)->Some_0.rows);
    Some(b)
}

} // verus!
