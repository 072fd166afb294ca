//! A sorted sparse table of per-token sampling bias overrides, and the
//! structural parser for its textual `id=bias,id=bias` form.

use crate::TokenId;
use vstd::prelude::*;
use vstd::slice::{slice_subrange, slice_to_vec};
use vstd::string::StringSliceAdditionalSpecFns;

verus! {

/// An error encountered when parsing a token-bias string, which should be in
/// the format `<id>=<bias>,<id>=<bias>`.
#[derive(Debug)]
pub struct InvalidTokenBias(String);

impl InvalidTokenBias {
    /// What went wrong, as text.
    pub closed spec fn spec_message(&self) -> Seq<char> {
        self.0@
    }

    /// Wrap a description of the offending segment.
    pub fn new(message: String) -> (r: Self)
        ensures
            r.spec_message() == message@,
    {
        InvalidTokenBias(message)
    }

    /// The description of the offending segment.
    pub fn message(&self) -> (r: &String)
        ensures
            r@ == self.spec_message(),
    {
        &self.0
    }
}

/// The value paired with the first occurrence of `id` in `s`, if any.
pub open spec fn first_with_id<B>(s: Seq<(TokenId, B)>, id: TokenId) -> Option<B>
    decreases s.len(),
{
    if s.len() == 0 {
        None
    } else if s.first().0 == id {
        Some(s.first().1)
    } else {
        first_with_id(s.drop_first(), id)
    }
}

/// A list of tokens to bias during sampling: when a biased token id comes up,
/// its stored value overrides the inferred logit.  Entries are kept sorted by
/// strictly increasing, duplicate-free token id; the table is immutable once
/// built.  The bias payload is any copyable value — the numeric bias itself
/// lives outside this core.
pub struct TokenBias<B>(Vec<(TokenId, B)>);

impl<B: Copy> TokenBias<B> {
    /// The entries in table order.
    pub closed spec fn entries_view(&self) -> Seq<(TokenId, B)> {
        self.0@
    }

    /// Strictly increasing, duplicate-free ids.
    pub open spec fn wf(&self) -> bool {
        forall|i: int, j: int|
            0 <= i < j < self.entries_view().len() ==> (#[trigger] self.entries_view()[i]).0 < (
            #[trigger] self.entries_view()[j]).0
    }

    /// Create an empty table.
    pub fn empty() -> (r: Self)
        ensures
            r.wf(),
            r.entries_view() == Seq::<(TokenId, B)>::empty(),
    {
        let r = TokenBias(Vec::new());
        proof {
            assert(r.entries_view() =~= Seq::<(TokenId, B)>::empty());
        }
        r
    }

    /// Create a table from an existing list: pairs are stable-sorted by id
    /// and consecutive equal-id runs collapse to one entry, so among equal
    /// ids the pair that appeared earliest wins.  The result is pinned by
    /// sortedness together with first-occurrence lookup agreeing with the
    /// input for every id.
    pub fn new(v: Vec<(TokenId, B)>) -> (r: Self)
        ensures
            r.wf(),
            forall|id: TokenId| #[trigger] first_with_id(r.entries_view(), id) == first_with_id(
                v@,
                id,
            ),
    {
        let mut out: Vec<(TokenId, B)> = Vec::new();
        let mut k: usize = 0;
        proof {
            assert(v@.take(0) =~= Seq::<(TokenId, B)>::empty());
        }
        while k < v.len()
            invariant
                k <= v@.len(),
                forall|i: int, j: int|
                    0 <= i < j < out@.len() ==> (#[trigger] out@[i]).0 < (#[trigger] out@[j]).0,
                forall|id: TokenId| #[trigger] first_with_id(out@, id) == first_with_id(
                    v@.take(k as int),
                    id,
                ),
            decreases v@.len() - k,
        {
            let p = v[k];
            let mut j: usize = 0;
            while j < out.len() && out[j].0 < p.0
                invariant
                    j <= out@.len(),
                    forall|t: int| 0 <= t < j ==> (#[trigger] out@[t]).0 < p.0,
                decreases out@.len() - j,
            {
                j = j + 1;
            }
            let ghost old_out = out@;
            if j < out.len() && out[j].0 == p.0 {
                proof {
                    lemma_first_contains(out@, p.0);
                }
            } else {
                proof {
                    assert(forall|t: int|
                        0 <= t < out@.len() ==> (#[trigger] out@[t]).0 != p.0) by {
                        assert forall|t: int| j <= t < out@.len() implies (#[trigger] out@[t]).0
                            > p.0 by {
                            if t > j {
                                assert(out@[j as int].0 < out@[t].0);
                            }
                        }
                    }
                    lemma_first_insert(out@, j as int, p);
                    lemma_first_absent(out@, p.0);
                }
                out.insert(j, p);
                proof {
                    assert(out@ == old_out.insert(j as int, p));
                    assert forall|a: int, b: int| 0 <= a < b < out@.len() implies (
                    #[trigger] out@[a]).0 < (#[trigger] out@[b]).0 by {
                        let ja = j as int;
                        if a < ja && b < ja {
                            assert(out@[a] == old_out[a] && out@[b] == old_out[b]);
                        } else if a < ja && b == ja {
                            assert(out@[a] == old_out[a]);
                        } else if a < ja && b > ja {
                            assert(out@[a] == old_out[a] && out@[b] == old_out[b - 1]);
                            assert(old_out[b - 1].0 >= p.0);
                        } else if a == ja && b > ja {
                            assert(out@[b] == old_out[b - 1]);
                            assert(old_out[b - 1].0 > p.0);
                        } else {
                            assert(out@[a] == old_out[a - 1] && out@[b] == old_out[b - 1]);
                        }
                    }
                }
            }
            proof {
                assert(v@.take(k + 1) =~= v@.take(k as int).push(v@[k as int]));
                lemma_first_push(v@.take(k as int), p, v@.take(k + 1));
            }
            k = k + 1;
        }
        proof {
            assert(v@.take(v@.len() as int) =~= v@);
        }
        TokenBias(out)
    }

    /// Retrieve the bias for a given token, if available: binary search by
    /// id.
    pub fn get(&self, tid: TokenId) -> (r: Option<B>)
        requires
            self.wf(),
        ensures
            r == first_with_id(self.entries_view(), tid),
    {
        let ghost s = self.0@;
        let mut lo: usize = 0;
        let mut hi: usize = self.0.len();
        while lo < hi
            invariant
                self.wf(),
                s == self.0@,
                lo <= hi <= s.len(),
                forall|t: int| 0 <= t < lo ==> (#[trigger] s[t]).0 < tid,
                forall|t: int| hi <= t < s.len() ==> (#[trigger] s[t]).0 > tid,
            decreases hi - lo,
        {
            let mid = lo + (hi - lo) / 2;
            let e = self.0[mid];
            if e.0 < tid {
                proof {
                    assert forall|t: int| 0 <= t < mid + 1 implies (#[trigger] s[t]).0 < tid by {
                        if t < mid {
                            assert(s[t].0 < s[mid as int].0);
                        }
                    }
                }
                lo = mid + 1;
            } else if tid < e.0 {
                proof {
                    assert forall|t: int| mid <= t < s.len() implies (#[trigger] s[t]).0 > tid by {
                        if t > mid {
                            assert(s[mid as int].0 < s[t].0);
                        }
                    }
                }
                hi = mid;
            } else {
                proof {
                    lemma_first_at(s, mid as int);
                }
                return Some(e.1);
            }
        }
        proof {
            lemma_first_absent(s, tid);
        }
        None
    }

    /// The entries in table order.
    pub fn entries(&self) -> (r: &Vec<(TokenId, B)>)
        ensures
            r@ == self.entries_view(),
    {
        &self.0
    }
}

/// An ASCII whitespace byte, as trimming removes it.
pub open spec fn is_ws_byte(b: u8) -> bool {
    b == 32 || b == 9 || b == 10 || b == 13 || b == 12
}

/// Leading whitespace removed.
pub open spec fn trim_front(s: Seq<u8>) -> Seq<u8>
    decreases s.len(),
{
    if s.len() > 0 && is_ws_byte(s.first()) {
        trim_front(s.drop_first())
    } else {
        s
    }
}

/// Trailing whitespace removed.
pub open spec fn trim_back(s: Seq<u8>) -> Seq<u8>
    decreases s.len(),
{
    if s.len() > 0 && is_ws_byte(s.last()) {
        trim_back(s.drop_last())
    } else {
        s
    }
}

/// Whitespace removed from both ends.
pub open spec fn trimmed(s: Seq<u8>) -> Seq<u8> {
    trim_back(trim_front(s))
}

/// The position of the first occurrence of `c`, if any.
pub open spec fn find_byte(s: Seq<u8>, c: u8) -> Option<int>
    decreases s.len(),
{
    if s.len() == 0 {
        None
    } else if s.first() == c {
        Some(0)
    } else {
        match find_byte(s.drop_first(), c) {
            Some(i) => Some(i + 1),
            None => None,
        }
    }
}

/// A decimal digit byte.
pub open spec fn is_digit(b: u8) -> bool {
    48 <= b <= 57
}

/// The number the digit bytes spell, most significant first.
pub open spec fn digits_value(s: Seq<u8>) -> int
    decreases s.len(),
{
    if s.len() == 0 {
        0
    } else {
        digits_value(s.drop_last()) * 10 + (s.last() - 48)
    }
}

/// The digits of an integer literal: everything after one optional leading
/// plus sign.
pub open spec fn digits_part(s: Seq<u8>) -> Seq<u8> {
    if s.len() > 0 && s.first() == 43 {
        s.drop_first()
    } else {
        s
    }
}

/// Text that spells an unsigned 32-bit integer: non-empty digits after an
/// optional plus sign, small enough to fit.
pub open spec fn valid_u32_text(s: Seq<u8>) -> bool {
    let d = digits_part(s);
    &&& d.len() > 0
    &&& (forall|k: int| 0 <= k < d.len() ==> is_digit(#[trigger] d[k]))
    &&& digits_value(d) <= u32::MAX
}

/// One `id=bias` segment: after trimming, an `=` splits it; the id side,
/// trimmed again, must spell a `u32`; the bias side is handed on, trimmed,
/// as raw bytes for the caller to read as its number.
pub open spec fn sp_bias_segment(seg: Seq<u8>) -> Option<(u32, Seq<u8>)> {
    let t = trimmed(seg);
    match find_byte(t, 61) {
        Some(i) => {
            let key = trimmed(t.take(i));
            if valid_u32_text(key) {
                Some((digits_value(digits_part(key)) as u32, trimmed(t.skip(i + 1))))
            } else {
                None
            }
        },
        None => None,
    }
}

/// A whole comma-separated bias list, every segment well-formed.
pub open spec fn sp_bias_entries(b: Seq<u8>) -> Option<Seq<(u32, Seq<u8>)>>
    decreases b.len(),
{
    match find_byte(b, 44) {
        None => match sp_bias_segment(b) {
            Some(e) => Some(seq![e]),
            None => None,
        },
        Some(j) => if 0 <= j < b.len() {
            match sp_bias_segment(b.take(j)) {
                Some(e) => match sp_bias_entries(b.skip(j + 1)) {
                    Some(rest) => Some(seq![e] + rest),
                    None => None,
                },
                None => None,
            }
        } else {
            None
        },
    }
}

proof fn lemma_find_byte_at(s: Seq<u8>, c: u8, i: int)
    requires
        0 <= i < s.len(),
        s[i] == c,
        forall|k: int| 0 <= k < i ==> s[k] != c,
    ensures
        find_byte(s, c) == Some(i),
    decreases i,
{
    if i > 0 {
        assert(s.first() != c);
        assert(s.drop_first()[i - 1] == c);
        lemma_find_byte_at(s.drop_first(), c, i - 1);
    }
}

proof fn lemma_find_byte_none(s: Seq<u8>, c: u8)
    requires
        forall|k: int| 0 <= k < s.len() ==> s[k] != c,
    ensures
        find_byte(s, c) is None,
    decreases s.len(),
{
    if s.len() > 0 {
        lemma_find_byte_none(s.drop_first(), c);
    }
}

proof fn lemma_trim_front_is(s: Seq<u8>, a: int)
    requires
        0 <= a <= s.len(),
        forall|k: int| 0 <= k < a ==> is_ws_byte(#[trigger] s[k]),
        a < s.len() ==> !is_ws_byte(s[a]),
    ensures
        trim_front(s) == s.skip(a),
    decreases a,
{
    if a == 0 {
        assert(s.skip(0) =~= s);
    } else {
        assert(is_ws_byte(s.first()));
        lemma_trim_front_is(s.drop_first(), a - 1);
        assert(s.drop_first().skip(a - 1) =~= s.skip(a));
    }
}

proof fn lemma_trim_back_is(s: Seq<u8>, b: int)
    requires
        0 <= b <= s.len(),
        forall|k: int| b <= k < s.len() ==> is_ws_byte(#[trigger] s[k]),
        b > 0 ==> !is_ws_byte(s[b - 1]),
    ensures
        trim_back(s) == s.take(b),
    decreases s.len(),
{
    if b == s.len() {
        if s.len() > 0 {
            assert(!is_ws_byte(s.last()));
        }
        assert(s.take(b) =~= s);
    } else {
        assert(is_ws_byte(s.last()));
        lemma_trim_back_is(s.drop_last(), b);
        assert(s.drop_last().take(b) =~= s.take(b));
    }
}

/// Once a prefix spells a large number, appending any bytes keeps the value
/// at least as large.
proof fn lemma_digits_value_grows(s: Seq<u8>, j: int)
    requires
        0 <= j <= s.len(),
        digits_value(s.take(j)) >= 6,
    ensures
        digits_value(s) >= digits_value(s.take(j)),
    decreases s.len() - j,
{
    if j == s.len() {
        assert(s.take(j) =~= s);
    } else {
        assert(s.take(s.len() - 1) =~= s.drop_last());
        if j < s.len() - 1 {
            assert(s.drop_last().take(j) =~= s.take(j));
            lemma_digits_value_grows(s.drop_last(), j);
        } else {
            assert(s.take(j) =~= s.drop_last());
        }
        assert(digits_value(s) == digits_value(s.drop_last()) * 10 + (s.last() - 48));
        assert(digits_value(s.drop_last()) * 10 >= digits_value(s.drop_last()) + 48) by (nonlinear_arith)
            requires
                digits_value(s.drop_last()) >= 6,
        ;
    }
}


fn is_ws(b: u8) -> (r: bool)
    ensures
        r == is_ws_byte(b),
{
    b == 32 || b == 9 || b == 10 || b == 13 || b == 12
}

/// The position of the first occurrence of `c`, if any.
fn find_in(v: &[u8], c: u8) -> (r: Option<usize>)
    ensures
        r is Some ==> find_byte(v@, c) == Some(r->0 as int) && r->0 < v@.len(),
        r is None ==> find_byte(v@, c) is None,
{
    let mut i: usize = 0;
    while i < v.len()
        invariant
            i <= v@.len(),
            forall|k: int| 0 <= k < i ==> v@[k] != c,
        decreases v@.len() - i,
    {
        if *vstd::slice::slice_index_get(v, i) == c {
            proof {
                lemma_find_byte_at(v@, c, i as int);
            }
            return Some(i);
        }
        i = i + 1;
    }
    proof {
        lemma_find_byte_none(v@, c);
    }
    None
}

/// The slice with ASCII whitespace removed from both ends.
fn trim_slice(v: &[u8]) -> (r: &[u8])
    ensures
        r@ == trimmed(v@),
{
    let mut lo: usize = 0;
    while lo < v.len() && is_ws(*vstd::slice::slice_index_get(v, lo))
        invariant
            lo <= v@.len(),
            forall|k: int| 0 <= k < lo ==> is_ws_byte(#[trigger] v@[k]),
        decreases v@.len() - lo,
    {
        lo = lo + 1;
    }
    let mut hi: usize = v.len();
    while hi > lo && is_ws(*vstd::slice::slice_index_get(v, hi - 1))
        invariant
            lo <= hi <= v@.len(),
            forall|k: int| 0 <= k < lo ==> is_ws_byte(#[trigger] v@[k]),
            forall|k: int| hi <= k < v@.len() ==> is_ws_byte(#[trigger] v@[k]),
        decreases hi,
    {
        hi = hi - 1;
    }
    proof {
        lemma_trim_front_is(v@, lo as int);
        assert forall|k: int| (hi - lo) <= k < v@.skip(lo as int).len() implies is_ws_byte(
            #[trigger] v@.skip(lo as int)[k],
        ) by {
            assert(v@.skip(lo as int)[k] == v@[k + lo]);
        }
        lemma_trim_back_is(v@.skip(lo as int), hi - lo);
        assert(v@.skip(lo as int).take(hi - lo) =~= v@.subrange(lo as int, hi as int));
    }
    slice_subrange(v, lo, hi)
}

/// The unsigned 32-bit integer the bytes spell, read as `u32::from_str`
/// reads trimmed input: optional plus sign, then decimal digits that fit.
fn parse_u32_bytes(v: &[u8]) -> (r: Result<u32, InvalidTokenBias>)
    ensures
        r is Ok <==> valid_u32_text(v@),
        r is Ok ==> r->Ok_0 == digits_value(digits_part(v@)),
{
    let start: usize = if v.len() > 0 && *vstd::slice::slice_index_get(v, 0) == 43 {
        1
    } else {
        0
    };
    proof {
        assert(digits_part(v@) =~= v@.skip(start as int));
    }
    if start == v.len() {
        return Err(InvalidTokenBias::new("cannot parse integer from empty string".to_owned()));
    }
    let mut acc: u32 = 0;
    let mut k: usize = start;
    proof {
        assert(v@.subrange(start as int, start as int) =~= Seq::<u8>::empty());
    }
    while k < v.len()
        invariant
            start <= k <= v@.len(),
            start < v@.len(),
            digits_part(v@) == v@.skip(start as int),
            forall|j: int| start <= j < k ==> is_digit(#[trigger] v@[j]),
            acc as int == digits_value(v@.subrange(start as int, k as int)),
        decreases v@.len() - k,
    {
        let b = *vstd::slice::slice_index_get(v, k);
        if !(48 <= b && b <= 57) {
            proof {
                assert(digits_part(v@)[k - start] == v@[k as int]);
                assert(!valid_u32_text(v@)) by {
                    assert(!is_digit(digits_part(v@)[k - start]));
                }
            }
            return Err(InvalidTokenBias::new("invalid digit found in string".to_owned()));
        }
        let d = (b - 48) as u32;
        let limit = (u32::MAX - d) / 10;
        proof {
            assert(v@.subrange(start as int, k + 1).drop_last() =~= v@.subrange(
                start as int,
                k as int,
            ));
            assert(v@.subrange(start as int, k + 1).last() == v@[k as int]);
        }
        if acc > limit {
            proof {
                let pre = v@.subrange(start as int, k + 1);
                assert(digits_value(pre) == acc as int * 10 + (b - 48));
                assert(acc as int * 10 + (b - 48) > u32::MAX) by {
                    assert(acc as int >= ((u32::MAX - d) / 10) as int + 1);
                }
                assert(digits_part(v@).take(k + 1 - start) =~= pre);
                lemma_digits_value_grows(digits_part(v@), k + 1 - start);
                assert(digits_value(digits_part(v@)) > u32::MAX);
            }
            return Err(InvalidTokenBias::new("number too large to fit in target type".to_owned()));
        }
        acc = acc * 10 + d;
        k = k + 1;
    }
    proof {
        assert(digits_part(v@) =~= v@.subrange(start as int, v@.len() as int));
        assert forall|j: int| 0 <= j < digits_part(v@).len() implies is_digit(
            #[trigger] digits_part(v@)[j],
        ) by {
            assert(digits_part(v@)[j] == v@[j + start]);
        }
    }
    Ok(acc)
}

/// The view of collected (id, bias bytes) entries.
pub open spec fn bias_entries_view(es: Seq<(TokenId, Vec<u8>)>) -> Seq<(u32, Seq<u8>)> {
    Seq::new(es.len(), |i: int| (es[i].0, es[i].1@))
}

/// Parse the structure of a comma-separated `id=bias` list: each segment is
/// trimmed and split at its first `=`, the id side must spell an unsigned
/// 32-bit integer, and the bias side comes back trimmed as raw bytes, its
/// numeric reading left to the caller.  Any malformed segment fails the
/// whole parse with a description, and no partial list escapes.
pub fn parse_bias_entries(s: &str) -> (r: Result<Vec<(TokenId, Vec<u8>)>, InvalidTokenBias>)
    ensures
        r is Ok <==> sp_bias_entries(s.spec_bytes()) is Some,
        r is Ok ==> Some(bias_entries_view(r->Ok_0@)) == sp_bias_entries(s.spec_bytes()),
{
    let bs: &[u8] = s.as_bytes();
    let ghost whole = bs@;
    let mut res: Vec<(TokenId, Vec<u8>)> = Vec::new();
    let mut start: usize = 0;
    let mut done = false;
    proof {
        assert(whole.skip(0) =~= whole);
        let w = sp_bias_entries(whole);
        if w is Some {
            assert(bias_entries_view(res@) + (w->0) =~= (w->0));
        }
    }
    while !done
        invariant
            start <= bs@.len(),
            bs@ == whole,
            whole == s.spec_bytes(),
            !done ==> (match sp_bias_entries(whole.skip(start as int)) {
                Some(tail) => sp_bias_entries(whole) == Some(bias_entries_view(res@) + tail),
                None => sp_bias_entries(whole) is None,
            }),
            done ==> sp_bias_entries(whole) == Some(bias_entries_view(res@)),
        decreases bs@.len() - start + (if done {
            0int
        } else {
            1int
        }),
    {
        let tail = slice_subrange(bs, start, bs.len());
        proof {
            assert(tail@ =~= whole.skip(start as int));
        }
        let (seg_end, is_last) = match find_in(tail, 44) {
            Some(j) => ((start + j), false),
            None => (bs.len(), true),
        };
        let seg = slice_subrange(bs, start, seg_end);
        proof {
            if is_last {
                assert(seg@ =~= whole.skip(start as int));
            } else {
                assert(seg@ =~= whole.skip(start as int).take(seg_end - start));
            }
        }
        let t = trim_slice(seg);
        let eq_pos = match find_in(t, 61) {
            Some(e) => e,
            None => {
                proof {
                    assert(sp_bias_segment(seg@) is None);
                }
                return Err(InvalidTokenBias::new("missing '=' in bias item".to_owned()));
            },
        };
        let key = trim_slice(slice_subrange(t, 0, eq_pos));
        proof {
            assert(trimmed(seg@).take(eq_pos as int) =~= t@.subrange(0, eq_pos as int));
        }
        let id = match parse_u32_bytes(key) {
            Ok(v) => v,
            Err(e) => {
                proof {
                    assert(sp_bias_segment(seg@) is None);
                }
                return Err(e);
            },
        };
        let tlen = t.len();
        let val = trim_slice(slice_subrange(t, eq_pos + 1, tlen));
        proof {
            assert(trimmed(seg@).skip(eq_pos + 1) =~= t@.subrange(eq_pos + 1, t@.len() as int));
            assert(sp_bias_segment(seg@) == Some((id, val@)));
        }
        let ghost old_res = res@;
        res.push((id, slice_to_vec(val)));
        proof {
            assert(bias_entries_view(res@) =~= bias_entries_view(old_res).push((id, val@)));
            if is_last {
                assert(sp_bias_entries(whole.skip(start as int)) == Some(seq![(id, val@)]));
                assert(bias_entries_view(old_res) + seq![(id, val@)] =~= bias_entries_view(res@));
            } else {
                let rest = sp_bias_entries(whole.skip(seg_end + 1));
                assert(whole.skip(start as int).skip(seg_end - start + 1) =~= whole.skip(
                    seg_end + 1,
                ));
                if rest is Some {
                    assert(bias_entries_view(old_res) + (seq![(id, val@)] + (rest->0))
                        =~= bias_entries_view(res@) + (rest->0));
                }
            }
        }
        if is_last {
            done = true;
        } else {
            start = seg_end + 1;
        }
    }
    Ok(res)
}

impl<B: Copy> Default for TokenBias<B> {
    /// An empty table.
    fn default() -> (r: Self)
        ensures
            r.wf(),
            r.entries_view() == Seq::<(TokenId, B)>::empty(),
    {
        TokenBias::empty()
    }
}

proof fn lemma_first_contains<B>(s: Seq<(TokenId, B)>, id: TokenId)
    ensures
        (first_with_id(s, id) is Some) <==> exists|i: int| 0 <= i < s.len() && (#[trigger] s[i]).0
            == id,
    decreases s.len(),
{
    if s.len() > 0 {
        lemma_first_contains(s.drop_first(), id);
        if s.first().0 == id {
            assert(s[0].0 == id);
        } else if exists|i: int| 0 <= i < s.len() && (#[trigger] s[i]).0 == id {
            let i = choose|i: int| 0 <= i < s.len() && (#[trigger] s[i]).0 == id;
            assert(s.drop_first()[i - 1].0 == id);
        }
    }
}

proof fn lemma_first_push<B>(s: Seq<(TokenId, B)>, p: (TokenId, B), t: Seq<(TokenId, B)>)
    requires
        t == s.push(p),
    ensures
        forall|id: TokenId| #[trigger] first_with_id(t, id) == if first_with_id(s, id) is Some {
            first_with_id(s, id)
        } else if p.0 == id {
            Some(p.1)
        } else {
            None::<B>
        },
    decreases s.len(),
{
    if s.len() == 0 {
        assert(t.drop_first() =~= Seq::<(TokenId, B)>::empty());
        assert forall|id: TokenId| #[trigger] first_with_id(t, id) == if first_with_id(s, id)
            is Some {
            first_with_id(s, id)
        } else if p.0 == id {
            Some(p.1)
        } else {
            None::<B>
        } by {
            assert(t.first() == p);
            if p.0 == id {
                assert(first_with_id(t, id) == Some(p.1));
            } else {
                assert(first_with_id(t, id) == first_with_id(t.drop_first(), id));
            }
        }
    } else {
        lemma_first_push(s.drop_first(), p, s.drop_first().push(p));
        assert(t.drop_first() =~= s.drop_first().push(p));
        assert forall|id: TokenId| #[trigger] first_with_id(t, id) == if first_with_id(s, id)
            is Some {
            first_with_id(s, id)
        } else if p.0 == id {
            Some(p.1)
        } else {
            None::<B>
        } by {
            assert(t.first() == s.first());
            if s.first().0 == id {
                assert(first_with_id(t, id) == Some(s.first().1));
                assert(first_with_id(s, id) == Some(s.first().1));
            } else {
                assert(first_with_id(t, id) == first_with_id(s.drop_first().push(p), id));
                assert(first_with_id(s, id) == first_with_id(s.drop_first(), id));
            }
        }
    }
}

proof fn lemma_first_insert<B>(s: Seq<(TokenId, B)>, j: int, p: (TokenId, B))
    requires
        0 <= j <= s.len(),
        forall|t: int| 0 <= t < s.len() ==> (#[trigger] s[t]).0 != p.0,
    ensures
        forall|q: TokenId| #[trigger] first_with_id(s.insert(j, p), q) == if q == p.0 {
            Some(p.1)
        } else {
            first_with_id(s, q)
        },
    decreases j,
{
    if j == 0 {
        assert forall|q: TokenId| #[trigger] first_with_id(s.insert(j, p), q) == if q == p.0 {
            Some(p.1)
        } else {
            first_with_id(s, q)
        } by {
            assert(s.insert(0, p).first() == p);
            assert(s.insert(0, p).drop_first() =~= s);
            if q == p.0 {
                assert(first_with_id(s.insert(0, p), q) == Some(p.1));
            } else {
                assert(first_with_id(s.insert(0, p), q) == first_with_id(s, q));
            }
        }
    } else {
        lemma_first_insert(s.drop_first(), j - 1, p);
        assert forall|q: TokenId| #[trigger] first_with_id(s.insert(j, p), q) == if q == p.0 {
            Some(p.1)
        } else {
            first_with_id(s, q)
        } by {
            assert(s.insert(j, p).first() == s.first());
            assert(s.insert(j, p).drop_first() =~= s.drop_first().insert(j - 1, p));
            if s.first().0 == q {
                assert(s[0].0 != p.0);
                assert(first_with_id(s.insert(j, p), q) == Some(s.first().1));
                assert(first_with_id(s, q) == Some(s.first().1));
            } else {
                assert(first_with_id(s.insert(j, p), q) == first_with_id(
                    s.drop_first().insert(j - 1, p),
                    q,
                ));
                assert(first_with_id(s, q) == first_with_id(s.drop_first(), q));
            }
        }
    }
}

proof fn lemma_first_at<B>(s: Seq<(TokenId, B)>, i: int)
    requires
        0 <= i < s.len(),
        forall|a: int, b: int| 0 <= a < b < s.len() ==> (#[trigger] s[a]).0 < (#[trigger] s[b]).0,
    ensures
        first_with_id(s, s[i].0) == Some(s[i].1),
    decreases i,
{
    if i > 0 {
        assert(s.first().0 < s[i].0);
        assert(s.drop_first()[i - 1] == s[i]);
        lemma_first_at(s.drop_first(), i - 1);
    }
}

proof fn lemma_first_absent<B>(s: Seq<(TokenId, B)>, id: TokenId)
    requires
        forall|t: int| 0 <= t < s.len() ==> (#[trigger] s[t]).0 != id,
    ensures
        first_with_id(s, id) is None,
    decreases s.len(),
{
    if s.len() > 0 {
        lemma_first_absent(s.drop_first(), id);
    }
}

} // verus!
