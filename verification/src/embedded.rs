//! The built-in tokenizer: an append-only vocabulary and a
//! dynamic-programming segmentation of text into vocabulary tokens.

use crate::TokenId;
use vstd::prelude::*;
use vstd::slice::{slice_subrange, slice_to_vec};
use vstd::string::StringSliceAdditionalSpecFns;

verus! {

/// The token id reserved for the beginning-of-sequence marker.
pub const BOS_TOKEN_ID: TokenId = 1;

/// Errors that can occur when using the model's own tokenizer.
#[derive(Debug, PartialEq)]
pub enum ModelTokenizerError {
    /// Arbitrary error that occurred during use of the model tokenizer.
    Arbitrary(String),
}

/// Errors related to tokenization.
#[derive(Debug, PartialEq)]
pub enum TokenizationError {
    /// During tokenization, no valid segmentation covered the text.
    TokenizationFailed {
        /// The underlying tokenizer error.
        error: ModelTokenizerError,
    },
    /// One of the token ids provided by the caller does not belong to this
    /// model's tokenizer.
    InvalidTokenId(TokenId),
}

/// The byte length of the longest token in `toks`; 0 for an empty vocabulary.
pub open spec fn max_token_len(toks: Seq<Seq<u8>>) -> nat
    decreases toks.len(),
{
    if toks.len() == 0 {
        0
    } else {
        let m = max_token_len(toks.drop_last());
        if toks.last().len() > m {
            toks.last().len()
        } else {
            m
        }
    }
}

/// The reverse index: the id of the token whose bytes are `t`.  When the same
/// byte-string was appended more than once, the latest id wins, as an
/// insertion-ordered reverse map would have it.
pub open spec fn last_id_of(toks: Seq<Seq<u8>>, t: Seq<u8>) -> Option<int>
    decreases toks.len(),
{
    if toks.len() == 0 {
        None
    } else if toks.last() == t {
        Some(toks.len() - 1)
    } else {
        last_id_of(toks.drop_last(), t)
    }
}

/// Concatenation, in order, of the byte-strings of a sequence of
/// (token bytes, token id) pairs.
pub open spec fn concat_bytes(ps: Seq<(Vec<u8>, TokenId)>) -> Seq<u8>
    decreases ps.len(),
{
    if ps.len() == 0 {
        Seq::empty()
    } else {
        concat_bytes(ps.drop_last()) + ps.last().0@
    }
}

/// Concatenation of the byte-strings of `ps` read back to front, as the
/// backward reconstruction pass of the tokenizer collects them.
pub open spec fn rev_concat_bytes(ps: Seq<(Vec<u8>, TokenId)>) -> Seq<u8>
    decreases ps.len(),
{
    if ps.len() == 0 {
        Seq::empty()
    } else {
        ps.last().0@ + rev_concat_bytes(ps.drop_last())
    }
}

/// What decoding a sequence of ids yields: the byte-strings of the ids,
/// concatenated in order, the beginning-of-sequence id omitted when `skip`.
pub open spec fn decoded_bytes(toks: Seq<Seq<u8>>, ids: Seq<TokenId>, skip: bool) -> Seq<u8>
    decreases ids.len(),
{
    if ids.len() == 0 {
        Seq::empty()
    } else {
        let rest = decoded_bytes(toks, ids.drop_last(), skip);
        if skip && ids.last() == BOS_TOKEN_ID {
            rest
        } else {
            rest + toks[ids.last() as int]
        }
    }
}

/// The ids of a sequence of (token bytes, token id) pairs, in order.
pub open spec fn ids_of(ps: Seq<(Vec<u8>, TokenId)>) -> Seq<TokenId> {
    ps.map_values(|p: (Vec<u8>, TokenId)| p.1)
}

/// One candidate of the segmentation search: a token of length `l` ending
/// the stretch that starts at `i`.  Found in the vocabulary and scoring
/// strictly better, it overwrites score and back-pointer at `i + l`;
/// otherwise the arrays stand, so among equal scores the first-reached
/// candidate is kept.
pub open spec fn dp_try(
    toks: Seq<Seq<u8>>,
    bs: Seq<u8>,
    score: Seq<int>,
    prev: Seq<TokenId>,
    i: int,
    l: int,
) -> (Seq<int>, Seq<TokenId>) {
    match last_id_of(toks, bs.subrange(i, i + l)) {
        Some(t) => {
            let cand = score[i] + l * l;
            if score[i + l] < cand {
                (score.update(i + l, cand), prev.update(i + l, t as TokenId))
            } else {
                (score, prev)
            }
        },
        None => (score, prev),
    }
}

/// The inner sweep of the search: candidate lengths `l` through `m`, tried
/// in increasing order.
pub open spec fn dp_inner(
    toks: Seq<Seq<u8>>,
    bs: Seq<u8>,
    score: Seq<int>,
    prev: Seq<TokenId>,
    i: int,
    l: int,
    m: int,
) -> (Seq<int>, Seq<TokenId>)
    decreases m + 1 - l,
{
    if l > m || m < 0 {
        (score, prev)
    } else {
        let sp = dp_try(toks, bs, score, prev, i, l);
        dp_inner(toks, bs, sp.0, sp.1, i, l + 1, m)
    }
}

/// The outer sweep: start positions `i` through the end of the bytes, each
/// trying candidate lengths up to the vocabulary's longest token.
pub open spec fn dp_outer(
    toks: Seq<Seq<u8>>,
    bs: Seq<u8>,
    maxlen: int,
    score: Seq<int>,
    prev: Seq<TokenId>,
    i: int,
) -> (Seq<int>, Seq<TokenId>)
    decreases bs.len() - i,
{
    if i < 0 || i >= bs.len() {
        (score, prev)
    } else {
        let m = if bs.len() - i < maxlen {
            bs.len() - i
        } else {
            maxlen as int
        };
        let sp = dp_inner(toks, bs, score, prev, i, 1, m);
        dp_outer(toks, bs, maxlen, sp.0, sp.1, i + 1)
    }
}

/// The arrays the whole dynamic-programming pass leaves, started from all
/// zeroes: 0 in `prev` is the sentinel for "no token ends here".
pub open spec fn dp_arrays(toks: Seq<Seq<u8>>, maxlen: int, bs: Seq<u8>) -> (Seq<int>, Seq<TokenId>) {
    dp_outer(
        toks,
        bs,
        maxlen,
        Seq::new(bs.len() + 1, |j: int| 0int),
        Seq::new(bs.len() + 1, |j: int| 0u32),
        0,
    )
}

/// The back-pointer array the dynamic-programming pass leaves.
pub open spec fn dp_prev(toks: Seq<Seq<u8>>, maxlen: int, bs: Seq<u8>) -> Seq<TokenId> {
    dp_arrays(toks, maxlen, bs).1
}

/// Backward reconstruction from position `pos`: the pairs covering the
/// bytes up to `pos`, in text order, or nothing as soon as the walk meets
/// the sentinel or an impossible back-pointer.
pub open spec fn dp_walk(toks: Seq<Seq<u8>>, prev: Seq<TokenId>, pos: int) -> Option<
    Seq<(Seq<u8>, TokenId)>,
>
    decreases pos,
{
    if pos <= 0 {
        Some(Seq::empty())
    } else if pos >= prev.len() {
        None
    } else {
        let t = prev[pos] as int;
        if t == 0 || t >= toks.len() {
            None
        } else {
            let l = toks[t].len() as int;
            if l < 1 || l > pos {
                None
            } else {
                match dp_walk(toks, prev, pos - l) {
                    Some(rest) => Some(rest.push((toks[t], prev[pos]))),
                    None => None,
                }
            }
        }
    }
}

/// What tokenization returns: the dynamic-programming segmentation of the
/// bytes under the quadratic length-squared score with its first-reached
/// tie-break, reconstructed backward from the end, with the reserved
/// marker pair prepended on request; nothing exactly when the backward walk
/// meets the sentinel before reaching the start.
pub open spec fn sp_tokenize(toks: Seq<Seq<u8>>, maxlen: int, bs: Seq<u8>, bos: bool) -> Option<
    Seq<(Seq<u8>, TokenId)>,
> {
    match dp_walk(toks, dp_prev(toks, maxlen, bs), bs.len() as int) {
        Some(ps) => Some(
            if bos {
                seq![(Seq::<u8>::empty(), BOS_TOKEN_ID)] + ps
            } else {
                ps
            },
        ),
        None => None,
    }
}

/// The mathematical pairs of a returned pair list.
pub open spec fn pairs_view(ps: Seq<(Vec<u8>, TokenId)>) -> Seq<(Seq<u8>, TokenId)> {
    Seq::new(ps.len(), |i: int| (ps[i].0@, ps[i].1))
}

/// The ids of a mathematical pair sequence, in order.
pub open spec fn sp_ids(ps: Seq<(Seq<u8>, TokenId)>) -> Seq<TokenId> {
    ps.map_values(|p: (Seq<u8>, TokenId)| p.1)
}

/// A score array as mathematical integers.
pub open spec fn usize_ints(s: Seq<usize>) -> Seq<int> {
    Seq::new(s.len(), |i: int| s[i] as int)
}

/// The built-in tokenizer: parallel forward and score indexes over dense
/// token ids, plus the length of the longest token.  The score type is any
/// copyable payload; the engine itself never reads it.
pub struct EmbeddedTokenizer<S> {
    /// Maps every integer (index) token id to its corresponding token bytes.
    pub id_to_token: Vec<Vec<u8>>,
    /// Maps every integer (index) token id to its corresponding score.
    pub id_to_token_score: Vec<S>,
    /// The byte length of the longest token in this tokenizer.
    pub max_token_length: usize,
}

impl<S> EmbeddedTokenizer<S> {
    /// The forward index as a sequence of byte-strings.
    pub open spec fn spec_tokens(&self) -> Seq<Seq<u8>> {
        Seq::new(self.id_to_token@.len(), |i: int| self.id_to_token@[i]@)
    }

    /// Well-formedness: the two indexes run in parallel, every id fits in a
    /// `TokenId`, and `max_token_length` is what its name says.
    pub open spec fn wf(&self) -> bool {
        &&& self.id_to_token@.len() == self.id_to_token_score@.len()
        &&& self.id_to_token@.len() <= u32::MAX
        &&& self.max_token_length == max_token_len(self.spec_tokens())
    }

    /// An empty vocabulary.
    pub fn new() -> (r: Self)
        ensures
            r.wf(),
            r.spec_tokens() == Seq::<Seq<u8>>::empty(),
            r.id_to_token_score@.len() == 0,
    {
        let r = EmbeddedTokenizer { id_to_token: Vec::new(), id_to_token_score: Vec::new(), max_token_length: 0 };
        proof {
            assert(r.spec_tokens() =~= Seq::<Seq<u8>>::empty());
        }
        r
    }

    /// Add a token to the internal vocabulary.
    ///
    /// The token added must have `id` directly after the last token in the
    /// vocabulary: ids are assigned densely starting at 0 in append order.
    /// An out-of-order id is a contract violation by the loader, not a
    /// property of the model, so it is ruled out statically here rather than
    /// surfaced as a recoverable error.
    pub fn push_token(&mut self, id: TokenId, content: Vec<u8>, score: S)
        requires
            old(self).wf(),
            id as int == old(self).id_to_token@.len(),
            old(self).id_to_token@.len() < u32::MAX,
        ensures
            final(self).wf(),
            final(self).spec_tokens() == old(self).spec_tokens().push(content@),
            final(self).id_to_token_score@ == old(self).id_to_token_score@.push(score),
            final(self).max_token_length == if content@.len() > old(self).max_token_length {
                content@.len() as int
            } else {
                old(self).max_token_length as int
            },
    {
        if content.len() > self.max_token_length {
            self.max_token_length = content.len();
        }
        let ghost cv = content@;
        self.id_to_token.push(content);
        self.id_to_token_score.push(score);
        proof {
            assert(self.spec_tokens() =~~= old(self).spec_tokens().push(cv));
            lemma_max_token_len_push(old(self).spec_tokens(), cv);
        }
    }

    /// The number of tokens in the tokenizer.
    pub fn len(&self) -> (r: usize)
        ensures
            r == self.id_to_token@.len(),
    {
        self.id_to_token.len()
    }

    /// Whether the tokenizer is empty.
    pub fn is_empty(&self) -> (r: bool)
        ensures
            r == (self.id_to_token@.len() == 0),
    {
        self.id_to_token.len() == 0
    }

    /// The token bytes a token id stands for.
    pub fn token(&self, idx: usize) -> (r: Vec<u8>)
        requires
            idx < self.id_to_token@.len(),
        ensures
            r@ == self.spec_tokens()[idx as int],
    {
        slice_to_vec(self.id_to_token[idx].as_slice())
    }

    /// The token id whose bytes are `token`, through the reverse index.
    pub fn id(&self, token: &[u8]) -> (r: Option<TokenId>)
        requires
            self.wf(),
        ensures
            r is Some <==> last_id_of(self.spec_tokens(), token@) is Some,
            r is Some ==> Some(r->0 as int) == last_id_of(self.spec_tokens(), token@),
    {
        let ghost toks = self.spec_tokens();
        let mut idx: usize = self.id_to_token.len();
        while idx > 0
            invariant
                self.wf(),
                toks == self.spec_tokens(),
                idx <= self.id_to_token@.len(),
                forall|k: int| idx <= k < toks.len() ==> toks[k] != token@,
            decreases idx,
        {
            idx = idx - 1;
            if bytes_eq(self.id_to_token[idx].as_slice(), token) {
                proof {
                    lemma_last_id_at(toks, token@, idx as int);
                }
                return Some(idx as u32);
            }
        }
        proof {
            lemma_last_id_none(toks, token@);
        }
        None
    }

    /// Decode a list of token ids back into bytes: the byte-strings of the
    /// ids, concatenated in order; ids equal to the beginning-of-sequence id
    /// are omitted when `skip_special_tokens` is set.  Ids must be valid for
    /// this vocabulary: an out-of-range id is a caller contract violation,
    /// not a recoverable error.
    pub fn decode(&self, tokens: Vec<TokenId>, skip_special_tokens: bool) -> (r: Vec<u8>)
        requires
            self.wf(),
            forall|i: int| 0 <= i < tokens@.len() ==> (tokens@[i] as int) < self.id_to_token@.len(),
        ensures
            r@ == decoded_bytes(self.spec_tokens(), tokens@, skip_special_tokens),
    {
        let mut out: Vec<u8> = Vec::new();
        let mut i: usize = 0;
        while i < tokens.len()
            invariant
                self.wf(),
                forall|k: int| 0 <= k < tokens@.len() ==> (tokens@[k] as int) < self.id_to_token@.len(),
                i <= tokens@.len(),
                out@ == decoded_bytes(self.spec_tokens(), tokens@.take(i as int), skip_special_tokens),
            decreases tokens@.len() - i,
        {
            let t = tokens[i];
            if skip_special_tokens && t == BOS_TOKEN_ID {
            } else {
                out.extend_from_slice(self.id_to_token[t as usize].as_slice());
            }
            proof {
                assert(tokens@.take(i + 1).drop_last() =~= tokens@.take(i as int));
                assert(tokens@.take(i + 1).last() == tokens@[i as int]);
            }
            i = i + 1;
        }
        proof {
            assert(tokens@.take(tokens@.len() as int) =~= tokens@);
        }
        out
    }
}

/// Compare two byte slices for equality.
fn bytes_eq(a: &[u8], b: &[u8]) -> (r: bool)
    ensures
        r == (a@ == b@),
{
    if a.len() != b.len() {
        return false;
    }
    let mut i: usize = 0;
    while i < a.len()
        invariant
            a@.len() == b@.len(),
            i <= a@.len(),
            forall|k: int| 0 <= k < i ==> a@[k] == b@[k],
        decreases a@.len() - i,
    {
        let x = *vstd::slice::slice_index_get(a, i);
        let y = *vstd::slice::slice_index_get(b, i);
        if x != y {
            return false;
        }
        i = i + 1;
    }
    proof {
        assert(a@ =~= b@);
    }
    true
}

proof fn lemma_last_id_at(toks: Seq<Seq<u8>>, t: Seq<u8>, i: int)
    requires
        0 <= i < toks.len(),
        toks[i] == t,
        forall|k: int| i < k < toks.len() ==> toks[k] != t,
    ensures
        last_id_of(toks, t) == Some(i),
    decreases toks.len(),
{
    if i < toks.len() - 1 {
        assert(toks.drop_last()[i] == t);
        lemma_last_id_at(toks.drop_last(), t, i);
    }
}

proof fn lemma_last_id_none(toks: Seq<Seq<u8>>, t: Seq<u8>)
    requires
        forall|k: int| 0 <= k < toks.len() ==> toks[k] != t,
    ensures
        last_id_of(toks, t) is None,
    decreases toks.len(),
{
    if toks.len() > 0 {
        lemma_last_id_none(toks.drop_last(), t);
    }
}

/// A well-formed (token bytes, token id) pair: the id is a real, non-sentinel
/// vocabulary id and the bytes are that id's token, which is non-empty.
pub open spec fn pair_ok(toks: Seq<Seq<u8>>, p: (Vec<u8>, TokenId)) -> bool {
    &&& 0 < p.1
    &&& (p.1 as int) < toks.len()
    &&& p.0@ == toks[p.1 as int]
    &&& p.0@.len() >= 1
}

/// Every non-sentinel back-pointer names a token that really ends at its
/// position: the DP invariant the backward reconstruction pass relies on.
pub open spec fn backtrack_ok(toks: Seq<Seq<u8>>, bs: Seq<u8>, prev: Seq<TokenId>) -> bool {
    forall|j: int|
        0 <= j < prev.len() && (#[trigger] prev[j]) != 0 ==> {
            let t = prev[j] as int;
            &&& t < toks.len()
            &&& 1 <= toks[t].len() <= j
            &&& toks[t] == bs.subrange(j - toks[t].len(), j)
        }
}

/// Each path score is bounded by the square of its position, so the
/// quadratic scoring arithmetic cannot overflow.
pub open spec fn scores_ok(score: Seq<usize>) -> bool {
    forall|j: int| 0 <= j < score.len() ==> (#[trigger] score[j]) <= j * j
}

impl<S> EmbeddedTokenizer<S> {
    /// Tokenize `text`: segment its bytes into the sequence of known
    /// vocabulary tokens that dynamic programming selects under the
    /// quadratic length-squared score, then reconstruct that segmentation
    /// backward.  `bos` prepends the reserved (empty bytes,
    /// beginning-of-sequence id) pair without involving the search.
    ///
    /// On success the returned pairs concatenate, in order, to exactly the
    /// bytes of `text`; every pair past the optional leading marker carries
    /// a real vocabulary id together with that id's (non-empty) bytes.
    pub fn tokenize(&self, text: &str, bos: bool) -> (r: Result<
        Vec<(Vec<u8>, TokenId)>,
        TokenizationError,
    >)
        requires
            self.wf(),
            text.spec_bytes().len() * text.spec_bytes().len() <= usize::MAX,
        ensures
            r is Ok <==> sp_tokenize(
                self.spec_tokens(),
                self.max_token_length as int,
                text.spec_bytes(),
                bos,
            ) is Some,
            (r matches Ok(ps) ==> Some(pairs_view(ps@)) == sp_tokenize(
                self.spec_tokens(),
                self.max_token_length as int,
                text.spec_bytes(),
                bos,
            )),
            (match r {
                Ok(ps) => {
                    &&& concat_bytes(ps@) == text.spec_bytes()
                    &&& (bos ==> ps@.len() >= 1 && ps@[0].0@ == Seq::<u8>::empty() && ps@[0].1
                        == BOS_TOKEN_ID)
                    &&& (forall|i: int|
                        (if bos {
                            1int
                        } else {
                            0int
                        }) <= i < ps@.len() ==> pair_ok(self.spec_tokens(), ps@[i]))
                },
                Err(e) => e matches TokenizationError::TokenizationFailed { .. }
                    && text.spec_bytes().len() > 0,
            }),
            text.spec_bytes().len() == 0 ==> r is Ok,
    {
        let ghost cap_int = self.max_token_length as int;
        let ghost toks = self.spec_tokens();
        let bytes: &[u8] = text.as_bytes();
        let len: usize = bytes.len();
        proof {
            if len >= 2 {
                let l = len as int;
                assert(l < l * l) by (nonlinear_arith)
                    requires
                        l >= 2,
                ;
            }
        }
        let mut score: Vec<usize> = Vec::new();
        let mut prev: Vec<TokenId> = Vec::new();
        let mut k: usize = 0;
        while k <= len
            invariant
                len < usize::MAX,
                k <= len + 1,
                score@.len() == k,
                prev@.len() == k,
                forall|j: int| 0 <= j < k ==> (#[trigger] score@[j]) == 0,
                forall|j: int| 0 <= j < k ==> (#[trigger] prev@[j]) == 0,
            decreases len + 1 - k,
        {
            score.push(0);
            prev.push(0);
            k = k + 1;
        }
        proof {
            assert(usize_ints(score@) =~= Seq::new((len + 1) as nat, |j: int| 0int));
            assert(prev@ =~= Seq::new((len + 1) as nat, |j: int| 0u32));
            assert(dp_outer(toks, bytes@, cap_int, usize_ints(score@), prev@, 0) == dp_arrays(
                toks,
                cap_int,
                bytes@,
            ));
        }

        let mut i: usize = 0;
        while i < len
            invariant
                self.wf(),
                toks == self.spec_tokens(),
                bytes@ == text.spec_bytes(),
                len == bytes@.len(),
                len < usize::MAX,
                len * len <= usize::MAX,
                score@.len() == len + 1,
                prev@.len() == len + 1,
                scores_ok(score@),
                backtrack_ok(toks, bytes@, prev@),
                i <= len,
                cap_int == self.max_token_length as int,
                dp_outer(toks, bytes@, cap_int, usize_ints(score@), prev@, i as int) == dp_arrays(
                    toks,
                    cap_int,
                    bytes@,
                ),
            decreases len - i,
        {
            let rem = len - i;
            let cap = self.max_token_length;
            let max_len = if rem < cap {
                rem
            } else {
                cap
            };
            let ghost entry_s = usize_ints(score@);
            let ghost entry_p = prev@;
            let mut sub_len: usize = 1;
            while sub_len <= max_len
                invariant
                    self.wf(),
                    toks == self.spec_tokens(),
                    bytes@ == text.spec_bytes(),
                    len == bytes@.len(),
                    len < usize::MAX,
                    len * len <= usize::MAX,
                    score@.len() == len + 1,
                    prev@.len() == len + 1,
                    scores_ok(score@),
                    backtrack_ok(toks, bytes@, prev@),
                    i < len,
                    max_len <= len - i,
                    max_len as int == if len - i < cap_int {
                        len - i
                    } else {
                        cap_int
                    },
                    1 <= sub_len <= max_len + 1,
                    cap_int == self.max_token_length as int,
                    dp_outer(toks, bytes@, cap_int, entry_s, entry_p, i as int) == dp_arrays(
                        toks,
                        cap_int,
                        bytes@,
                    ),
                    dp_inner(
                        toks,
                        bytes@,
                        usize_ints(score@),
                        prev@,
                        i as int,
                        sub_len as int,
                        max_len as int,
                    ) == dp_inner(toks, bytes@, entry_s, entry_p, i as int, 1, max_len as int),
                decreases max_len + 1 - sub_len,
            {
                let sub = slice_subrange(bytes, i, i + sub_len);
                let ghost pre_s = usize_ints(score@);
                let ghost pre_p = prev@;
                match self.id(sub) {
                    Some(t) => {
                        proof {
                            let ii = i as int;
                            let ss = sub_len as int;
                            let ll = len as int;
                            assert(ss * ss <= ll * ll) by (nonlinear_arith)
                                requires
                                    0 <= ss <= ll,
                            ;
                            assert(ii * ii + ss * ss <= (ii + ss) * (ii + ss)) by (nonlinear_arith)
                                requires
                                    ii >= 0,
                                    ss >= 0,
                            ;
                            assert((ii + ss) * (ii + ss) <= ll * ll) by (nonlinear_arith)
                                requires
                                    0 <= ii + ss <= ll,
                            ;
                        }
                        let token_score = sub_len * sub_len;
                        let local_score = score[i] + token_score;
                        let next = i + sub_len;
                        if score[next] < local_score {
                            score.set(next, local_score);
                            prev.set(next, t);
                            proof {
                                lemma_last_id_some(toks, sub@);
                                assert(toks[t as int] == bytes@.subrange(
                                    next - toks[t as int].len(),
                                    next as int,
                                ));
                                assert(usize_ints(score@) =~= pre_s.update(
                                    next as int,
                                    local_score as int,
                                ));
                                assert(prev@ =~= pre_p.update(next as int, t));
                                assert(dp_try(toks, bytes@, pre_s, pre_p, i as int, sub_len as int)
                                    == (usize_ints(score@), prev@));
                            }
                        } else {
                            proof {
                                assert(dp_try(toks, bytes@, pre_s, pre_p, i as int, sub_len as int)
                                    == (pre_s, pre_p));
                            }
                        }
                    },
                    None => {
                        proof {
                            assert(dp_try(toks, bytes@, pre_s, pre_p, i as int, sub_len as int) == (
                            pre_s,
                            pre_p,
                            ));
                        }
                    },
                }
                proof {
                    assert(dp_inner(toks, bytes@, pre_s, pre_p, i as int, sub_len as int, max_len as int)
                        == dp_inner(
                        toks,
                        bytes@,
                        usize_ints(score@),
                        prev@,
                        i as int,
                        sub_len + 1,
                        max_len as int,
                    ));
                }
                sub_len = sub_len + 1;
            }
            proof {
                assert(dp_inner(
                    toks,
                    bytes@,
                    usize_ints(score@),
                    prev@,
                    i as int,
                    max_len + 1,
                    max_len as int,
                ) == (usize_ints(score@), prev@));
                assert(dp_outer(toks, bytes@, cap_int, entry_s, entry_p, i as int) == dp_outer(
                    toks,
                    bytes@,
                    cap_int,
                    usize_ints(score@),
                    prev@,
                    i + 1,
                ));
            }
            i = i + 1;
        }
        proof {
            assert(dp_outer(toks, bytes@, cap_int, usize_ints(score@), prev@, len as int) == (
            usize_ints(score@),
            prev@,
            ));
            assert(prev@ == dp_prev(toks, cap_int, bytes@));
        }

        let mut res: Vec<(Vec<u8>, TokenId)> = Vec::new();
        let mut pos: usize = len;
        proof {
            if dp_walk(toks, prev@, len as int) is Some {
                assert(dp_walk(toks, prev@, len as int)->0 + pairs_view(res@).reverse()
                    =~= dp_walk(toks, prev@, len as int)->0);
            }
        }
        while pos > 0
            invariant
                self.wf(),
                toks == self.spec_tokens(),
                bytes@ == text.spec_bytes(),
                len == bytes@.len(),
                prev@.len() == len + 1,
                backtrack_ok(toks, bytes@, prev@),
                pos <= len,
                rev_concat_bytes(res@) == bytes@.subrange(pos as int, len as int),
                forall|j: int| 0 <= j < res@.len() ==> pair_ok(toks, #[trigger] res@[j]),
                cap_int == self.max_token_length as int,
                prev@ == dp_prev(toks, cap_int, bytes@),
                (match dp_walk(toks, prev@, pos as int) {
                    Some(head) => dp_walk(toks, prev@, len as int) == Some(
                        head + pairs_view(res@).reverse(),
                    ),
                    None => dp_walk(toks, prev@, len as int) is None,
                }),
            decreases pos,
        {
            let token_id = prev[pos];
            if token_id == 0 {
                proof {
                    assert(dp_walk(toks, prev@, pos as int) is None);
                    assert(dp_walk(toks, prev@, len as int) is None);
                    assert(sp_tokenize(toks, cap_int, bytes@, bos) is None);
                }
                return Err(TokenizationError::TokenizationFailed {
                    error: ModelTokenizerError::Arbitrary(
                        "the backward pass for the tokenizer encountered a non-set token".to_owned(),
                    ),
                });
            }
            let token: &Vec<u8> = &self.id_to_token[token_id as usize];
            let tl = token.len();
            let pair = (slice_to_vec(token.as_slice()), token_id);
            let ghost old_res = res@;
            res.push(pair);
            proof {
                assert(res@.drop_last() =~= old_res);
                assert(bytes@.subrange(pos - tl, pos as int) + bytes@.subrange(
                    pos as int,
                    len as int,
                ) =~= bytes@.subrange(pos - tl, len as int));
                let pv = (toks[token_id as int], token_id);
                assert(pairs_view(res@).reverse() =~= seq![pv] + pairs_view(old_res).reverse());
                match dp_walk(toks, prev@, pos - tl) {
                    Some(h) => {
                        assert(dp_walk(toks, prev@, pos as int) == Some(h.push(pv)));
                        assert(h.push(pv) + pairs_view(old_res).reverse() =~= h + (seq![pv]
                            + pairs_view(old_res).reverse()));
                    },
                    None => {
                        assert(dp_walk(toks, prev@, pos as int) is None);
                    },
                }
            }
            pos = pos - tl;
        }
        proof {
            assert(bytes@.subrange(0, len as int) =~= bytes@);
            assert(dp_walk(toks, prev@, 0) == Some(Seq::<(Seq<u8>, TokenId)>::empty()));
            assert(Seq::<(Seq<u8>, TokenId)>::empty() + pairs_view(res@).reverse() =~= pairs_view(
                res@,
            ).reverse());
            assert(dp_walk(toks, prev@, len as int) == Some(pairs_view(res@).reverse()));
        }
        let ghost walked = res@;
        if bos {
            let ghost old_res = res@;
            res.push((Vec::new(), BOS_TOKEN_ID));
            proof {
                assert(res@.drop_last() =~= old_res);
                assert(rev_concat_bytes(res@) =~= bytes@);
            }
        }
        let ghost rs = res@;
        let out = reverse_pairs(res);
        proof {
            lemma_rev_concat(rs, out@);
            if bos {
                assert(pairs_view(out@) =~= seq![(Seq::<u8>::empty(), BOS_TOKEN_ID)] + pairs_view(
                    walked,
                ).reverse());
            } else {
                assert(pairs_view(out@) =~= pairs_view(walked).reverse());
            }
            assert(Some(pairs_view(out@)) == sp_tokenize(toks, cap_int, bytes@, bos));
        }
        Ok(out)
    }
}

/// Reverse the order of a sequence of pairs.
fn reverse_pairs(v: Vec<(Vec<u8>, TokenId)>) -> (r: Vec<(Vec<u8>, TokenId)>)
    ensures
        r@.len() == v@.len(),
        forall|i: int| 0 <= i < v@.len() ==> #[trigger] r@[i] == v@[v@.len() - 1 - i],
{
    let ghost orig = v@;
    let mut v = v;
    let mut r: Vec<(Vec<u8>, TokenId)> = Vec::new();
    while v.len() > 0
        invariant
            v@.len() + r@.len() == orig.len(),
            v@ == orig.take(v@.len() as int),
            forall|i: int| 0 <= i < r@.len() ==> #[trigger] r@[i] == orig[orig.len() - 1 - i],
        decreases v@.len(),
    {
        let ghost before = v@;
        let p = v.pop().unwrap();
        r.push(p);
        proof {
            assert(v@ =~= orig.take(v@.len() as int));
            assert(p == orig[orig.len() - 1 - (r@.len() - 1)]);
        }
    }
    r
}

/// Concatenating a pair sequence in order starts with the first pair's
/// bytes.
pub proof fn lemma_concat_first(a: Seq<(Vec<u8>, TokenId)>)
    requires
        a.len() > 0,
    ensures
        concat_bytes(a) == a.first().0@ + concat_bytes(a.drop_first()),
    decreases a.len(),
{
    if a.len() == 1 {
        assert(a.drop_last() =~= Seq::<(Vec<u8>, TokenId)>::empty());
        assert(a.drop_first() =~= Seq::<(Vec<u8>, TokenId)>::empty());
        assert(concat_bytes(a) =~= a.first().0@ + concat_bytes(a.drop_first()));
    } else {
        lemma_concat_first(a.drop_last());
        assert(a.drop_last().drop_first() =~= a.drop_first().drop_last());
        assert(a.drop_last().first() == a.first());
        assert(a.drop_first().last() == a.last());
        assert((a.first().0@ + concat_bytes(a.drop_first().drop_last())) + a.last().0@
            =~= a.first().0@ + (concat_bytes(a.drop_first().drop_last()) + a.last().0@));
    }
}

/// Reading a pair sequence back to front concatenates the first pair's bytes
/// last.
proof fn lemma_rev_concat_first(a: Seq<(Vec<u8>, TokenId)>)
    requires
        a.len() > 0,
    ensures
        rev_concat_bytes(a) == rev_concat_bytes(a.drop_first()) + a.first().0@,
    decreases a.len(),
{
    if a.len() == 1 {
        assert(a.drop_last() =~= Seq::<(Vec<u8>, TokenId)>::empty());
        assert(a.drop_first() =~= Seq::<(Vec<u8>, TokenId)>::empty());
        assert(rev_concat_bytes(a) =~= rev_concat_bytes(a.drop_first()) + a.first().0@);
    } else {
        lemma_rev_concat_first(a.drop_last());
        assert(a.drop_last().drop_first() =~= a.drop_first().drop_last());
        assert(a.drop_last().first() == a.first());
        assert(a.drop_first().last() == a.last());
        assert(a.last().0@ + (rev_concat_bytes(a.drop_first().drop_last()) + a.first().0@) =~= (
        a.last().0@ + rev_concat_bytes(a.drop_first().drop_last())) + a.first().0@);
    }
}

/// Concatenating a pointwise-reversed pair sequence in order equals
/// concatenating the original back to front.
proof fn lemma_rev_concat(a: Seq<(Vec<u8>, TokenId)>, b: Seq<(Vec<u8>, TokenId)>)
    requires
        b.len() == a.len(),
        forall|i: int| 0 <= i < a.len() ==> #[trigger] b[i] == a[a.len() - 1 - i],
    ensures
        concat_bytes(b) == rev_concat_bytes(a),
    decreases a.len(),
{
    if a.len() > 0 {
        assert(b.drop_last().len() == a.drop_first().len());
        assert(forall|i: int|
            0 <= i < a.drop_first().len() ==> #[trigger] b.drop_last()[i] == a.drop_first()[a.drop_first().len() - 1 - i]);
        lemma_rev_concat(a.drop_first(), b.drop_last());
        lemma_rev_concat_first(a);
        assert(b.last() == a.first());
    }
}

/// Law: decoding, without skipping, the ids of any pair sequence whose pairs
/// each carry the bytes of their own id reconstructs the concatenation of
/// those pairs' bytes.  Applied to the pairs `tokenize(text, false)`
/// returned, whose concatenation is the text's bytes, it says that
/// `decode(ids, false)` gives back exactly the original text bytes.
pub proof fn lemma_tokenize_decode_round_trip(toks: Seq<Seq<u8>>, ps: Seq<(Vec<u8>, TokenId)>)
    requires
        forall|i: int|
            0 <= i < ps.len() ==> ((#[trigger] ps[i]).1 as int) < toks.len() && ps[i].0@
                == toks[ps[i].1 as int],
    ensures
        decoded_bytes(toks, ids_of(ps), false) == concat_bytes(ps),
    decreases ps.len(),
{
    if ps.len() > 0 {
        assert(ids_of(ps).drop_last() =~= ids_of(ps.drop_last()));
        lemma_tokenize_decode_round_trip(toks, ps.drop_last());
        assert(ids_of(ps).last() == ps.last().1);
    }
}

proof fn lemma_last_id_some(toks: Seq<Seq<u8>>, t: Seq<u8>)
    requires
        last_id_of(toks, t) is Some,
    ensures
        ({
            let i = last_id_of(toks, t)->0;
            0 <= i < toks.len() && toks[i] == t
        }),
    decreases toks.len(),
{
    if toks.len() > 0 && toks.last() != t {
        lemma_last_id_some(toks.drop_last(), t);
    }
}

impl<S> Default for EmbeddedTokenizer<S> {
    /// An empty vocabulary.
    fn default() -> (r: Self)
        ensures
            r.wf(),
            r.spec_tokens() == Seq::<Seq<u8>>::empty(),
            r.id_to_token_score@.len() == 0,
    {
        EmbeddedTokenizer::new()
    }
}

proof fn lemma_max_token_len_push(toks: Seq<Seq<u8>>, t: Seq<u8>)
    ensures
        max_token_len(toks.push(t)) == if t.len() > max_token_len(toks) {
            t.len() as int
        } else {
            max_token_len(toks) as int
        },
{
    assert(toks.push(t).drop_last() =~= toks);
}

} // verus!
