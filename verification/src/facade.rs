//! The tokenizer facade: capability dispatch between the built-in engine and
//! an adapter over an external tokenizer backend, the source a tokenizer is
//! retrieved from, and prompt resolution to token ids.

use crate::embedded::{
    concat_bytes, decoded_bytes, ids_of, last_id_of, pair_ok, pairs_view, sp_ids, sp_tokenize,
    EmbeddedTokenizer, ModelTokenizerError, TokenizationError, BOS_TOKEN_ID,
};
use crate::embedded::{lemma_concat_first, lemma_tokenize_decode_round_trip};
use crate::TokenId;
use vstd::prelude::*;
use vstd::slice::slice_to_vec;
use vstd::string::{StrSliceExecFns, StringSliceAdditionalSpecFns};
use vstd::utf8::valid_utf8;

verus! {

#[verifier::external_type_specification]
#[verifier::external_body]
pub struct ExPathBuf(std::path::PathBuf);

#[verifier::external_type_specification]
#[verifier::external_body]
pub struct ExTokenizer(tokenizers::Tokenizer);

#[verifier::external_type_specification]
#[verifier::external_body]
pub struct ExEncoding(tokenizers::Encoding);

/// Relies on PathBuf::clone: the copy equals the original.
pub assume_specification[ <std::path::PathBuf as Clone>::clone ](path: &std::path::PathBuf) -> (r:
    std::path::PathBuf)
    ensures
        r == *path,
;

/// Errors related to loading a tokenizer.
pub struct TokenizerLoadError {
    /// The path to the tokenizer.
    pub path: std::path::PathBuf,
    /// A description of the error that occurred during loading.
    pub message: String,
}

impl TokenizerLoadError {
    /// Pair a path with a description of what went wrong there.
    pub fn new(path: std::path::PathBuf, message: String) -> (r: Self)
        ensures
            r.path == path,
            r.message@ == message@,
    {
        TokenizerLoadError { path, message }
    }
}

/// The source of a tokenizer.
#[derive(Clone, Debug, PartialEq)]
pub enum TokenizerSource {
    /// Read the vocabulary from the model if available, and use the
    /// built-in tokenizer.
    Embedded,
    /// Read the tokenizer from a local external-format tokenizer file, and
    /// use the external tokenizer.
    HuggingFaceTokenizerFile(std::path::PathBuf),
    /// Fetch the tokenizer from a remote repository, and use the external
    /// tokenizer.  Retrieval is outside this core: it blocks on the network.
    HuggingFaceRemote(String),
}

/// Relies on tokenizers::Tokenizer::token_to_id: look a token string up in
/// the backend's vocabulary.
#[verifier::external_body]
fn hf_token_to_id(t: &tokenizers::Tokenizer, token: &str) -> (r: Option<TokenId>) {
    t.token_to_id(token)
}

/// Relies on tokenizers::Tokenizer::decode: turn ids back into text by the
/// backend's own rules, or report the backend's error as text.
#[verifier::external_body]
fn hf_decode(t: &tokenizers::Tokenizer, ids: Vec<TokenId>, skip_special_tokens: bool) -> (r: Result<
    String,
    String,
>) {
    t.decode(&ids, skip_special_tokens).map_err(|e| e.to_string())
}

/// Relies on tokenizers::Tokenizer::get_vocab_size: the backend's vocabulary
/// size.
#[verifier::external_body]
fn hf_vocab_size(t: &tokenizers::Tokenizer, with_added_tokens: bool) -> (r: usize) {
    t.get_vocab_size(with_added_tokens)
}

/// Relies on tokenizers::Tokenizer::encode: encode text by the backend's own
/// rules, without special tokens, or report the backend's error as text.
#[verifier::external_body]
fn hf_encode(t: &tokenizers::Tokenizer, text: &str) -> (r: Result<tokenizers::Encoding, String>) {
    t.encode(text, false).map_err(|e| e.to_string())
}

/// Relies on tokenizers::Tokenizer::post_process: apply the backend's
/// post-processing, optionally adding special tokens.
#[verifier::external_body]
fn hf_post_process(t: &tokenizers::Tokenizer, encoding: tokenizers::Encoding, add_special_tokens: bool) -> (r:
    Result<tokenizers::Encoding, String>) {
    t.post_process(encoding, None, add_special_tokens).map_err(|e| e.to_string())
}

/// Relies on tokenizers::Encoding::get_tokens: the encoded tokens, each
/// converted to its bytes.
#[verifier::external_body]
fn hf_encoding_tokens(encoding: &tokenizers::Encoding) -> (r: Vec<Vec<u8>>) {
    encoding.get_tokens().iter().map(|s| s.as_bytes().to_vec()).collect()
}

/// Relies on tokenizers::Encoding::get_ids: the encoded token ids.
#[verifier::external_body]
fn hf_encoding_ids(encoding: &tokenizers::Encoding) -> (r: Vec<TokenId>) {
    encoding.get_ids().to_vec()
}

/// Relies on str::from_utf8: succeeds exactly on valid UTF-8.
#[verifier::external_body]
fn bytes_as_str(token: &[u8]) -> (r: Option<&str>)
    ensures
        r is Some <==> valid_utf8(token@),
        r is Some ==> r->0.spec_bytes() == token@,
{
    std::str::from_utf8(token).ok()
}

/// An adapter over the external tokenizer backend.  The backend is an opaque
/// collaborator with its own encoding and post-processing rules, honored
/// through its interface and never reimplemented here.
pub struct HuggingFaceTokenizer {
    tokenizer: tokenizers::Tokenizer,
}

impl HuggingFaceTokenizer {
    /// Wrap a backend tokenizer.
    pub fn new(tokenizer: tokenizers::Tokenizer) -> Self {
        HuggingFaceTokenizer { tokenizer }
    }
}

/// Encapsulates the tokenizer for a model, and provides methods to tokenize
/// text.  Callers are never aware of which variant backs an instance; the
/// contracts of the built-in variant are exact, those of the external
/// adapter only what its interface promises.
pub enum ModelTokenizer<S> {
    /// The vocabulary built in to the model.
    Embedded(EmbeddedTokenizer<S>),
    /// The external tokenizer backend.
    HuggingFace(HuggingFaceTokenizer),
}

impl<S> ModelTokenizer<S> {
    /// Well-formedness of the active variant.
    pub open spec fn wf(&self) -> bool {
        match self {
            ModelTokenizer::Embedded(v) => v.wf(),
            ModelTokenizer::HuggingFace(_) => true,
        }
    }

    /// Converts a token to the token id it represents in this tokenizer.
    pub fn id(&self, token: &[u8]) -> (r: Option<TokenId>)
        requires
            self.wf(),
            self matches ModelTokenizer::HuggingFace(_) ==> valid_utf8(token@),
        ensures
            (self matches ModelTokenizer::Embedded(v) ==> ((r is Some <==> last_id_of(
                v.spec_tokens(),
                token@,
            ) is Some) && (r is Some ==> Some(r->0 as int) == last_id_of(
                v.spec_tokens(),
                token@,
            )))),
    {
        match self {
            ModelTokenizer::Embedded(v) => v.id(token),
            ModelTokenizer::HuggingFace(h) => match bytes_as_str(token) {
                Some(s) => hf_token_to_id(&h.tokenizer, s),
                None => None,
            },
        }
    }

    /// Converts a token index to the token it represents in this tokenizer.
    pub fn token(&self, idx: usize) -> (r: Vec<u8>)
        requires
            (self matches ModelTokenizer::Embedded(v) ==> idx < v.id_to_token@.len()),
            (self matches ModelTokenizer::HuggingFace(_) ==> idx <= u32::MAX),
        ensures
            (self matches ModelTokenizer::Embedded(v) ==> r@ == v.spec_tokens()[idx as int]),
    {
        match self {
            ModelTokenizer::Embedded(v) => v.token(idx),
            ModelTokenizer::HuggingFace(h) => {
                let mut ids: Vec<TokenId> = Vec::new();
                ids.push(idx as u32);
                match hf_decode(&h.tokenizer, ids, true) {
                    Ok(s) => s.as_str().as_bytes_vec(),
                    Err(_) => Vec::new(),
                }
            },
        }
    }

    /// Returns the number of tokens in the tokenizer.
    pub fn len(&self) -> (r: usize)
        ensures
            (self matches ModelTokenizer::Embedded(v) ==> r == v.id_to_token@.len()),
    {
        match self {
            ModelTokenizer::Embedded(v) => v.len(),
            ModelTokenizer::HuggingFace(h) => hf_vocab_size(&h.tokenizer, false),
        }
    }

    /// Returns whether the tokenizer is empty.
    pub fn is_empty(&self) -> (r: bool)
        ensures
            (self matches ModelTokenizer::Embedded(v) ==> r == (v.id_to_token@.len() == 0)),
    {
        match self {
            ModelTokenizer::Embedded(v) => v.is_empty(),
            ModelTokenizer::HuggingFace(h) => hf_vocab_size(&h.tokenizer, false) == 0,
        }
    }

    /// Tokenize `text` with this tokenizer; `bos` asks for a
    /// beginning-of-sequence marker ahead of the result.  With the built-in
    /// variant the returned pairs concatenate to exactly the bytes of
    /// `text`, and every pair past the optional marker carries a real
    /// vocabulary id with that id's bytes.
    pub fn tokenize(&self, text: &str, bos: bool) -> (r: Result<
        Vec<(Vec<u8>, TokenId)>,
        TokenizationError,
    >)
        requires
            self.wf(),
            self matches ModelTokenizer::Embedded(_) ==> text.spec_bytes().len()
                * text.spec_bytes().len() <= usize::MAX,
        ensures
            (self matches ModelTokenizer::Embedded(v) ==> ((r is Ok <==> sp_tokenize(
                v.spec_tokens(),
                v.max_token_length as int,
                text.spec_bytes(),
                bos,
            ) is Some) && (r matches Ok(ps) ==> Some(pairs_view(ps@)) == sp_tokenize(
                v.spec_tokens(),
                v.max_token_length as int,
                text.spec_bytes(),
                bos,
            )))),
            (self matches ModelTokenizer::Embedded(v) ==> match r {
                Ok(ps) => {
                    &&& concat_bytes(ps@) == text.spec_bytes()
                    &&& (bos ==> ps@.len() >= 1 && ps@[0].0@ == Seq::<u8>::empty() && ps@[0].1
                        == BOS_TOKEN_ID)
                    &&& (forall|i: int|
                        (if bos {
                            1int
                        } else {
                            0int
                        }) <= i < ps@.len() ==> pair_ok(v.spec_tokens(), ps@[i]))
                },
                Err(e) => e matches TokenizationError::TokenizationFailed { .. }
                    && text.spec_bytes().len() > 0,
            }),
            (r matches Err(e) ==> e matches TokenizationError::TokenizationFailed { .. }),
    {
        match self {
            ModelTokenizer::Embedded(v) => v.tokenize(text, bos),
            ModelTokenizer::HuggingFace(h) => {
                let encoding = match hf_encode(&h.tokenizer, text) {
                    Ok(e) => e,
                    Err(m) => {
                        return Err(TokenizationError::TokenizationFailed {
                            error: ModelTokenizerError::Arbitrary(m),
                        });
                    },
                };
                let encoding = match hf_post_process(&h.tokenizer, encoding, bos) {
                    Ok(e) => e,
                    Err(m) => {
                        return Err(TokenizationError::TokenizationFailed {
                            error: ModelTokenizerError::Arbitrary(m),
                        });
                    },
                };
                let tokens = hf_encoding_tokens(&encoding);
                let ids = hf_encoding_ids(&encoding);
                Ok(zip_pairs(tokens, ids))
            },
        }
    }

    /// Decode a list of ids with this tokenizer.  With the built-in variant
    /// the result is the ids' byte-strings concatenated in order, the
    /// beginning-of-sequence id omitted when `skip_special_tokens` is set;
    /// ids must then be valid for the vocabulary.
    pub fn decode(&self, tokens: Vec<TokenId>, skip_special_tokens: bool) -> (r: Vec<u8>)
        requires
            self.wf(),
            self matches ModelTokenizer::Embedded(v) ==> forall|i: int|
                0 <= i < tokens@.len() ==> (tokens@[i] as int) < v.id_to_token@.len(),
        ensures
            (self matches ModelTokenizer::Embedded(v) ==> r@ == decoded_bytes(
                v.spec_tokens(),
                tokens@,
                skip_special_tokens,
            )),
    {
        match self {
            ModelTokenizer::Embedded(v) => v.decode(tokens, skip_special_tokens),
            ModelTokenizer::HuggingFace(h) => match hf_decode(&h.tokenizer, tokens, skip_special_tokens) {
                Ok(s) => s.as_str().as_bytes_vec(),
                Err(_) => Vec::new(),
            },
        }
    }
}

/// Pair token byte-strings with token ids, index by index, as far as both
/// lists run: the shape a backend's parallel token and id arrays come back
/// in.
pub fn zip_pairs(tokens: Vec<Vec<u8>>, ids: Vec<TokenId>) -> (r: Vec<(Vec<u8>, TokenId)>)
    ensures
        r@.len() == if tokens@.len() < ids@.len() {
            tokens@.len() as int
        } else {
            ids@.len() as int
        },
        forall|i: int|
            0 <= i < r@.len() ==> (#[trigger] r@[i]).0@ == tokens@[i]@ && r@[i].1 == ids@[i],
{
    let n = if tokens.len() < ids.len() {
        tokens.len()
    } else {
        ids.len()
    };
    let mut pairs: Vec<(Vec<u8>, TokenId)> = Vec::new();
    let mut i: usize = 0;
    while i < n
        invariant
            n <= tokens@.len(),
            n <= ids@.len(),
            i <= n,
            pairs@.len() == i,
            forall|k: int|
                0 <= k < i ==> (#[trigger] pairs@[k]).0@ == tokens@[k]@ && pairs@[k].1 == ids@[k],
        decreases n - i,
    {
        pairs.push((slice_to_vec(tokens[i].as_slice()), ids[i]));
        i = i + 1;
    }
    pairs
}

/// Represents the prompt, which can be specified as either text or tokens
/// for a model's tokenizer.  It carries no vocabulary-bound state itself:
/// it is resolved against a tokenizer at use time.
#[derive(Debug, PartialEq, Clone, Copy)]
pub enum Prompt<'a> {
    /// A prompt specified as text.
    Text(&'a str),
    /// A prompt specified as tokens for a model's tokenizer.
    Tokens(&'a [TokenId]),
}

impl<'a> Prompt<'a> {
    /// Converts this prompt to a list of tokens for a model's tokenizer.
    ///
    /// Text is tokenized and the ids are extracted in order, so that with
    /// the built-in variant decoding them gives back exactly the text's
    /// bytes.  An explicit id list is scanned left to right and the first id
    /// whose token bytes are empty is reported as invalid; the list comes
    /// back unchanged exactly when every id decodes to non-empty bytes.
    pub fn to_tokens<S>(&self, vocab: &ModelTokenizer<S>, beginning_of_sentence: bool) -> (r: Result<
        Vec<TokenId>,
        TokenizationError,
    >)
        requires
            vocab.wf(),
            (self matches Prompt::Text(t) ==> (vocab matches ModelTokenizer::Embedded(_)
                ==> t.spec_bytes().len() * t.spec_bytes().len() <= usize::MAX)),
            (self matches Prompt::Tokens(ts) ==> (vocab matches ModelTokenizer::Embedded(v)
                ==> forall|i: int| 0 <= i < ts@.len() ==> (ts@[i] as int) < v.id_to_token@.len())),
        ensures
            (match self {
                Prompt::Tokens(ts) => {
                    &&& (r matches Ok(ids) ==> ids@ == ts@)
                    &&& (match vocab {
                        ModelTokenizer::Embedded(v) => {
                            &&& (r is Ok ==> (forall|i: int|
                                0 <= i < ts@.len()
                                    ==> #[trigger] v.spec_tokens()[ts@[i] as int].len() > 0))
                            &&& (r is Err ==> (r matches Err(
                                TokenizationError::InvalidTokenId(t),
                            ) && exists|i: int|
                                0 <= i < ts@.len() && ts@[i] == t && v.spec_tokens()[t as int].len()
                                    == 0 && (forall|j: int|
                                    0 <= j < i ==> v.spec_tokens()[#[trigger] ts@[j] as int].len()
                                        > 0)))
                        },
                        ModelTokenizer::HuggingFace(_) => true,
                    })
                },
                Prompt::Text(tx) => (match vocab {
                    ModelTokenizer::Embedded(v) => {
                        &&& (r is Ok <==> sp_tokenize(
                            v.spec_tokens(),
                            v.max_token_length as int,
                            tx.spec_bytes(),
                            beginning_of_sentence,
                        ) is Some)
                        &&& (r matches Ok(ids) ==> Some(ids@) == (match sp_tokenize(
                            v.spec_tokens(),
                            v.max_token_length as int,
                            tx.spec_bytes(),
                            beginning_of_sentence,
                        ) {
                            Some(ps) => Some(sp_ids(ps)),
                            None => None::<Seq<TokenId>>,
                        }))
                        &&& (r matches Err(e) ==> e matches TokenizationError::TokenizationFailed {
                            ..
                        })
                        &&& (r matches Ok(ids) ==> ((!beginning_of_sentence ==> decoded_bytes(
                            v.spec_tokens(),
                            ids@,
                            false,
                        ) == tx.spec_bytes()) && (beginning_of_sentence ==> ids@.len() >= 1
                            && ids@[0] == BOS_TOKEN_ID && decoded_bytes(
                            v.spec_tokens(),
                            ids@.skip(1),
                            false,
                        ) == tx.spec_bytes())))
                    },
                    ModelTokenizer::HuggingFace(_) => (r matches Err(e) ==> e
                        matches TokenizationError::TokenizationFailed { .. }),
                }),
            }),
    {
        match self {
            Prompt::Text(text) => {
                let pairs = match vocab.tokenize(text, beginning_of_sentence) {
                    Ok(ps) => ps,
                    Err(e) => {
                        return Err(e);
                    },
                };
                let mut ids: Vec<TokenId> = Vec::new();
                let mut i: usize = 0;
                while i < pairs.len()
                    invariant
                        i <= pairs@.len(),
                        ids@ =~= ids_of(pairs@.take(i as int)),
                    decreases pairs@.len() - i,
                {
                    ids.push(pairs[i].1);
                    proof {
                        assert(pairs@.take(i + 1).drop_last() =~= pairs@.take(i as int));
                        assert(ids@ =~= ids_of(pairs@.take(i + 1)));
                    }
                    i = i + 1;
                }
                proof {
                    assert(pairs@.take(pairs@.len() as int) =~= pairs@);
                    assert(sp_ids(pairs_view(pairs@)) =~= ids_of(pairs@));
                    match vocab {
                        ModelTokenizer::Embedded(v) => {
                            if !beginning_of_sentence {
                                lemma_tokenize_decode_round_trip(v.spec_tokens(), pairs@);
                            } else {
                                lemma_concat_first(pairs@);
                                assert(Seq::<u8>::empty() + concat_bytes(pairs@.drop_first())
                                    =~= concat_bytes(pairs@.drop_first()));
                                assert forall|k: int|
                                    0 <= k < pairs@.drop_first().len() implies ((
                                #[trigger] pairs@.drop_first()[k]).1 as int)
                                    < v.spec_tokens().len() && pairs@.drop_first()[k].0@
                                    == v.spec_tokens()[pairs@.drop_first()[k].1 as int] by {
                                    assert(pairs@.drop_first()[k] == pairs@[k + 1]);
                                    assert(pair_ok(v.spec_tokens(), pairs@[k + 1]));
                                }
                                lemma_tokenize_decode_round_trip(
                                    v.spec_tokens(),
                                    pairs@.drop_first(),
                                );
                                assert(ids_of(pairs@.drop_first()) =~= ids_of(pairs@).skip(1));
                                assert(ids@.skip(1) =~= ids_of(pairs@.drop_first()));
                            }
                        },
                        ModelTokenizer::HuggingFace(_) => {},
                    }
                }
                Ok(ids)
            },
            Prompt::Tokens(tokens) => {
                let mut i: usize = 0;
                while i < tokens.len()
                    invariant
                        i <= tokens@.len(),
                        vocab.wf(),
                        (*self) matches Prompt::Tokens(pts) && pts@ == tokens@,
                        (vocab matches ModelTokenizer::Embedded(v) ==> (forall|j: int|
                            0 <= j < tokens@.len() ==> (tokens@[j] as int)
                                < v.id_to_token@.len())),
                        (vocab matches ModelTokenizer::Embedded(v) ==> (forall|j: int|
                            0 <= j < i ==> #[trigger] v.spec_tokens()[tokens@[j] as int].len()
                                > 0)),
                    decreases tokens@.len() - i,
                {
                    let t = *vstd::slice::slice_index_get(tokens, i);
                    let bytes = vocab.token(t as usize);
                    if bytes.is_empty() {
                        proof {
                            match vocab {
                                ModelTokenizer::Embedded(v) => {
                                    assert(tokens@[i as int] == t);
                                    assert(v.spec_tokens()[t as int].len() == 0);
                                    assert(v.spec_tokens()[tokens@[i as int] as int].len() == 0);
                                    assert(exists|w: int|
                                        0 <= w < tokens@.len() && tokens@[w] == t
                                            && v.spec_tokens()[t as int].len() == 0 && (forall|
                                            j: int,
                                        |
                                            0 <= j < w ==> (#[trigger] v.spec_tokens()[tokens@[j] as int]).len() > 0)) by {
                                        assert(0 <= i < tokens@.len() && tokens@[i as int] == t
                                            && (forall|j: int|
                                            0 <= j < i ==> (#[trigger] v.spec_tokens()[tokens@[j] as int]).len() > 0));
                                    }
                                },
                                ModelTokenizer::HuggingFace(_) => {},
                            }
                        }
                        return Err(TokenizationError::InvalidTokenId(t));
                    }
                    i = i + 1;
                }
                Ok(slice_to_vec(tokens))
            },
        }
    }
}

impl<'a> Default for Prompt<'a> {
    /// The empty text prompt.
    fn default() -> (r: Self)
        ensures
            r matches Prompt::Text(t) && t@.len() == 0,
    {
        proof {
            reveal_strlit("");
        }
        Prompt::Text("")
    }
}

} // verus!
