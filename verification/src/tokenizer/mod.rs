//! The engine's tokenizer: a SentencePiece-style BPE tokenizer rebuilt from
//! the vocabulary a GGUF model carries, run by the `tokenizers` crate.
//!
//! The vocabulary, the token-to-id map and the merge list are computed and
//! verified here; the `tokenizers` crate tokenizes with them.
pub mod bpe;
pub mod merges;
pub mod vocab;

use vstd::prelude::*;
use crate::gguf::parser::{meta_view, GgufParser};
use crate::tokenizer::merges::{
    is_merge_list, pair_texts, reconstruct_merges_from_scores, texts, token_set,
};
use crate::tokenizer::vocab::{
    entry_keys, last_ids, read_vocab, spec_vocab, vocab_entries, vocab_ids, vocab_ready, GgufVocab,
    TokenizerError,
};
use tokenizers::models::bpe::{BpeBuilder, Vocab};
use tokenizers::pre_tokenizers::metaspace::Metaspace;
use tokenizers::pre_tokenizers::metaspace::PrependScheme::{Always, First, Never};
use tokenizers::{AddedToken, Tokenizer};
use vstd::string::StrSliceExecFns;

verus! {

/// The end-of-sequence token of the LLaMA family.
pub const EOS_TOKEN_ID: u32 = 2;

/// The beginning-of-sequence token.
pub const BOS_TOKEN_ID: u32 = 1;

/// The unknown token.
pub const UNK_TOKEN_ID: u32 = 0;

/// SentencePiece's word-boundary mark, which stands for a space.
pub const METASPACE: char = '\u{2581}';

/// When the Metaspace pre-tokenizer puts a mark in front of a word that
/// has none: on the first word only, never, or on every word.
#[derive(Debug, Clone, Copy, PartialEq, Eq, Structural)]
pub enum Prepend {
    First,
    Never,
    Always,
}

/// What a `tokenizers` tokenizer is assembled from: the BPE vocabulary as
/// (text, id) entries, the merges, the unknown token and byte fallback;
/// the Metaspace mark, prepend scheme and split flag (pre-tokenizer and
/// decoder alike); and the begin and end tokens with their special flag.
pub struct TokenizerParts {
    entries: Vec<(String, u32)>,
    merges: Vec<(String, String)>,
    unk: String,
    bos: String,
    eos: String,
    byte_fallback: bool,
    replacement: char,
    prepend: Prepend,
    split: bool,
    special: bool,
}

/// [`TokenizerParts`] as plain values.
pub struct TokenizerModel {
    pub entries: Seq<(Seq<char>, u32)>,
    pub merges: Seq<(Seq<char>, Seq<char>)>,
    pub unk: Seq<char>,
    pub bos: Seq<char>,
    pub eos: Seq<char>,
    pub byte_fallback: bool,
    pub replacement: char,
    pub prepend: Prepend,
    pub split: bool,
    pub special: bool,
}

/// The texts and ids of a list of entries, as plain values.
pub open spec fn entry_views(v: Seq<(String, u32)>) -> Seq<(Seq<char>, u32)> {
    v.map_values(|e: (String, u32)| (e.0@, e.1))
}

impl View for TokenizerParts {
    type V = TokenizerModel;

    closed spec fn view(&self) -> TokenizerModel {
        TokenizerModel {
            entries: entry_views(self.entries@),
            merges: pair_texts(self.merges@),
            unk: self.unk@,
            bos: self.bos@,
            eos: self.eos@,
            byte_fallback: self.byte_fallback,
            replacement: self.replacement,
            prepend: self.prepend,
            split: self.split,
            special: self.special,
        }
    }
}

/// Entries with distinct texts and distinct ids.
pub open spec fn entries_distinct(e: Seq<(Seq<char>, u32)>) -> bool {
    forall|a: int, b: int|
        0 <= a < b < e.len() ==> (#[trigger] e[a]).0 != (#[trigger] e[b]).0 && e[a].1 != e[b].1
}

impl TokenizerParts {
    /// The entries name each text once and each id once.
    #[verifier::type_invariant]
    spec fn entries_inv(&self) -> bool {
        entries_distinct(entry_views(self.entries@))
    }
}

/// The ids `Tokenizer::encode(text, add_special)` gives with the tokenizer
/// assembled from `model`, or `None` when assembling or encoding fails.
pub uninterp spec fn tokenizer_encode(model: TokenizerModel, text: Seq<char>, add_special: bool) -> Option<Seq<u32>>;

/// The text `Tokenizer::decode(ids, skip_special)` gives with the tokenizer
/// assembled from `model`, or `None` when assembling or decoding fails.
pub uninterp spec fn tokenizer_decode(model: TokenizerModel, ids: Seq<u32>, skip_special: bool) -> Option<Seq<char>>;

/// Assembles the tokenizer of `p` (`BpeBuilder::vocab_and_merges`,
/// `unk_token`, `byte_fallback`, `build`; `Tokenizer::new`; a `Metaspace`
/// as pre-tokenizer and decoder; `add_special_tokens` with the begin and
/// end tokens) and runs `Tokenizer::encode(text, add_special)`, reading the
/// ids back with `Encoding::get_ids`.  With distinct entry texts and ids
/// the vocabulary map and its reverse hold every entry, so the result
/// depends on the parts, the text and the flag alone; it is named
/// [`tokenizer_encode`].
#[verifier::external_body]
fn encode_ids(p: &TokenizerParts, text: &str, add_special: bool) -> (r: Option<Vec<u32>>)
    requires
        entries_distinct(p@.entries),
    ensures
        match tokenizer_encode(p@, text@, add_special) {
            Some(ids) => r matches Some(v) && v@ == ids,
            None => r is None,
        },
{
    let ms = Metaspace::new(p.replacement, match p.prepend {
        Prepend::First => First,
        Prepend::Never => Never,
        Prepend::Always => Always,
    }, p.split);
    let mut t = Tokenizer::new(BpeBuilder::new().vocab_and_merges(p.entries.iter().cloned().collect::<Vocab>(),
        p.merges.clone()).unk_token(p.unk.clone()).byte_fallback(p.byte_fallback).build().ok()?);
    t.with_pre_tokenizer(Some(ms.clone())).with_decoder(Some(ms));
    t.add_special_tokens(&[AddedToken::from(&p.bos, p.special), AddedToken::from(&p.eos, p.special)]);
    Some(t.encode(text, add_special).ok()?.get_ids().to_vec())
}

/// Assembles the tokenizer of `p` as [`encode_ids`] does and runs
/// `Tokenizer::decode(ids, skip_special)`.  The result depends on the
/// parts (with distinct entry texts and ids), the ids and the flag alone,
/// and is named [`tokenizer_decode`].
#[verifier::external_body]
fn decode_text(p: &TokenizerParts, ids: &[u32], skip_special: bool) -> (r: Option<String>)
    requires
        entries_distinct(p@.entries),
    ensures
        match tokenizer_decode(p@, ids@, skip_special) {
            Some(s) => r matches Some(x) && x@ == s,
            None => r is None,
        },
{
    let ms = Metaspace::new(p.replacement, match p.prepend {
        Prepend::First => First,
        Prepend::Never => Never,
        Prepend::Always => Always,
    }, p.split);
    let mut t = Tokenizer::new(BpeBuilder::new().vocab_and_merges(p.entries.iter().cloned().collect::<Vocab>(),
        p.merges.clone()).unk_token(p.unk.clone()).byte_fallback(p.byte_fallback).build().ok()?);
    t.with_pre_tokenizer(Some(ms.clone())).with_decoder(Some(ms));
    t.add_special_tokens(&[AddedToken::from(&p.bos, p.special), AddedToken::from(&p.eos, p.special)]);
    t.decode(ids, skip_special).ok()
}

/// A tokenizer over a GGUF vocabulary.
pub struct AegisTokenizer {
    parts: TokenizerParts,
    /// Token id to token text, for decoding one token at a time.
    id_to_token: Vec<String>,
    pub vocab_size: u32,
}

impl View for AegisTokenizer {
    type V = TokenizerModel;

    closed spec fn view(&self) -> TokenizerModel {
        self.parts@
    }
}

/// The texts of a list of entries.
pub open spec fn entry_texts(e: Seq<(Seq<char>, u32)>) -> Set<Seq<char>> {
    Set::new(|s: Seq<char>| exists|a: int| 0 <= a < e.len() && (#[trigger] e[a]).0 == s)
}

/// The entries list the token-to-id map of `tokens`: each text once, with
/// the id the map gives it, and every token of the vocabulary.
pub open spec fn lists_vocab(e: Seq<(Seq<char>, u32)>, tokens: Seq<Seq<char>>) -> bool {
    &&& entry_texts(e) == token_set(tokens)
    &&& forall|a: int, b: int| 0 <= a < b < e.len() ==> (#[trigger] e[a]).0 != (#[trigger] e[b]).0
    &&& forall|a: int|
        0 <= a < e.len() ==> vocab_ids(tokens).contains_key((#[trigger] e[a]).0) && vocab_ids(
            tokens,
        )[e[a].0] == e[a].1
}

/// What a tokenizer built from `v` is assembled from: every token with its
/// last position, the merges recovered from the scores, tokens 0, 1 and 2
/// as the unknown, begin and end tokens, byte fallback on, the Metaspace
/// mark prepended to the first word and split on, and the begin and end
/// tokens special.
pub open spec fn assembled_from(v: crate::tokenizer::vocab::VocabModel, m: TokenizerModel) -> bool {
    &&& lists_vocab(m.entries, v.tokens)
    &&& is_merge_list(v.tokens, v.scores, m.merges)
    &&& m.unk == v.tokens[UNK_TOKEN_ID as int]
    &&& m.bos == v.tokens[BOS_TOKEN_ID as int]
    &&& m.eos == v.tokens[EOS_TOKEN_ID as int]
    &&& m.byte_fallback
    &&& m.replacement == METASPACE
    &&& m.prepend == Prepend::First
    &&& m.split
    &&& m.special
}

/// Each text of the token-to-id map sits at the position it maps to.
proof fn lemma_last_ids_name(tokens: Seq<Seq<char>>, n: int)
    requires
        0 <= n <= tokens.len(),
        tokens.len() < 0x1_0000_0000,
    ensures
        forall|s: Seq<char>|
            #[trigger] last_ids(tokens, n).contains_key(s) ==> (last_ids(tokens, n)[s] as int) < n
                && tokens[last_ids(tokens, n)[s] as int] == s,
    decreases n,
{
    if n > 0 {
        lemma_last_ids_name(tokens, n - 1);
        let m = last_ids(tokens, n);
        let pm = last_ids(tokens, n - 1);
        assert(m == pm.insert(tokens[n - 1], (n - 1) as u32));
        assert(((n - 1) as u32) as int == n - 1);
        assert forall|s: Seq<char>| #[trigger] m.contains_key(s) implies (m[s] as int) < n && tokens[m[s] as int]
            == s by {
            if s != tokens[n - 1] {
                assert(pm.contains_key(s));
                assert(m[s] == pm[s]);
            }
        }
    }
}

/// The text `decode_token` gives for `id`.
pub open spec fn token_text(tokens: Seq<Seq<char>>, id: u32) -> Seq<char> {
    if (id as int) < tokens.len() {
        tokens[id as int]
    } else {
        "<unk>"@
    }
}

/// `s` without its leading word-boundary marks (U+2581).
pub open spec fn strip_metaspace(s: Seq<char>) -> Seq<char>
    decreases s.len(),
{
    if s.len() > 0 && s[0] == '\u{2581}' {
        strip_metaspace(s.drop_first())
    } else {
        s
    }
}

/// `strip_metaspace(s)` is `s` from its first character that is not a mark.
proof fn lemma_strip_metaspace(s: Seq<char>, k: int)
    requires
        0 <= k <= s.len(),
        forall|j: int| 0 <= j < k ==> s[j] == '\u{2581}',
        k == s.len() || s[k] != '\u{2581}',
    ensures
        strip_metaspace(s) == s.subrange(k, s.len() as int),
    decreases k,
{
    if k > 0 {
        let t = s.drop_first();
        assert forall|j: int| 0 <= j < k - 1 implies t[j] == '\u{2581}' by {
            assert(t[j] == s[j + 1]);
        }
        if k - 1 < t.len() {
            assert(t[k - 1] == s[k]);
        }
        lemma_strip_metaspace(t, k - 1);
        assert(t.subrange(k - 1, t.len() as int) =~= s.subrange(k, s.len() as int));
    } else {
        assert(s.subrange(0, s.len() as int) =~= s);
    }
}

/// `ids` with the begin token in front; `None` when encoding failed.
pub fn with_bos(ids: Option<Vec<u32>>) -> (r: Result<Vec<u32>, TokenizerError>)
    ensures
        match ids {
            Some(v) => r matches Ok(w) && w@ == seq![BOS_TOKEN_ID] + v@,
            None => r == Err::<Vec<u32>, TokenizerError>(TokenizerError::Encode),
        },
{
    match ids {
        Some(v) => {
            let mut w: Vec<u32> = Vec::new();
            w.push(BOS_TOKEN_ID);
            let mut i: usize = 0;
            while i < v.len()
                invariant
                    i <= v@.len(),
                    w@ == seq![BOS_TOKEN_ID] + v@.take(i as int),
                decreases v@.len() - i,
            {
                w.push(v[i]);
                i += 1;
                assert(w@ =~= seq![BOS_TOKEN_ID] + v@.take(i as int));
            }
            assert(v@.take(v@.len() as int) =~= v@);
            Ok(w)
        },
        None => Err(TokenizerError::Encode),
    }
}

impl AegisTokenizer {
    /// The token texts, by id.
    pub closed spec fn tokens(&self) -> Seq<Seq<char>> {
        texts(self.id_to_token@)
    }

    /// The number of tokens, as `vocab_size` holds it.
    pub closed spec fn size(&self) -> u32 {
        self.vocab_size
    }

    /// Build the tokenizer of a vocabulary: token-to-id map, merges from
    /// the scores, byte fallback, the Metaspace (`\u{2581}`) pre-tokenizer and
    /// decoder, and the begin and end tokens as special tokens.
    pub fn from_vocab(vocab: GgufVocab) -> (t: AegisTokenizer)
        requires
            vocab_ready(vocab@),
        ensures
            t.tokens() == vocab@.tokens,
            t.size() as int == vocab@.tokens.len(),
            assembled_from(vocab@, t@),
    {
        let ghost v = vocab@;
        let entries = vocab_entries(&vocab.tokens);
        let merges = reconstruct_merges_from_scores(&vocab.tokens, &vocab.scores);
        let unk = vocab.tokens[0].clone();
        let bos = vocab.tokens[1].clone();
        let eos = vocab.tokens[2].clone();
        proof {
            let e = entry_views(entries@);
            assert forall|s: Seq<char>| entry_texts(e).contains(s) == entry_keys(entries@).contains(s) by {
                if entry_texts(e).contains(s) {
                    let a = choose|a: int| 0 <= a < e.len() && (#[trigger] e[a]).0 == s;
                    assert(entries@[a].0@ == s);
                }
                if entry_keys(entries@).contains(s) {
                    let a = choose|a: int| 0 <= a < entries@.len() && (#[trigger] entries@[a]).0@ == s;
                    assert(e[a].0 == s);
                }
            }
            assert(entry_texts(e) =~= entry_keys(entries@));
            assert forall|a: int, b: int| 0 <= a < b < e.len() implies (#[trigger] e[a]).0 != (#[trigger] e[b]).0 by {
                assert(entries@[a].0@ != entries@[b].0@);
            }
            assert forall|a: int| 0 <= a < e.len() implies vocab_ids(v.tokens).contains_key((#[trigger] e[a]).0)
                && vocab_ids(v.tokens)[e[a].0] == e[a].1 by {
                assert(e[a] == (entries@[a].0@, entries@[a].1));
            }
            lemma_last_ids_name(v.tokens, v.tokens.len() as int);
            assert forall|a: int, b: int| 0 <= a < b < e.len() implies (#[trigger] e[a]).0 != (#[trigger] e[b]).0
                && e[a].1 != e[b].1 by {
                assert(vocab_ids(v.tokens).contains_key(e[a].0));
                assert(vocab_ids(v.tokens).contains_key(e[b].0));
            }
        }
        let parts = TokenizerParts {
            entries,
            merges,
            unk,
            bos,
            eos,
            byte_fallback: true,
            replacement: METASPACE,
            prepend: Prepend::First,
            split: true,
            special: true,
        };
        let vocab_size = vocab.tokens.len() as u32;
        AegisTokenizer { parts, id_to_token: vocab.tokens, vocab_size }
    }

    /// Build the tokenizer of the vocabulary in a parsed GGUF file; fails
    /// when the metadata has no token array.
    pub fn from_gguf(parser: &GgufParser) -> (r: Result<AegisTokenizer, TokenizerError>)
        requires
            spec_vocab(meta_view(parser.header.metadata@)) matches Some(v) ==> vocab_ready(v),
        ensures
            match spec_vocab(meta_view(parser.header.metadata@)) {
                None => r == Err::<AegisTokenizer, TokenizerError>(TokenizerError::MissingTokens),
                Some(v) => r matches Ok(t) && t.tokens() == v.tokens && t.size() as int
                    == v.tokens.len() && assembled_from(v, t@),
            },
    {
        let vocab = read_vocab(&parser.header)?;
        Ok(Self::from_vocab(vocab))
    }

    /// The ids of `text`: the begin token, then the tokenizer's encoding
    /// without added special tokens.
    pub fn encode(&self, text: &str) -> (r: Result<Vec<u32>, TokenizerError>)
        ensures
            match tokenizer_encode(self@, text@, false) {
                Some(ids) => r matches Ok(w) && w@ == seq![BOS_TOKEN_ID] + ids,
                None => r == Err::<Vec<u32>, TokenizerError>(TokenizerError::Encode),
            },
    {
        proof {
            use_type_invariant(&self.parts);
        }
        with_bos(encode_ids(&self.parts, text, false))
    }

    /// The text of one token, or `<unk>` for an id past the vocabulary.
    pub fn decode_token(&self, token_id: u32) -> (s: &str)
        ensures
            s@ == if (token_id as int) < self.tokens().len() {
                self.tokens()[token_id as int]
            } else {
                "<unk>"@
            },
    {
        if (token_id as usize) < self.id_to_token.len() {
            self.id_to_token[token_id as usize].as_str()
        } else {
            "<unk>"
        }
    }

    /// The text of a sequence of ids, special tokens skipped.
    pub fn decode_sequence(&self, ids: &[u32]) -> (r: Result<String, TokenizerError>)
        ensures
            match tokenizer_decode(self@, ids@, true) {
                Some(s) => r matches Ok(x) && x@ == s,
                None => r == Err::<String, TokenizerError>(TokenizerError::Decode),
            },
    {
        proof {
            use_type_invariant(&self.parts);
        }
        match decode_text(&self.parts, ids, true) {
            Some(s) => Ok(s),
            None => Err(TokenizerError::Decode),
        }
    }

    /// The text to show for each `(seq_id, token)` a step produced: the
    /// token's text without its leading word-boundary marks.
    pub fn step_texts(&self, outputs: &Vec<(u32, u32)>) -> (r: Vec<(u32, String)>)
        ensures
            r@.len() == outputs@.len(),
            forall|i: int|
                0 <= i < outputs@.len() ==> (#[trigger] r@[i]).0 == outputs@[i].0 && r@[i].1@
                    == strip_metaspace(token_text(self.tokens(), outputs@[i].1)),
    {
        let mut r: Vec<(u32, String)> = Vec::new();
        let mut i: usize = 0;
        while i < outputs.len()
            invariant
                i <= outputs@.len(),
                r@.len() == i,
                forall|k: int|
                    0 <= k < i ==> (#[trigger] r@[k]).0 == outputs@[k].0 && r@[k].1@
                        == strip_metaspace(token_text(self.tokens(), outputs@[k].1)),
            decreases outputs@.len() - i,
        {
            let (seq_id, token) = outputs[i];
            let text = self.decode_token(token);
            let n = text.unicode_len();
            let mut k: usize = 0;
            while k < n && text.get_char(k) == '\u{2581}'
                invariant
                    n == text@.len(),
                    k <= n,
                    forall|j: int| 0 <= j < k ==> text@[j] == '\u{2581}',
                decreases n - k,
            {
                k += 1;
            }
            proof {
                lemma_strip_metaspace(text@, k as int);
            }
            let shown = text.substring_char(k, n).to_owned();
            r.push((seq_id, shown));
            i += 1;
        }
        r
    }

    /// Whether `token_id` ends a sequence.
    pub fn is_eos(&self, token_id: u32) -> (b: bool)
        ensures
            b == (token_id == EOS_TOKEN_ID),
    {
        token_id == EOS_TOKEN_ID
    }
}

} // verus!
