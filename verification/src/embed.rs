//! The offline default embedder's deterministic parts: the tokens of a text
//! (its lower-cased words, and the character trigrams of longer words) and
//! the feature hashing that sends each token to one slot of a fixed number
//! of dimensions, with a sign. The floating-point vector itself (weights,
//! sums and normalisation) is built by the application.

use vstd::prelude::*;
use crate::strs::owned;
use crate::chars::push_str;
use crate::num::{decimal, decimal_string};
use crate::chars::{self, chars_of, string_of, slice_of};
use crate::search::{alnum_runs, alnum_runs_exec};
use crate::words::vecs_view;
use vstd::utf8::encode_utf8;

verus! {

pub struct HashEmbedder {
    pub dims: usize,
}

pub open spec fn fnv_offset() -> u64 {
    0xcbf29ce484222325
}

pub open spec fn fnv_prime() -> u64 {
    0x100000001b3
}

/// 64-bit FNV-1a of a byte string.
pub open spec fn fnv1a_of(bytes: Seq<u8>) -> u64
    decreases bytes.len(),
{
    if bytes.len() == 0 {
        fnv_offset()
    } else {
        (fnv1a_of(bytes.drop_last()) ^ (bytes.last() as u64)).wrapping_mul(fnv_prime())
    }
}

/// 64-bit FNV-1a of a byte string.
pub fn fnv1a(bytes: &[u8]) -> (r: u64)
    ensures
        r == fnv1a_of(bytes@),
{
    let mut hash: u64 = 0xcbf29ce484222325;
    let mut i: usize = 0;
    while i < bytes.len()
        invariant
            i <= bytes.len(),
            hash == fnv1a_of(bytes@.take(i as int)),
        decreases bytes.len() - i,
    {
        assert(bytes@.take(i + 1).drop_last() == bytes@.take(i as int));
        hash = (hash ^ (bytes[i] as u64)).wrapping_mul(0x100000001b3);
        i += 1;
    }
    assert(bytes@.take(bytes.len() as int) == bytes@);
    hash
}

impl HashEmbedder {
    pub fn new(dims: usize) -> (r: HashEmbedder)
        ensures
            r.dims == dims,
    {
        HashEmbedder { dims }
    }

    pub fn default_dims() -> (r: usize)
        ensures
            r == 256,
    {
        256
    }

    pub fn dims(&self) -> (r: usize)
        ensures
            r == self.dims,
    {
        self.dims
    }

    /// Stable identifier recorded in each bundle's manifest ("hash-v1@256").
    pub fn id(&self) -> (r: String)
        ensures
            r@ == "hash-v1@"@ + decimal(self.dims as nat),
    {
        let mut s = owned("hash-v1@");
        let n = decimal_string(self.dims);
        push_str(&mut s, n.as_str());
        s
    }

    /// Where a token's weight goes: its slot (the FNV-1a hash modulo the
    /// dimensions) and whether it counts negatively (bit 32 of the hash),
    /// which spreads collisions symmetrically.
    pub fn slot(&self, token: &[u8]) -> (r: (usize, bool))
        requires
            self.dims > 0,
        ensures
            r.0 < self.dims,
            r.0 as u64 == fnv1a_of(token@) % (self.dims as u64),
            r.1 == ((fnv1a_of(token@) >> 32u64) & 1u64 != 0),
    {
        let h = fnv1a(token);
        let idx = (h % (self.dims as u64)) as usize;
        (idx, (h >> 32u64) & 1u64 != 0)
    }
}

/// A token's slot and sign, and whether it is a trigram (which weighs half
/// as much as a word).
#[derive(Debug, Clone, Copy)]
pub struct Feature {
    pub slot: usize,
    pub negative: bool,
    pub trigram: bool,
}

pub open spec fn feature_view(f: Feature) -> (usize, bool, bool) {
    (f.slot, f.negative, f.trigram)
}

/// A word's tokens: the word, then (for words of more than three
/// characters) each run of three consecutive characters, in order.
pub open spec fn word_tokens(w: Seq<char>) -> Seq<(Seq<char>, bool)> {
    seq![(w, false)] + if w.len() > 3 {
        Seq::new((w.len() - 2) as nat, |k: int| (w.subrange(k, k + 3), true))
    } else {
        Seq::empty()
    }
}

pub open spec fn words_tokens(ws: Seq<Seq<char>>) -> Seq<(Seq<char>, bool)>
    decreases ws.len(),
{
    if ws.len() == 0 {
        Seq::empty()
    } else {
        words_tokens(ws.drop_last()) + word_tokens(ws.last())
    }
}

/// A text's tokens: those of each word of its lower-cased form, a word being
/// a maximal run of alphanumeric characters.
pub open spec fn text_tokens(text: Seq<char>) -> Seq<(Seq<char>, bool)> {
    words_tokens(alnum_runs(chars::unicode_lower(text)))
}

/// Where a token goes: the FNV-1a hash of its UTF-8 bytes modulo the
/// dimensions, negative when bit 32 of the hash is set.
pub open spec fn token_feature(dims: usize, t: (Seq<char>, bool)) -> (usize, bool, bool) {
    let h = fnv1a_of(encode_utf8(t.0));
    ((h % (dims as u64)) as usize, (h >> 32u64) & 1u64 != 0, t.1)
}

impl HashEmbedder {
    fn token_feature_exec(&self, token: &[char], trigram: bool) -> (r: Feature)
        requires
            self.dims > 0,
        ensures
            feature_view(r) == token_feature(self.dims, (token@, trigram)),
    {
        let t = string_of(token);
        let (slot, negative) = self.slot(t.as_str().as_bytes());
        Feature { slot, negative, trigram }
    }

    /// The features of a text, in order: for each word of its lower-cased
    /// form, the word's, then those of its trigrams.
    pub fn features(&self, text: &str) -> (r: Vec<Feature>)
        requires
            self.dims > 0,
        ensures
            r@.map_values(|f: Feature| feature_view(f))
                == text_tokens(text@).map_values(|t: (Seq<char>, bool)| token_feature(self.dims, t)),
    {
        let lower = chars::to_lowercase(text);
        let lv = chars_of(lower.as_str());
        let words = alnum_runs_exec(lv.as_slice());
        let ghost ws = vecs_view(words@);
        let ghost target = text_tokens(text@).map_values(|t: (Seq<char>, bool)| token_feature(self.dims, t));
        let mut out: Vec<Feature> = Vec::new();
        let mut i: usize = 0;
        while i < words.len()
            invariant
                i <= words.len(),
                self.dims > 0,
                ws == vecs_view(words@),
                ws == alnum_runs(chars::unicode_lower(text@)),
                out@.map_values(|f: Feature| feature_view(f))
                    == words_tokens(ws.take(i as int)).map_values(|t: (Seq<char>, bool)| token_feature(self.dims, t)),
            decreases words.len() - i,
        {
            let w = &words[i];
            assert(ws.take(i + 1).drop_last() == ws.take(i as int));
            assert(ws[i as int] == w@);
            let ghost prev = words_tokens(ws.take(i as int));
            let ghost wt = word_tokens(w@);
            let ghost o0 = out@.map_values(|f: Feature| feature_view(f));
            out.push(self.token_feature_exec(w.as_slice(), false));
            assert(out@.map_values(|f: Feature| feature_view(f)) =~= o0.push(token_feature(self.dims, wt[0])));
            if w.len() > 3 {
                let mut k: usize = 0;
                while k + 2 < w.len()
                    invariant
                        w@.len() > 3,
                        k <= w@.len() - 2,
                        self.dims > 0,
                        wt == word_tokens(w@),
                        out@.map_values(|f: Feature| feature_view(f))
                            == o0 + wt.take(k + 1).map_values(|t: (Seq<char>, bool)| token_feature(self.dims, t)),
                    decreases w.len() - k,
                {
                    let tri = slice_of(w.as_slice(), k, k + 3);
                    let ghost before = out@.map_values(|f: Feature| feature_view(f));
                    out.push(self.token_feature_exec(tri.as_slice(), true));
                    assert(wt[k + 1] == (w@.subrange(k as int, k + 3), true));
                    assert(out@.map_values(|f: Feature| feature_view(f)) =~= before.push(token_feature(self.dims, wt[k + 1])));
                    assert(wt.take(k + 2) =~= wt.take(k + 1).push(wt[k + 1]));
                    assert(wt.take(k + 2).map_values(|t: (Seq<char>, bool)| token_feature(self.dims, t))
                        =~= wt.take(k + 1).map_values(|t: (Seq<char>, bool)| token_feature(self.dims, t)).push(token_feature(self.dims, wt[k + 1])));
                    k += 1;
                }
                assert(wt.take(k + 1) =~= wt);
            } else {
                assert(wt =~= seq![(w@, false)]);
                assert(wt.take(1) =~= wt);
            }
            assert(words_tokens(ws.take(i + 1)) == prev + wt);
            assert((prev + wt).map_values(|t: (Seq<char>, bool)| token_feature(self.dims, t))
                =~= prev.map_values(|t: (Seq<char>, bool)| token_feature(self.dims, t))
                    + wt.map_values(|t: (Seq<char>, bool)| token_feature(self.dims, t)));
            assert(wt.take(wt.len() as int) =~= wt);
            i += 1;
        }
        assert(ws.take(words.len() as int) == ws);
        out
    }
}

} // verus!
