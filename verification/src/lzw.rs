//! The LZW adaptive-dictionary codec.
//!
//! The encoder consumes a byte sequence and produces a stream of fixed-width
//! (16-bit, big-endian) dictionary codes; the decoder performs the exact
//! inverse transform. Both sides grow an append-only dictionary in lock-step:
//! codes 0–255 denote the single-byte bootstrap entries, and every further
//! code is assigned densely, in insertion order, to the sequence that first
//! failed a longest-match lookup.
//!
//! The whole protocol is modelled by the spec functions [`enc_run`],
//! [`enc_codes`] and [`dec_run`]; the executable [`enc`] and [`dec`] are
//! verified against that model, and [`lemma_round_trip`] proves that decoding
//! an encoded stream reproduces the original bytes exactly.

use vstd::prelude::*;

use crate::shared::be_u16;
use crate::shared::read_u16;
use crate::shared::CodecError;

verus! {

/// A dictionary code: a fixed-width unsigned integer denoting one entry.
pub type Code = u16;

/// The number of distinct codes a fixed-width 16-bit code can denote; the
/// bootstrap entries count against this bound.
pub const DICT_CAPACITY: usize = 65536;

// ---------------------------------------------------------------------------
// The dictionary model.
//
// Both directions share one relation between byte sequences and codes; it is
// modelled as the sequence of entries in insertion order, so that the code of
// an entry is its index.
// ---------------------------------------------------------------------------

/// The 256-entry bootstrap dictionary: code `i` denotes the byte `i`.
pub open spec fn init_dict() -> Seq<Seq<u8>> {
    Seq::new(256, |i: int| seq![i as u8])
}

/// Whether `s` is an entry of `dict`.
pub open spec fn dict_contains(dict: Seq<Seq<u8>>, s: Seq<u8>) -> bool {
    exists|j: int| 0 <= j < dict.len() && dict[j] == s
}

/// The code assigned to entry `s` of `dict`.
pub open spec fn dict_index_of(dict: Seq<Seq<u8>>, s: Seq<u8>) -> int {
    choose|j: int| 0 <= j < dict.len() && dict[j] == s
}

/// Well-formedness of a dictionary: it starts with the 256 bootstrap
/// entries, every entry is non-empty, and no entry repeats (so each sequence
/// has exactly one code).
pub open spec fn dict_wf(dict: Seq<Seq<u8>>) -> bool {
    &&& dict.len() >= 256
    &&& forall|k: int| 0 <= k < 256 ==> (#[trigger] dict[k]) == init_dict()[k]
    &&& forall|k: int| 0 <= k < dict.len() ==> (#[trigger] dict[k]).len() >= 1
    &&& forall|k1: int, k2: int|
        #![trigger dict[k1], dict[k2]]
        0 <= k1 < dict.len() && 0 <= k2 < dict.len() && k1 != k2 ==> dict[k1] != dict[k2]
}

/// The entry table of an executable dictionary, as a sequence of sequences.
pub open spec fn dict_view(d: Vec<Vec<u8>>) -> Seq<Seq<u8>> {
    Seq::new(d@.len(), |j: int| d@[j]@)
}

pub proof fn lemma_init_dict_wf()
    ensures
        dict_wf(init_dict()),
{
    assert forall|k1: int, k2: int|
        #![trigger init_dict()[k1], init_dict()[k2]]
        0 <= k1 < 256 && 0 <= k2 < 256 && k1 != k2 implies init_dict()[k1]
        != init_dict()[k2] by {
        assert(init_dict()[k1][0] == k1 as u8);
        assert(init_dict()[k2][0] == k2 as u8);
    }
}

/// The chosen index of a contained entry is a valid index for that entry.
pub proof fn lemma_dict_index_of(dict: Seq<Seq<u8>>, s: Seq<u8>)
    requires
        dict_contains(dict, s),
    ensures
        0 <= dict_index_of(dict, s) < dict.len(),
        dict[dict_index_of(dict, s)] == s,
{
    let j = choose|j: int| 0 <= j < dict.len() && dict[j] == s;
    assert(0 <= j < dict.len() && dict[j] == s);
}

/// In a dictionary without repeated entries, the code of an entry is the one
/// index holding it.
pub proof fn lemma_dict_index_unique(dict: Seq<Seq<u8>>, s: Seq<u8>, j: int)
    requires
        dict_wf(dict),
        0 <= j < dict.len(),
        dict[j] == s,
    ensures
        dict_index_of(dict, s) == j,
{
    lemma_dict_index_of(dict, s);
}

// ---------------------------------------------------------------------------
// The encoder model.
// ---------------------------------------------------------------------------

/// The encoder state after some prefix of the input has been processed.
#[verifier::ext_equal]
pub struct EncState {
    /// The dictionary: the entry at index `c` is the sequence denoted by
    /// code `c`.
    pub dict: Seq<Seq<u8>>,
    /// The current candidate sequence: the longest suffix of the processed
    /// input that is still a known dictionary entry.
    pub cur: Seq<u8>,
    /// The codes emitted so far (unbounded here; the executable encoder
    /// reports an error as soon as the 16-bit space is exhausted).
    pub out: Seq<int>,
}

pub open spec fn enc_init() -> EncState {
    EncState { dict: init_dict(), cur: Seq::empty(), out: Seq::empty() }
}

/// One encoder step: extend the candidate by the next byte; if the extension
/// is unknown, emit the code of the candidate, insert the extension under the
/// next code, and restart the candidate from the new byte.
pub open spec fn enc_step(st: EncState, b: u8) -> EncState {
    let ext = st.cur.push(b);
    if dict_contains(st.dict, ext) {
        EncState { dict: st.dict, cur: ext, out: st.out }
    } else {
        EncState {
            dict: st.dict.push(ext),
            cur: seq![b],
            out: st.out.push(dict_index_of(st.dict, st.cur)),
        }
    }
}

/// The encoder state after processing all of `input`.
pub open spec fn enc_run(input: Seq<u8>) -> EncState
    decreases input.len(),
{
    if input.len() == 0 {
        enc_init()
    } else {
        enc_step(enc_run(input.drop_last()), input.last())
    }
}

/// The complete code sequence for `input`: the codes emitted while reading
/// it, followed by the final flush of the pending candidate.
pub open spec fn enc_codes(input: Seq<u8>) -> Seq<int> {
    let st = enc_run(input);
    if st.cur.len() == 0 {
        st.out
    } else {
        st.out.push(dict_index_of(st.dict, st.cur))
    }
}

/// Whether encoding `input` stays within the 16-bit code space. When it does
/// not, the encoder reports `DictionaryFull` instead of producing output.
pub open spec fn enc_fits(input: Seq<u8>) -> bool {
    enc_run(input).dict.len() <= DICT_CAPACITY
}

/// State well-formedness maintained by the encoder: the dictionary is
/// well-formed, a non-empty candidate is always a known entry, and the
/// candidate is empty only before anything was read.
pub open spec fn enc_wf(st: EncState) -> bool {
    &&& dict_wf(st.dict)
    &&& (st.cur.len() > 0 ==> dict_contains(st.dict, st.cur))
    &&& (st.cur.len() == 0 ==> st.dict == init_dict() && st.out == Seq::<int>::empty())
}

/// Unfolds one step of `enc_run` along a prefix of the input.
pub proof fn lemma_enc_run_step(input: Seq<u8>, i: int)
    requires
        0 <= i < input.len(),
    ensures
        enc_run(input.take(i + 1)) == enc_step(enc_run(input.take(i)), input[i]),
{
    assert(input.take(i + 1).drop_last() =~= input.take(i));
    assert(input.take(i + 1).last() == input[i]);
}

/// When the extended candidate misses the dictionary, the candidate itself
/// was non-empty and is a known entry (so the emit is well-defined).
proof fn lemma_emit_branch(st: EncState, b: u8)
    requires
        enc_wf(st),
        !dict_contains(st.dict, st.cur.push(b)),
    ensures
        st.cur.len() > 0,
        dict_contains(st.dict, st.cur),
{
    if st.cur.len() == 0 {
        assert(st.dict[b as int] == init_dict()[b as int]);
        assert(init_dict()[b as int] =~= st.cur.push(b));
        assert(dict_contains(st.dict, st.cur.push(b)));
    }
}

/// One encoder step preserves state well-formedness.
proof fn lemma_enc_step_wf(st: EncState, b: u8)
    requires
        enc_wf(st),
    ensures
        enc_wf(enc_step(st, b)),
{
    let ext = st.cur.push(b);
    if !dict_contains(st.dict, ext) {
        lemma_emit_branch(st, b);
        let ndict = st.dict.push(ext);
        assert forall|k: int| 0 <= k < 256 implies (#[trigger] ndict[k]) == init_dict()[k] by {
            assert(ndict[k] == st.dict[k]);
        }
        assert forall|k1: int, k2: int|
            #![trigger ndict[k1], ndict[k2]]
            0 <= k1 < ndict.len() && 0 <= k2 < ndict.len() && k1 != k2 implies ndict[k1]
            != ndict[k2] by {
            if k1 < st.dict.len() && k2 < st.dict.len() {
                assert(ndict[k1] == st.dict[k1]);
                assert(ndict[k2] == st.dict[k2]);
            } else if k1 < st.dict.len() {
                assert(ndict[k2] == ext && ndict[k1] == st.dict[k1]);
            } else {
                assert(ndict[k1] == ext && ndict[k2] == st.dict[k2]);
            }
        }
        assert(ndict[b as int] == init_dict()[b as int]);
        assert(init_dict()[b as int] =~= seq![b]);
        assert(dict_contains(ndict, seq![b]));
    }
}

/// The encoder state after any prefix of the input is well-formed.
pub proof fn lemma_enc_run_wf(input: Seq<u8>)
    ensures
        enc_wf(enc_run(input)),
    decreases input.len(),
{
    lemma_init_dict_wf();
    if input.len() > 0 {
        lemma_enc_run_wf(input.drop_last());
        lemma_enc_step_wf(enc_run(input.drop_last()), input.last());
    }
}

/// The dictionary only ever grows while the input is processed.
pub proof fn lemma_enc_run_dict_len_monotone(input: Seq<u8>, i: int, j: int)
    requires
        0 <= i <= j <= input.len(),
    ensures
        enc_run(input.take(i)).dict.len() <= enc_run(input.take(j)).dict.len(),
    decreases j - i,
{
    if i < j {
        lemma_enc_run_dict_len_monotone(input, i, j - 1);
        lemma_enc_run_step(input, j - 1);
    }
}

// ---------------------------------------------------------------------------
// The wire format: codes as big-endian 16-bit words, back to back.
// ---------------------------------------------------------------------------

/// The two big-endian bytes of one code word.
pub open spec fn be_bytes_of(c: int) -> Seq<u8> {
    seq![(c / 256) as u8, (c % 256) as u8]
}

/// The byte stream carrying a code sequence.
pub open spec fn code_stream(codes: Seq<int>) -> Seq<u8>
    decreases codes.len(),
{
    if codes.len() == 0 {
        Seq::empty()
    } else {
        code_stream(codes.drop_last()) + be_bytes_of(codes.last())
    }
}

/// The code sequence carried by a byte stream (ignoring a trailing partial
/// token, which the decoder reports separately).
pub open spec fn codes_of(bytes: Seq<u8>) -> Seq<int> {
    Seq::new(bytes.len() / 2, |j: int| be_u16(bytes[2 * j], bytes[2 * j + 1]) as int)
}

// ---------------------------------------------------------------------------
// The decoder model.
// ---------------------------------------------------------------------------

/// The decoder state after some prefix of the code stream has been processed.
#[verifier::ext_equal]
pub struct DecState {
    /// The decode dictionary, mirroring the encoder's insertions one code
    /// behind.
    pub dict: Seq<Seq<u8>>,
    /// The previously decoded sequence.
    pub prev: Seq<u8>,
    /// The bytes written so far.
    pub out: Seq<u8>,
}

pub open spec fn dec_init() -> DecState {
    DecState { dict: init_dict(), prev: Seq::empty(), out: Seq::empty() }
}

/// One decoder step: resolve the code (directly, or through the
/// self-referential reconstruction when the code is exactly the next one to
/// be assigned), write the resolved sequence, and mirror the encoder's
/// insertion of (previous sequence + first resolved byte).
pub open spec fn dec_step(st: DecState, c: int) -> Result<DecState, CodecError> {
    if !(0 <= c && (c < st.dict.len() || (c == st.dict.len() && st.prev.len() > 0))) {
        Err(CodecError::CorruptStream)
    } else {
        let resolved = if c < st.dict.len() {
            st.dict[c]
        } else {
            st.prev.push(st.prev[0])
        };
        if st.prev.len() > 0 {
            if st.dict.len() >= DICT_CAPACITY {
                Err(CodecError::DictionaryFull)
            } else {
                Ok(
                    DecState {
                        dict: st.dict.push(st.prev.push(resolved[0])),
                        prev: resolved,
                        out: st.out + resolved,
                    },
                )
            }
        } else {
            Ok(DecState { dict: st.dict, prev: resolved, out: st.out + resolved })
        }
    }
}

/// The decoder state after processing all of `codes`, or the first error.
pub open spec fn dec_run(codes: Seq<int>) -> Result<DecState, CodecError>
    decreases codes.len(),
{
    if codes.len() == 0 {
        Ok(dec_init())
    } else {
        match dec_run(codes.drop_last()) {
            Ok(st) => dec_step(st, codes.last()),
            Err(e) => Err(e),
        }
    }
}

/// Unfolds one step of `dec_run` along a prefix of the code sequence.
pub proof fn lemma_dec_run_step(codes: Seq<int>, j: int)
    requires
        0 <= j < codes.len(),
    ensures
        dec_run(codes.take(j + 1)) == (match dec_run(codes.take(j)) {
            Ok(st) => dec_step(st, codes[j]),
            Err(e) => Err(e),
        }),
{
    assert(codes.take(j + 1).drop_last() =~= codes.take(j));
    assert(codes.take(j + 1).last() == codes[j]);
}

/// Once a prefix of the code stream fails, the whole stream fails the same
/// way.
pub proof fn lemma_dec_run_err_persists(codes: Seq<int>, j: int)
    requires
        0 <= j <= codes.len(),
        dec_run(codes.take(j)) is Err,
    ensures
        dec_run(codes) == dec_run(codes.take(j)),
    decreases codes.len() - j,
{
    if j == codes.len() {
        assert(codes.take(j) =~= codes);
    } else {
        lemma_dec_run_step(codes, j);
        lemma_dec_run_err_persists(codes, j + 1);
    }
}

// ---------------------------------------------------------------------------
// Executable helpers.
// ---------------------------------------------------------------------------

/// Byte-wise equality of two byte vectors.
fn seq_eq(a: &Vec<u8>, b: &Vec<u8>) -> (r: bool)
    ensures
        r == (a@ == b@),
{
    if a.len() != b.len() {
        return false;
    }
    let mut i: usize = 0;
    while i < a.len()
        invariant
            a@.len() == b@.len(),
            i <= a@.len(),
            forall|k: int| 0 <= k < i ==> a@[k] == b@[k],
        decreases a@.len() - i,
    {
        if a[i] != b[i] {
            return false;
        }
        i += 1;
    }
    proof {
        assert(a@ =~= b@);
    }
    true
}

/// A fresh copy of a byte vector.
fn clone_bytes(v: &Vec<u8>) -> (r: Vec<u8>)
    ensures
        r@ == v@,
{
    let mut r: Vec<u8> = Vec::new();
    let mut i: usize = 0;
    while i < v.len()
        invariant
            i <= v@.len(),
            r@ == v@.take(i as int),
        decreases v@.len() - i,
    {
        r.push(v[i]);
        proof {
            assert(v@.take(i + 1) =~= v@.take(i as int).push(v@[i as int]));
        }
        i += 1;
    }
    proof {
        assert(v@.take(v@.len() as int) =~= v@);
    }
    r
}

/// Appends all of `src` to `dst`.
fn extend_bytes(dst: &mut Vec<u8>, src: &Vec<u8>)
    ensures
        final(dst)@ == old(dst)@ + src@,
{
    let ghost orig = dst@;
    let mut i: usize = 0;
    while i < src.len()
        invariant
            i <= src@.len(),
            dst@ == orig + src@.take(i as int),
        decreases src@.len() - i,
    {
        dst.push(src[i]);
        proof {
            assert(orig + src@.take(i + 1) =~= (orig + src@.take(i as int)).push(
                src@[i as int],
            ));
        }
        i += 1;
    }
    proof {
        assert(orig + src@.take(src@.len() as int) =~= orig + src@);
    }
}

/// Looks an entry up in the dictionary and returns its code, if any.
fn find_code(dict: &Vec<Vec<u8>>, s: &Vec<u8>) -> (r: Option<usize>)
    requires
        dict_wf(dict_view(*dict)),
    ensures
        r is Some <==> dict_contains(dict_view(*dict), s@),
        r is Some ==> r->Some_0 == dict_index_of(dict_view(*dict), s@) && r->Some_0
            < dict@.len(),
{
    let mut j: usize = 0;
    while j < dict.len()
        invariant
            dict_wf(dict_view(*dict)),
            j <= dict@.len(),
            forall|k: int| 0 <= k < j ==> (#[trigger] dict_view(*dict)[k]) != s@,
        decreases dict@.len() - j,
    {
        if seq_eq(&dict[j], s) {
            proof {
                assert(dict_view(*dict)[j as int] == s@);
                assert(dict_contains(dict_view(*dict), s@));
                lemma_dict_index_unique(dict_view(*dict), s@, j as int);
            }
            return Some(j);
        }
        j += 1;
    }
    None
}

/// Emits one code word, big-endian, for the dictionary entry `seq`.
fn emit(seq: &Vec<u8>, dict: &Vec<Vec<u8>>, out: &mut Vec<u8>)
    requires
        dict_wf(dict_view(*dict)),
        dict_contains(dict_view(*dict), seq@),
        dict@.len() <= DICT_CAPACITY,
    ensures
        final(out)@ == old(out)@ + be_bytes_of(dict_index_of(dict_view(*dict), seq@)),
{
    proof {
        lemma_dict_index_of(dict_view(*dict), seq@);
    }
    let code: usize = match find_code(dict, seq) {
        Some(c) => c,
        None => 0,
    };
    let hi: u8 = (code / 256) as u8;
    let lo: u8 = (code % 256) as u8;
    out.push(hi);
    out.push(lo);
}

/// Builds the 256-entry bootstrap dictionary for the encode direction.
fn build_default_enc_dict() -> (r: Vec<Vec<u8>>)
    ensures
        dict_view(r) == init_dict(),
{
    let mut d: Vec<Vec<u8>> = Vec::new();
    let mut i: usize = 0;
    while i < 256
        invariant
            d@.len() == i,
            i <= 256,
            forall|k: int| 0 <= k < i ==> (#[trigger] d@[k])@ == init_dict()[k],
        decreases 256 - i,
    {
        let mut e: Vec<u8> = Vec::new();
        e.push(i as u8);
        proof {
            assert(e@ =~= init_dict()[i as int]);
        }
        d.push(e);
        i += 1;
    }
    proof {
        assert(dict_view(d) =~= init_dict());
    }
    d
}

/// Builds the 256-entry bootstrap dictionary for the decode direction. The
/// two directions are mirrored views of the same relation, and this crate
/// indexes both by code, so the tables coincide.
fn build_default_dec_dict() -> (r: Vec<Vec<u8>>)
    ensures
        dict_view(r) == init_dict(),
{
    build_default_enc_dict()
}

// ---------------------------------------------------------------------------
// The encoder.
// ---------------------------------------------------------------------------

/// Encodes the given data and also returns the final encode dictionary.
///
/// Succeeds exactly when the run stays within the 16-bit code space; the
/// output is then the code sequence of [`enc_codes`] on the wire format of
/// [`code_stream`]. Otherwise the run fails with `DictionaryFull`.
pub fn enc_returning_dict(src: &Vec<u8>) -> (r: Result<(Vec<u8>, Vec<Vec<u8>>), CodecError>)
    ensures
        enc_fits(src@) ==> {
            &&& r is Ok
            &&& r->Ok_0.0@ == code_stream(enc_codes(src@))
            &&& dict_view(r->Ok_0.1) == enc_run(src@).dict
        },
        !enc_fits(src@) ==> r == Err::<(Vec<u8>, Vec<Vec<u8>>), CodecError>(
            CodecError::DictionaryFull,
        ),
{
    let mut dict = build_default_enc_dict();
    let mut cur: Vec<u8> = Vec::new();
    let mut out: Vec<u8> = Vec::new();
    let n = src.len();
    let mut i: usize = 0;
    proof {
        lemma_init_dict_wf();
        assert(src@.take(0) =~= Seq::<u8>::empty());
    }
    while i < n
        invariant
            n == src@.len(),
            i <= n,
            enc_wf(enc_run(src@.take(i as int))),
            dict_view(dict) == enc_run(src@.take(i as int)).dict,
            cur@ == enc_run(src@.take(i as int)).cur,
            out@ == code_stream(enc_run(src@.take(i as int)).out),
            dict@.len() <= DICT_CAPACITY,
        decreases n - i,
    {
        let ghost st = enc_run(src@.take(i as int));
        let b = src[i];
        let mut ext = clone_bytes(&cur);
        ext.push(b);
        proof {
            lemma_enc_run_step(src@, i as int);
            lemma_enc_step_wf(st, b);
        }
        match find_code(&dict, &ext) {
            Some(_) => {
                cur = ext;
            },
            None => {
                proof {
                    lemma_emit_branch(st, b);
                }
                if dict.len() >= DICT_CAPACITY {
                    proof {
                        assert(enc_run(src@.take(i + 1)).dict.len() == st.dict.len() + 1);
                        lemma_enc_run_dict_len_monotone(src@, i + 1, src@.len() as int);
                        assert(src@.take(src@.len() as int) =~= src@);
                    }
                    return Err(CodecError::DictionaryFull);
                }
                emit(&cur, &dict, &mut out);
                dict.push(ext);
                let mut ncur: Vec<u8> = Vec::new();
                ncur.push(b);
                cur = ncur;
                proof {
                    let nst = enc_run(src@.take(i + 1));
                    assert(dict_view(dict) =~= nst.dict);
                    assert(cur@ =~= nst.cur);
                    assert(nst.out.drop_last() =~= st.out);
                    assert(code_stream(nst.out) == code_stream(st.out) + be_bytes_of(
                        dict_index_of(st.dict, st.cur),
                    ));
                }
            },
        }
        i += 1;
    }
    proof {
        assert(src@.take(n as int) =~= src@);
    }
    let ghost fst = enc_run(src@);
    if cur.len() > 0 {
        emit(&cur, &dict, &mut out);
        proof {
            assert(enc_codes(src@).drop_last() =~= fst.out);
            assert(code_stream(enc_codes(src@)) == code_stream(fst.out) + be_bytes_of(
                dict_index_of(fst.dict, fst.cur),
            ));
        }
    }
    Ok((out, dict))
}

// ---------------------------------------------------------------------------
// The decoder.
// ---------------------------------------------------------------------------

/// Decodes the given data.
///
/// The code words are read as big-endian 16-bit tokens; the run reproduces
/// exactly the output of [`dec_run`] on that code sequence, reports a token
/// that starts but does not complete as `TruncatedToken`, a code that cannot
/// be resolved as `CorruptStream`, and an insertion past the 16-bit code
/// space as `DictionaryFull`.
pub fn dec(src: &Vec<u8>) -> (r: Result<Vec<u8>, CodecError>)
    ensures
        ({
            let codes = codes_of(src@);
            match dec_run(codes) {
                Ok(st) => if src@.len() % 2 == 0 {
                    r is Ok && r->Ok_0@ == st.out
                } else {
                    r == Err::<Vec<u8>, CodecError>(CodecError::TruncatedToken)
                },
                Err(e) => r == Err::<Vec<u8>, CodecError>(e),
            }
        }),
{
    let mut dict = build_default_dec_dict();
    let mut prev: Vec<u8> = Vec::new();
    let mut out: Vec<u8> = Vec::new();
    let n = src.len();
    let mut pos: usize = 0;
    proof {
        lemma_init_dict_wf();
        assert(codes_of(src@).take(0) =~= Seq::<int>::empty());
    }
    while pos < n && pos + 1 < n
        invariant
            n == src@.len(),
            pos % 2 == 0,
            pos <= n,
            dec_run(codes_of(src@).take(pos as int / 2)) == Ok::<DecState, CodecError>(
                DecState { dict: dict_view(dict), prev: prev@, out: out@ },
            ),
            forall|k: int| 0 <= k < dict@.len() ==> (#[trigger] dict_view(dict)[k]).len() >= 1,
        decreases n - pos,
    {
        let ghost codes = codes_of(src@);
        let ghost j = pos as int / 2;
        let ghost st = DecState { dict: dict_view(dict), prev: prev@, out: out@ };
        let code_u16 = match read_u16(src, pos) {
            Ok(Some(c)) => c,
            Ok(None) => {
                proof {
                    assert(false);
                }
                return Err(CodecError::CorruptStream);
            },
            Err(_) => {
                proof {
                    assert(false);
                }
                return Err(CodecError::CorruptStream);
            },
        };
        let code = code_u16 as usize;
        proof {
            assert(2 * j == pos as int);
            assert(codes[j] == code as int);
            lemma_dec_run_step(codes, j);
        }
        let resolved: Vec<u8>;
        if code < dict.len() {
            resolved = clone_bytes(&dict[code]);
        } else if code == dict.len() && prev.len() > 0 {
            let f = prev[0];
            let mut t = clone_bytes(&prev);
            t.push(f);
            resolved = t;
        } else {
            proof {
                assert(dec_run(codes.take(j + 1)) == Err::<DecState, CodecError>(
                    CodecError::CorruptStream,
                ));
                lemma_dec_run_err_persists(codes, j + 1);
            }
            return Err(CodecError::CorruptStream);
        }
        if prev.len() > 0 {
            if dict.len() >= DICT_CAPACITY {
                proof {
                    assert(dec_run(codes.take(j + 1)) == Err::<DecState, CodecError>(
                        CodecError::DictionaryFull,
                    ));
                    lemma_dec_run_err_persists(codes, j + 1);
                }
                return Err(CodecError::DictionaryFull);
            }
            let f2 = resolved[0];
            let mut e = clone_bytes(&prev);
            e.push(f2);
            dict.push(e);
            proof {
                assert(dict_view(dict) =~= st.dict.push(st.prev.push(resolved@[0])));
            }
        }
        extend_bytes(&mut out, &resolved);
        prev = resolved;
        pos += 2;
        proof {
            assert(pos as int / 2 == j + 1);
            assert(dec_run(codes.take(j + 1)) == Ok::<DecState, CodecError>(
                DecState { dict: dict_view(dict), prev: prev@, out: out@ },
            ));
        }
    }
    proof {
        assert(codes_of(src@).take(pos as int / 2) =~= codes_of(src@));
    }
    if pos < n {
        match read_u16(src, pos) {
            Err(e) => {
                return Err(e);
            },
            _ => {
                proof {
                    assert(false);
                }
                return Err(CodecError::TruncatedToken);
            },
        }
    }
    Ok(out)
}

/// Encodes the given data.
///
/// Succeeds exactly when the run stays within the 16-bit code space, and
/// then emits the code stream of [`enc_codes`]; otherwise it fails with
/// `DictionaryFull`.
pub fn enc(src: &Vec<u8>) -> (r: Result<Vec<u8>, CodecError>)
    ensures
        enc_fits(src@) ==> r is Ok && r->Ok_0@ == code_stream(enc_codes(src@)),
        !enc_fits(src@) ==> r == Err::<Vec<u8>, CodecError>(CodecError::DictionaryFull),
{
    match enc_returning_dict(src) {
        Ok((out, _)) => Ok(out),
        Err(e) => Err(e),
    }
}

// ---------------------------------------------------------------------------
// Laws of the protocol.
// ---------------------------------------------------------------------------

/// One emission and one insertion happen together, so the number of emitted
/// codes tracks the dictionary exactly.
proof fn lemma_enc_out_dict_len(input: Seq<u8>)
    ensures
        enc_run(input).out.len() + 256 == enc_run(input).dict.len(),
    decreases input.len(),
{
    if input.len() > 0 {
        lemma_enc_out_dict_len(input.drop_last());
    }
}

/// Every emitted code is a valid index of the dictionary it was emitted
/// against, hence of the final dictionary.
proof fn lemma_enc_out_bounded(input: Seq<u8>)
    ensures
        forall|k: int|
            0 <= k < enc_run(input).out.len() ==> 0 <= #[trigger] enc_run(input).out[k]
                < enc_run(input).dict.len(),
    decreases input.len(),
{
    if input.len() > 0 {
        lemma_enc_out_bounded(input.drop_last());
        lemma_enc_run_wf(input.drop_last());
        let st = enc_run(input.drop_last());
        let b = input.last();
        if !dict_contains(st.dict, st.cur.push(b)) {
            lemma_emit_branch(st, b);
            lemma_dict_index_of(st.dict, st.cur);
        }
    }
}

/// Every code of the complete code sequence is a valid index of the final
/// dictionary; under [`enc_fits`] they all fit a 16-bit word.
pub proof fn lemma_enc_codes_bounded(input: Seq<u8>)
    ensures
        forall|k: int|
            0 <= k < enc_codes(input).len() ==> 0 <= #[trigger] enc_codes(input)[k]
                < enc_run(input).dict.len(),
{
    lemma_enc_out_bounded(input);
    lemma_enc_run_wf(input);
    let st = enc_run(input);
    if st.cur.len() > 0 {
        lemma_dict_index_of(st.dict, st.cur);
    }
}

/// Parsing inverts serialization: reading the wire format of a bounded code
/// sequence gives that sequence back.
pub proof fn lemma_codes_of_code_stream(codes: Seq<int>)
    requires
        forall|k: int| 0 <= k < codes.len() ==> 0 <= #[trigger] codes[k] < DICT_CAPACITY,
    ensures
        code_stream(codes).len() == 2 * codes.len(),
        codes_of(code_stream(codes)) == codes,
    decreases codes.len(),
{
    if codes.len() == 0 {
        assert(codes_of(code_stream(codes)) =~= codes);
    } else {
        let pre = codes.drop_last();
        let c = codes.last();
        assert(forall|k: int| 0 <= k < pre.len() ==> 0 <= #[trigger] pre[k] < DICT_CAPACITY);
        lemma_codes_of_code_stream(pre);
        let bytes = code_stream(codes);
        assert(0 <= c < 65536);
        assert forall|j: int| 0 <= j < codes.len() implies codes_of(bytes)[j] == codes[j] by {
            if j < pre.len() {
                assert(bytes[2 * j] == code_stream(pre)[2 * j]);
                assert(bytes[2 * j + 1] == code_stream(pre)[2 * j + 1]);
                assert(codes_of(code_stream(pre))[j] == pre[j]);
            } else {
                assert(j == pre.len());
                assert(bytes[2 * j] == be_bytes_of(c)[0]);
                assert(bytes[2 * j + 1] == be_bytes_of(c)[1]);
                assert((c / 256) * 256 + (c % 256) == c);
                assert(((c / 256) as u8) as int == c / 256);
                assert(((c % 256) as u8) as int == c % 256);
            }
        }
        assert(codes_of(bytes) =~= codes);
    }
}

/// How the decoder resolves a code the encoder just emitted, given that the
/// encoder's dictionary runs exactly one insertion ahead: either the code is
/// already a decoder entry holding the emitted sequence, or it is exactly
/// the next code to assign and the self-referential reconstruction yields
/// the emitted sequence.
proof fn lemma_resolve_emitted(edict: Seq<Seq<u8>>, cur: Seq<u8>, d: DecState)
    requires
        dict_wf(edict),
        dict_contains(edict, cur),
        cur.len() >= 1,
        d.prev.len() >= 1,
        edict == d.dict.push(d.prev.push(cur[0])),
    ensures
        ({
            let c = dict_index_of(edict, cur);
            &&& 0 <= c <= d.dict.len()
            &&& (c < d.dict.len() ==> d.dict[c] == cur)
            &&& (c == d.dict.len() ==> d.prev.push(d.prev[0]) == cur)
        }),
{
    lemma_dict_index_of(edict, cur);
    let c = dict_index_of(edict, cur);
    if c < d.dict.len() {
        assert(edict[c] == d.dict[c]);
    } else {
        assert(c == d.dict.len());
        assert(edict[c] == d.prev.push(cur[0]));
        assert(cur == d.prev.push(cur[0]));
        assert(cur[0] == d.prev[0]);
        assert(d.prev.push(d.prev[0]) == cur);
    }
}

/// The simulation relation between the encoder after `i` input bytes and
/// the decoder after the codes emitted so far: the decoder has reproduced
/// everything but the pending candidate, and its dictionary runs exactly
/// one insertion behind the encoder's.
pub open spec fn sync_inv(input: Seq<u8>, i: int) -> bool {
    let e = enc_run(input.take(i));
    &&& dec_run(e.out) is Ok
    &&& {
        let d = dec_run(e.out)->Ok_0;
        &&& (e.out.len() == 0 ==> d == dec_init() && e.dict == init_dict() && e.cur == input.take(
            i,
        ))
        &&& (e.out.len() > 0 ==> {
            &&& e.cur.len() >= 1
            &&& d.prev.len() >= 1
            &&& e.dict == d.dict.push(d.prev.push(e.cur[0]))
            &&& d.out + e.cur == input.take(i)
        })
    }
}

/// The decoder tracks the encoder across every prefix of the input, as long
/// as the encoder's dictionary stays within the code space.
proof fn lemma_sync(input: Seq<u8>, i: int)
    requires
        0 <= i <= input.len(),
        enc_run(input.take(i)).dict.len() <= DICT_CAPACITY,
    ensures
        sync_inv(input, i),
    decreases i,
{
    if i == 0 {
        assert(input.take(0) =~= Seq::<u8>::empty());
        assert(enc_run(input.take(0)) == enc_init());
    } else {
        lemma_enc_run_step(input, i - 1);
        lemma_enc_run_dict_len_monotone(input, i - 1, i);
        lemma_sync(input, i - 1);
        lemma_enc_run_wf(input.take(i - 1));
        let st = enc_run(input.take(i - 1));
        let b = input[i - 1];
        let ext = st.cur.push(b);
        let e = enc_run(input.take(i));
        assert(input.take(i - 1).push(b) =~= input.take(i));
        if dict_contains(st.dict, ext) {
            if st.out.len() > 0 {
                let d = dec_run(st.out)->Ok_0;
                assert(d.out + ext =~= (d.out + st.cur).push(b));
                assert(ext[0] == st.cur[0]);
            }
        } else {
            lemma_emit_branch(st, b);
            lemma_dict_index_of(st.dict, st.cur);
            let c = dict_index_of(st.dict, st.cur);
            let d = dec_run(st.out)->Ok_0;
            assert(st.out.push(c).drop_last() =~= st.out);
            assert(st.out.push(c).last() == c);
            assert(dec_run(e.out) == dec_step(d, c));
            if st.out.len() == 0 {
                // The decoder is still in its initial state; the emitted
                // code denotes a bootstrap-era entry, looked up directly.
                assert(d == dec_init());
                assert(st.dict == init_dict());
                assert(0 <= c < 256);
                assert(d.dict[c] == st.cur);
                let nd = dec_step(d, c)->Ok_0;
                assert(nd.out =~= st.cur);
                assert(nd.out + e.cur =~= input.take(i));
                assert(e.dict =~= nd.dict.push(nd.prev.push(e.cur[0])));
            } else {
                lemma_resolve_emitted(st.dict, st.cur, d);
                assert(0 <= c <= d.dict.len());
                let resolved = if c < d.dict.len() {
                    d.dict[c]
                } else {
                    d.prev.push(d.prev[0])
                };
                assert(resolved == st.cur);
                // Capacity: the encoder inserted at this step and stayed in
                // range, and the decoder runs one insertion behind.
                assert(e.dict.len() == st.dict.len() + 1);
                assert(d.dict.len() + 2 == e.dict.len());
                assert(d.dict.len() < DICT_CAPACITY);
                let nd = dec_step(d, c)->Ok_0;
                assert(nd.dict =~= st.dict);
                assert(nd.prev == st.cur);
                assert(nd.out + e.cur =~= (d.out + st.cur).push(b));
                assert(e.dict =~= nd.dict.push(nd.prev.push(e.cur[0])));
            }
        }
    }
}

/// Round-trip: decoding an encoded code stream reproduces the input
/// exactly, for every input whose encoding stays within the 16-bit code
/// space, the empty input included.
pub proof fn lemma_round_trip(input: Seq<u8>)
    requires
        enc_fits(input),
    ensures
        ({
            let bytes = code_stream(enc_codes(input));
            &&& bytes.len() % 2 == 0
            &&& codes_of(bytes) == enc_codes(input)
            &&& dec_run(enc_codes(input)) is Ok
            &&& dec_run(enc_codes(input))->Ok_0.out == input
        }),
{
    lemma_enc_codes_bounded(input);
    lemma_codes_of_code_stream(enc_codes(input));
    assert(input.take(input.len() as int) =~= input);
    lemma_sync(input, input.len() as int);
    lemma_enc_run_wf(input);
    let e = enc_run(input);
    let codes = enc_codes(input);
    if input.len() == 0 {
        assert(e == enc_init());
        assert(dec_run(codes) == Ok::<DecState, CodecError>(dec_init()));
    } else {
        // The candidate is never empty once a byte has been read: were it
        // empty, nothing would have been emitted and the whole input would
        // still be pending.
        assert(e.cur.len() >= 1);
        lemma_dict_index_of(e.dict, e.cur);
        let c = dict_index_of(e.dict, e.cur);
        let d = dec_run(e.out)->Ok_0;
        assert(e.out.push(c).drop_last() =~= e.out);
        assert(e.out.push(c).last() == c);
        assert(dec_run(codes) == dec_step(d, c));
        if e.out.len() == 0 {
            assert(d == dec_init());
            assert(e.dict == init_dict());
            assert(0 <= c < 256);
            assert(d.dict[c] == e.cur);
            let nd = dec_step(d, c)->Ok_0;
            assert(nd.out =~= input);
        } else {
            lemma_resolve_emitted(e.dict, e.cur, d);
            let resolved = if c < d.dict.len() {
                d.dict[c]
            } else {
                d.prev.push(d.prev[0])
            };
            assert(resolved == e.cur);
            assert(d.dict.len() + 1 == e.dict.len());
            assert(d.dict.len() < DICT_CAPACITY);
            let nd = dec_step(d, c)->Ok_0;
            assert(nd.out =~= input);
        }
    }
}

/// Determinism of encoding: the emitted code stream is a function of the
/// input bytes alone. (The executable encoder's contract already pins its
/// output to exactly this function.)
pub proof fn lemma_enc_deterministic(a: Seq<u8>, b: Seq<u8>)
    requires
        a == b,
    ensures
        enc_codes(a) == enc_codes(b),
        code_stream(enc_codes(a)) == code_stream(enc_codes(b)),
{
}

/// Determinism of decoding: the reconstructed bytes are a function of the
/// code stream alone. (The executable decoder's contract already pins its
/// output to exactly this function.)
pub proof fn lemma_dec_deterministic(a: Seq<int>, b: Seq<int>)
    requires
        a == b,
    ensures
        dec_run(a) == dec_run(b),
{
}

/// Bootstrap coverage: a single byte in isolation encodes to exactly one
/// code, equal to the byte's numeric value.
pub proof fn lemma_single_byte(b: u8)
    ensures
        enc_fits(seq![b]),
        enc_codes(seq![b]) == seq![b as int],
{
    let s = seq![b];
    lemma_init_dict_wf();
    assert(s.drop_last() =~= Seq::<u8>::empty());
    assert(enc_run(s.drop_last()) == enc_init());
    let ext = Seq::<u8>::empty().push(b);
    assert(init_dict()[b as int] =~= ext);
    assert(dict_contains(init_dict(), ext));
    assert(enc_run(s).cur == ext);
    assert(enc_run(s).dict == init_dict());
    lemma_dict_index_unique(init_dict(), ext, b as int);
    assert(enc_codes(s) =~= seq![b as int]);
}

/// Monotonic growth: one dictionary entry is inserted per emitted code
/// except for the final flush, so a non-empty input's code count determines
/// the final dictionary size exactly.
pub proof fn lemma_code_count(input: Seq<u8>)
    ensures
        input.len() == 0 ==> enc_codes(input).len() == 0,
        input.len() > 0 ==> enc_codes(input).len() + 255 == enc_run(input).dict.len(),
{
    lemma_enc_out_dict_len(input);
    if input.len() == 0 {
        assert(enc_run(input) == enc_init());
    } else {
        assert(enc_run(input) == enc_step(enc_run(input.drop_last()), input.last()));
        assert(enc_run(input).cur.len() >= 1);
    }
}

/// Boundary: the empty input encodes to the empty stream, and the empty
/// stream decodes to the empty output.
pub proof fn lemma_empty()
    ensures
        enc_fits(Seq::<u8>::empty()),
        enc_codes(Seq::<u8>::empty()) == Seq::<int>::empty(),
        code_stream(Seq::<int>::empty()) == Seq::<u8>::empty(),
        dec_run(Seq::<int>::empty()) == Ok::<DecState, CodecError>(dec_init()),
        dec_init().out == Seq::<u8>::empty(),
{
}

} // verus!
