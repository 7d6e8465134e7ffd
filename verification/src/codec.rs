//! Persisting an index: a byte encoding of its (key, word) pairs with a
//! proved lossless round-trip, so a prebuilt index can be stored and
//! loaded instead of being rebuilt.

use vstd::prelude::*;
use crate::index::{IndexPair, PairModel, PhoneticIndex};
use crate::phoneme::bytes_of_slice;

verus! {

/// A 64-bit length, little-endian, eight bytes.
pub open spec fn enc64(n: u64) -> Seq<u8> {
    seq![
        (n & 0xff) as u8,
        ((n >> 8) & 0xff) as u8,
        ((n >> 16) & 0xff) as u8,
        ((n >> 24) & 0xff) as u8,
        ((n >> 32) & 0xff) as u8,
        ((n >> 40) & 0xff) as u8,
        ((n >> 48) & 0xff) as u8,
        ((n >> 56) & 0xff) as u8,
    ]
}

/// The 64-bit length read back from eight little-endian bytes.
pub open spec fn dec64(b: Seq<u8>) -> u64
    recommends
        b.len() == 8,
{
    (b[0] as u64) | ((b[1] as u64) << 8) | ((b[2] as u64) << 16) | ((b[3] as u64) << 24) | ((
    b[4] as u64) << 32) | ((b[5] as u64) << 40) | ((b[6] as u64) << 48) | ((b[7] as u64) << 56)
}

proof fn lemma_enc64_roundtrip(n: u64)
    ensures
        enc64(n).len() == 8,
        dec64(enc64(n)) == n,
{
    assert((((n & 0xff) as u8) as u64) | ((((n >> 8) & 0xff) as u8 as u64) << 8) | ((((n >> 16)
        & 0xff) as u8 as u64) << 16) | ((((n >> 24) & 0xff) as u8 as u64) << 24) | ((((n >> 32)
        & 0xff) as u8 as u64) << 32) | ((((n >> 40) & 0xff) as u8 as u64) << 40) | ((((n >> 48)
        & 0xff) as u8 as u64) << 48) | ((((n >> 56) & 0xff) as u8 as u64) << 56) == n)
        by (bit_vector);
}

/// One stored pair on the wire: key length, key bytes, word length, word
/// bytes.
pub open spec fn enc_pair(p: PairModel) -> Seq<u8> {
    enc64(p.key.len() as u64) + p.key + enc64(p.word.len() as u64) + p.word
}

/// All pairs, in index order.
pub open spec fn enc_pairs(ps: Seq<PairModel>) -> Seq<u8>
    decreases ps.len(),
{
    if ps.len() == 0 {
        seq![]
    } else {
        enc_pair(ps[0]) + enc_pairs(ps.drop_first())
    }
}

/// The whole artifact: the pair count, then the pairs.
pub open spec fn save_model(ps: Seq<PairModel>) -> Seq<u8> {
    enc64(ps.len() as u64) + enc_pairs(ps)
}

/// Reading `count` pairs back. `None` on any malformed input: a truncated
/// length or field, or trailing bytes after the last pair.
pub open spec fn dec_pairs(b: Seq<u8>, count: nat) -> Option<Seq<PairModel>>
    decreases count,
{
    if count == 0 {
        if b.len() == 0 {
            Some(seq![])
        } else {
            None
        }
    } else if b.len() < 8 {
        None
    } else {
        let klen = dec64(b.take(8)) as int;
        if b.len() < 8 + klen {
            None
        } else {
            let key = b.subrange(8, 8 + klen);
            let b2 = b.skip(8 + klen);
            if b2.len() < 8 {
                None
            } else {
                let wlen = dec64(b2.take(8)) as int;
                if b2.len() < 8 + wlen {
                    None
                } else {
                    let word = b2.subrange(8, 8 + wlen);
                    match dec_pairs(b2.skip(8 + wlen), (count - 1) as nat) {
                        Some(rest) => Some(seq![PairModel { key, word }] + rest),
                        None => None,
                    }
                }
            }
        }
    }
}

/// What loading a byte artifact yields, if it is well formed.
pub open spec fn load_model(b: Seq<u8>) -> Option<Seq<PairModel>> {
    if b.len() < 8 {
        None
    } else {
        dec_pairs(b.skip(8), dec64(b.take(8)) as nat)
    }
}

/// Appends a 64-bit length, little-endian.
fn push_u64(out: &mut Vec<u8>, n: u64)
    ensures
        final(out)@ == old(out)@ + enc64(n),
{
    out.push((n & 0xff) as u8);
    out.push(((n >> 8) & 0xff) as u8);
    out.push(((n >> 16) & 0xff) as u8);
    out.push(((n >> 24) & 0xff) as u8);
    out.push(((n >> 32) & 0xff) as u8);
    out.push(((n >> 40) & 0xff) as u8);
    out.push(((n >> 48) & 0xff) as u8);
    out.push(((n >> 56) & 0xff) as u8);
    proof {
        assert(out@ =~= old(out)@ + enc64(n));
    }
}

/// Appends a byte field.
fn push_bytes(out: &mut Vec<u8>, v: &Vec<u8>)
    ensures
        final(out)@ == old(out)@ + v@,
{
    let mut i: usize = 0;
    while i < v.len()
        invariant
            i <= v@.len(),
            out@ == old(out)@ + v@.take(i as int),
        decreases v@.len() - i,
    {
        out.push(v[i]);
        proof {
            assert(out@ =~= old(out)@ + v@.take(i + 1 as int));
        }
        i = i + 1;
    }
    proof {
        assert(v@.take(v@.len() as int) =~= v@);
    }
}

/// Reads a 64-bit length, little-endian.
fn read_u64(b: &[u8], pos: usize) -> (r: u64)
    requires
        pos + 8 <= b@.len(),
    ensures
        r == dec64(b@.subrange(pos as int, pos + 8)),
{
    let r = (b[pos] as u64) | ((b[pos + 1] as u64) << 8u64) | ((b[pos + 2] as u64) << 16u64) | ((
    b[pos + 3] as u64) << 24u64) | ((b[pos + 4] as u64) << 32u64) | ((b[pos + 5] as u64) << 40u64)
        | ((b[pos + 6] as u64) << 48u64) | ((b[pos + 7] as u64) << 56u64);
    proof {
        let s = b@.subrange(pos as int, pos + 8);
        assert(s[0] == b@[pos as int]);
        assert(s[1] == b@[pos + 1]);
        assert(s[2] == b@[pos + 2]);
        assert(s[3] == b@[pos + 3]);
        assert(s[4] == b@[pos + 4]);
        assert(s[5] == b@[pos + 5]);
        assert(s[6] == b@[pos + 6]);
        assert(s[7] == b@[pos + 7]);
    }
    r
}

proof fn lemma_enc_pairs_snoc(ps: Seq<PairModel>, p: PairModel)
    ensures
        enc_pairs(ps.push(p)) == enc_pairs(ps) + enc_pair(p),
    decreases ps.len(),
{
    if ps.len() == 0 {
        assert(ps.push(p).drop_first() =~= ps);
        assert(ps.push(p)[0] == p);
        assert(enc_pairs(ps.push(p)) =~= enc_pairs(ps) + enc_pair(p));
    } else {
        assert(ps.push(p).drop_first() =~= ps.drop_first().push(p));
        assert(ps.push(p)[0] == ps[0]);
        lemma_enc_pairs_snoc(ps.drop_first(), p);
        assert(enc_pairs(ps.push(p)) =~= enc_pairs(ps) + enc_pair(p));
    }
}

/// Serializes an index into the byte artifact.
pub fn save(idx: &PhoneticIndex) -> (r: Vec<u8>)
    ensures
        r@ == save_model(idx@),
{
    let mut out: Vec<u8> = Vec::new();
    push_u64(&mut out, idx.pairs.len() as u64);
    proof {
        assert(idx@.len() == idx.pairs@.len());
        assert(out@ =~= enc64(idx@.len() as u64) + enc_pairs(idx@.take(0)));
    }
    let mut k: usize = 0;
    while k < idx.pairs.len()
        invariant
            k <= idx.pairs@.len(),
            idx@.len() == idx.pairs@.len(),
            out@ == enc64(idx@.len() as u64) + enc_pairs(idx@.take(k as int)),
        decreases idx.pairs@.len() - k,
    {
        let p = &idx.pairs[k];
        push_u64(&mut out, p.key.len() as u64);
        push_bytes(&mut out, &p.key);
        push_u64(&mut out, p.word.len() as u64);
        push_bytes(&mut out, &p.word);
        proof {
            assert(idx@.take(k + 1 as int) =~= idx@.take(k as int).push(idx@[k as int]));
            lemma_enc_pairs_snoc(idx@.take(k as int), idx@[k as int]);
            assert(out@ =~= enc64(idx@.len() as u64) + enc_pairs(idx@.take(k + 1 as int)));
        }
        k = k + 1;
    }
    proof {
        assert(idx@.take(idx@.len() as int) =~= idx@);
    }
    out
}

/// Deserializes a byte artifact back into an index, or `None` when the
/// bytes are not a well-formed artifact.
pub fn load(bytes: &[u8]) -> (r: Option<PhoneticIndex>)
    ensures
        match r {
            Some(idx) => load_model(bytes@) == Some(idx@),
            None => load_model(bytes@) is None,
        },
{
    if bytes.len() < 8 {
        return None;
    }
    let count = read_u64(bytes, 0);
    proof {
        assert(bytes@.take(8) =~= bytes@.subrange(0, 8));
    }
    let mut pairs: Vec<IndexPair> = Vec::new();
    let mut pos: usize = 8;
    let mut remaining: u64 = count;
    while remaining > 0
        invariant
            8 <= pos <= bytes@.len(),
            remaining <= count,
            count == dec64(bytes@.take(8)),
            dec_pairs(bytes@.skip(8), count as nat) == (match dec_pairs(
                bytes@.skip(pos as int),
                remaining as nat,
            ) {
                Some(rest) => Some(pairs@.map_values(|p: IndexPair| p@) + rest),
                None => None::<Seq<PairModel>>,
            }),
        decreases remaining,
    {
        let ghost b = bytes@.skip(pos as int);
        let ghost before = pairs@.map_values(|p: IndexPair| p@);
        if bytes.len() - pos < 8 {
            return None;
        }
        let klen64 = read_u64(bytes, pos);
        proof {
            assert(b.take(8) =~= bytes@.subrange(pos as int, pos + 8));
        }
        if klen64 > (bytes.len() - pos - 8) as u64 {
            proof {
                assert(b.len() < 8 + dec64(b.take(8)) as int);
            }
            return None;
        }
        let klen = klen64 as usize;
        let key = bytes_of_slice(bytes, pos + 8, pos + 8 + klen);
        let pos2 = pos + 8 + klen;
        let ghost b2 = b.skip(8 + klen as int);
        proof {
            assert(key@ =~= b.subrange(8, 8 + klen as int));
            assert(b2 =~= bytes@.skip(pos2 as int));
        }
        if bytes.len() - pos2 < 8 {
            return None;
        }
        let wlen64 = read_u64(bytes, pos2);
        proof {
            assert(b2.take(8) =~= bytes@.subrange(pos2 as int, pos2 + 8));
        }
        if wlen64 > (bytes.len() - pos2 - 8) as u64 {
            proof {
                assert(b2.len() < 8 + dec64(b2.take(8)) as int);
            }
            return None;
        }
        let wlen = wlen64 as usize;
        let word = bytes_of_slice(bytes, pos2 + 8, pos2 + 8 + wlen);
        let pos3 = pos2 + 8 + wlen;
        proof {
            assert(word@ =~= b2.subrange(8, 8 + wlen as int));
            assert(b2.skip(8 + wlen as int) =~= bytes@.skip(pos3 as int));
        }
        pairs.push(IndexPair { key, word });
        proof {
            assert(pairs@.map_values(|p: IndexPair| p@) =~= before.push(
                PairModel { key: key@, word: word@ },
            ));
            assert forall|rest: Seq<PairModel>|
                seq![PairModel { key: key@, word: word@ }] + rest =~= Seq::<
                    PairModel,
                >::empty().push(PairModel { key: key@, word: word@ }) + rest by {}
            assert(forall|rest: Seq<PairModel>|
                before + (seq![PairModel { key: key@, word: word@ }] + rest)
                    =~= pairs@.map_values(|p: IndexPair| p@) + rest);
        }
        pos = pos3;
        remaining = remaining - 1;
    }
    if pos != bytes.len() {
        proof {
            assert(bytes@.skip(pos as int).len() != 0);
        }
        return None;
    }
    proof {
        assert(bytes@.skip(pos as int).len() == 0);
        assert(pairs@.map_values(|p: IndexPair| p@) + Seq::<PairModel>::empty()
            =~= pairs@.map_values(|p: IndexPair| p@));
    }
    Some(PhoneticIndex { pairs })
}

proof fn lemma_dec_enc_pairs(ps: Seq<PairModel>)
    requires
        forall|i: int| 0 <= i < ps.len() ==> (#[trigger] ps[i]).key.len() <= u64::MAX && ps[i].word.len()
            <= u64::MAX,
    ensures
        dec_pairs(enc_pairs(ps), ps.len() as nat) == Some(ps),
    decreases ps.len(),
{
    if ps.len() == 0 {
    } else {
        let p = ps[0];
        let b = enc_pairs(ps);
        let rest_enc = enc_pairs(ps.drop_first());
        lemma_enc64_roundtrip(p.key.len() as u64);
        lemma_enc64_roundtrip(p.word.len() as u64);
        assert(b == enc_pair(p) + rest_enc);
        assert(b.take(8) =~= enc64(p.key.len() as u64));
        let klen = p.key.len() as int;
        assert(b.len() >= 8 + klen);
        assert(b.subrange(8, 8 + klen) =~= p.key);
        let b2 = b.skip(8 + klen);
        assert(b2 =~= enc64(p.word.len() as u64) + p.word + rest_enc);
        assert(b2.take(8) =~= enc64(p.word.len() as u64));
        let wlen = p.word.len() as int;
        assert(b2.len() >= 8 + wlen);
        assert(b2.subrange(8, 8 + wlen) =~= p.word);
        assert(b2.skip(8 + wlen) =~= rest_enc);
        lemma_dec_enc_pairs(ps.drop_first());
        assert(seq![PairModel { key: p.key, word: p.word }] + ps.drop_first() =~= ps);
        assert(PairModel { key: p.key, word: p.word } == p);
    }
}

/// Law: persisting round-trips losslessly. Loading what was saved yields
/// an index with the identical ordered (key, word) pairs — and so the
/// identical key-to-word contents — for any index, each of the six
/// variants included.
pub proof fn lemma_save_load_roundtrip(ps: Seq<PairModel>)
    requires
        ps.len() <= u64::MAX,
        forall|i: int| 0 <= i < ps.len() ==> (#[trigger] ps[i]).key.len() <= u64::MAX && ps[i].word.len()
            <= u64::MAX,
    ensures
        load_model(save_model(ps)) == Some(ps),
{
    let b = save_model(ps);
    lemma_enc64_roundtrip(ps.len() as u64);
    assert(b.take(8) =~= enc64(ps.len() as u64));
    assert(b.skip(8) =~= enc_pairs(ps));
    lemma_dec_enc_pairs(ps);
}

} // verus!
