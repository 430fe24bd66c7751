//! The persisted sketch format: a variable-length integer holding the word
//! count, followed by the words as raw fixed-length blocks. Decoding is
//! strict: a non-minimal count encoding, a duplicated word, a length that is
//! not an exact multiple of the word length, or trailing bytes all fail.
use vstd::prelude::*;
use vstd::arithmetic::div_mod::lemma_fundamental_div_mod;

verus! {

use crate::KMER_LEN;
use crate::is_kmer;
use crate::sketch::Sketch;

/// Minimal little-endian base-128 encoding of `n`: seven payload bits per
/// byte, the high bit marking a continuation.
pub open spec fn encode_varint(n: nat) -> Seq<u8>
    decreases n,
{
    if n < 128 {
        seq![n as u8]
    } else {
        seq![(128 + n % 128) as u8] + encode_varint(n / 128)
    }
}

/// Reads a minimally-encoded count at `pos`; yields the value and the
/// position after it.
pub open spec fn parse_varint(b: Seq<u8>, pos: int) -> Option<(nat, int)>
    decreases b.len() - pos,
{
    if pos < 0 || pos >= b.len() {
        None
    } else if b[pos] < 128 {
        Some((b[pos] as nat, pos + 1))
    } else {
        match parse_varint(b, pos + 1) {
            None => None,
            Some((hi, p)) => if hi == 0 {
                None
            } else {
                Some((((b[pos] - 128) + 128 * hi) as nat, p))
            },
        }
    }
}

/// The words laid out in order, each as one fixed-length block.
pub open spec fn concat_words(ws: Seq<Seq<u8>>) -> Seq<u8>
    decreases ws.len(),
{
    if ws.len() == 0 {
        Seq::empty()
    } else {
        ws.first() + concat_words(ws.drop_first())
    }
}

/// The encoding of a word list: its count, then its blocks.
pub open spec fn spec_encode(ws: Seq<Seq<u8>>) -> Seq<u8> {
    encode_varint(ws.len() as nat) + concat_words(ws)
}

/// `n` fixed-length blocks starting at `pos`.
pub open spec fn extract_words(b: Seq<u8>, pos: int, n: nat) -> Seq<Seq<u8>>
    decreases n,
{
    if n == 0 {
        Seq::empty()
    } else {
        seq![b.subrange(pos, pos + KMER_LEN)] + extract_words(b, pos + KMER_LEN, (n - 1) as nat)
    }
}

/// What a byte stream decodes to, if anything: the exact word list a strict
/// decoder recovers.
pub open spec fn spec_decode(b: Seq<u8>) -> Option<Seq<Seq<u8>>> {
    match parse_varint(b, 0) {
        None => None,
        Some((n, p)) => if b.len() - p == n * KMER_LEN {
            let ws = extract_words(b, p, n);
            if ws.no_duplicates() {
                Some(ws)
            } else {
                None
            }
        } else {
            None
        },
    }
}

/// A byte stream is decodable when the strict decoder accepts it.
pub open spec fn decodable(b: Seq<u8>) -> bool {
    spec_decode(b) is Some
}

/// The element set a decodable byte stream denotes.
pub open spec fn decoded_set(b: Seq<u8>) -> Set<Seq<u8>> {
    spec_decode(b).unwrap().to_set()
}

proof fn lemma_parse_varint_bounds(b: Seq<u8>, pos: int)
    ensures
        parse_varint(b, pos) matches Some((v, p)) ==> pos < p <= b.len(),
    decreases b.len() - pos,
{
    if 0 <= pos < b.len() && b[pos] >= 128 {
        lemma_parse_varint_bounds(b, pos + 1);
    }
}

proof fn lemma_parse_varint_at(b: Seq<u8>, pos: int, n: nat)
    requires
        0 <= pos,
        pos + encode_varint(n).len() <= b.len(),
        b.subrange(pos, pos + encode_varint(n).len()) == encode_varint(n),
    ensures
        parse_varint(b, pos) == Some((n, pos + encode_varint(n).len())),
    decreases n,
{
    if n < 128 {
        assert(b[pos] == encode_varint(n)[0]);
    } else {
        let tail = encode_varint(n / 128);
        assert(b[pos] == (seq![(128 + n % 128) as u8] + tail)[0]);
        assert(b[pos] == (128 + n % 128) as u8);
        assert(b.subrange(pos + 1, pos + 1 + tail.len()) =~= tail) by {
            assert forall|k: int| 0 <= k < tail.len() implies b.subrange(
                pos + 1,
                pos + 1 + tail.len(),
            )[k] == tail[k] by {
                assert(b.subrange(pos, pos + encode_varint(n).len())[k + 1] == encode_varint(n)[k
                    + 1]);
            }
        }
        lemma_parse_varint_at(b, pos + 1, n / 128);
        assert(n / 128 >= 1) by {
            lemma_fundamental_div_mod(n as int, 128);
        }
        assert((b[pos] - 128) + 128 * (n / 128) == n) by {
            lemma_fundamental_div_mod(n as int, 128);
        }
    }
}

proof fn lemma_concat_push(ws: Seq<Seq<u8>>, x: Seq<u8>)
    ensures
        concat_words(ws.push(x)) == concat_words(ws) + x,
    decreases ws.len(),
{
    if ws.len() == 0 {
        assert(ws.push(x).drop_first() =~= Seq::<Seq<u8>>::empty());
        assert(ws.push(x).first() == x);
        assert(concat_words(ws.push(x)) == x + concat_words(Seq::<Seq<u8>>::empty()));
        assert(concat_words(ws) == Seq::<u8>::empty());
        assert(x + Seq::<u8>::empty() =~= Seq::<u8>::empty() + x);
    } else {
        assert(ws.push(x).drop_first() =~= ws.drop_first().push(x));
        lemma_concat_push(ws.drop_first(), x);
        assert(ws.push(x).first() == ws.first());
        assert(concat_words(ws.push(x)) == ws.first() + (concat_words(ws.drop_first()) + x));
        assert(ws.first() + (concat_words(ws.drop_first()) + x) =~= (ws.first() + concat_words(
            ws.drop_first(),
        )) + x);
    }
}

proof fn lemma_concat_len(ws: Seq<Seq<u8>>)
    requires
        forall|i: int| 0 <= i < ws.len() ==> is_kmer(#[trigger] ws[i]),
    ensures
        concat_words(ws).len() == ws.len() * KMER_LEN,
    decreases ws.len(),
{
    if ws.len() > 0 {
        assert(forall|i: int|
            0 <= i < ws.drop_first().len() ==> is_kmer(#[trigger] ws.drop_first()[i]));
        lemma_concat_len(ws.drop_first());
        assert(is_kmer(ws[0]));
    }
}

proof fn lemma_extract_concat(b: Seq<u8>, pos: int, ws: Seq<Seq<u8>>)
    requires
        0 <= pos,
        forall|i: int| 0 <= i < ws.len() ==> is_kmer(#[trigger] ws[i]),
        pos + ws.len() * KMER_LEN <= b.len(),
        b.subrange(pos, pos + ws.len() * KMER_LEN) == concat_words(ws),
    ensures
        extract_words(b, pos, ws.len() as nat) == ws,
    decreases ws.len(),
{
    if ws.len() > 0 {
        let rest = ws.drop_first();
        assert(is_kmer(ws[0]));
        lemma_concat_len(rest);
        assert(concat_words(ws) == ws.first() + concat_words(rest));
        assert(b.subrange(pos, pos + KMER_LEN) =~= ws.first()) by {
            assert forall|k: int| 0 <= k < KMER_LEN implies b.subrange(pos, pos + KMER_LEN)[k]
                == ws.first()[k] by {
                assert(b.subrange(pos, pos + ws.len() * KMER_LEN)[k] == concat_words(ws)[k]);
            }
        }
        assert(b.subrange(pos + KMER_LEN, pos + KMER_LEN + rest.len() * KMER_LEN) =~= concat_words(
            rest,
        )) by {
            assert forall|k: int| 0 <= k < rest.len() * KMER_LEN implies b.subrange(
                pos + KMER_LEN,
                pos + KMER_LEN + rest.len() * KMER_LEN,
            )[k] == concat_words(rest)[k] by {
                assert(b.subrange(pos, pos + ws.len() * KMER_LEN)[k + KMER_LEN] == concat_words(
                    ws,
                )[k + KMER_LEN]);
                assert(concat_words(ws)[k + KMER_LEN] == concat_words(rest)[k]);
            }
        }
        lemma_extract_concat(b, pos + KMER_LEN, rest);
        assert(extract_words(b, pos, ws.len() as nat) =~= ws);
    } else {
        assert(extract_words(b, pos, 0) =~= ws);
    }
}

proof fn lemma_extract_index(b: Seq<u8>, pos: int, n: nat, k: int)
    requires
        0 <= k < n,
    ensures
        extract_words(b, pos, n).len() == n,
        extract_words(b, pos, n)[k] == b.subrange(
            pos + k * KMER_LEN,
            pos + k * KMER_LEN + KMER_LEN,
        ),
    decreases n,
{
    lemma_extract_len(b, pos, n);
    if k > 0 {
        lemma_extract_index(b, pos + KMER_LEN, (n - 1) as nat, k - 1);
        assert((k - 1) * KMER_LEN == k * KMER_LEN - KMER_LEN) by (nonlinear_arith);
    }
}

proof fn lemma_extract_len(b: Seq<u8>, pos: int, n: nat)
    ensures
        extract_words(b, pos, n).len() == n,
    decreases n,
{
    if n > 0 {
        lemma_extract_len(b, pos + KMER_LEN, (n - 1) as nat);
    }
}

/// Writes the minimal base-128 encoding of `n` after the given bytes.
fn emit_varint(out: &mut Vec<u8>, n: usize)
    ensures
        final(out)@ == old(out)@ + encode_varint(n as nat),
{
    let ghost prefix = out@;
    let mut cur: usize = n;
    while cur >= 128
        invariant
            out@ + encode_varint(cur as nat) == prefix + encode_varint(n as nat),
        decreases cur,
    {
        let byte: u8 = (cur % 128) as u8 + 128;
        proof {
            assert(encode_varint(cur as nat) == seq![byte] + encode_varint((cur / 128) as nat));
            assert(out@.push(byte) + encode_varint((cur / 128) as nat) =~= out@ + encode_varint(
                cur as nat,
            ));
        }
        out.push(byte);
        cur = cur / 128;
    }
    proof {
        assert(encode_varint(cur as nat) == seq![cur as u8]);
        assert(out@.push(cur as u8) =~= out@ + encode_varint(cur as nat));
    }
    out.push(cur as u8);
}

/// Encodes a sketch: its word count as a variable-length integer, then its
/// words as raw blocks. The strict decoder recovers exactly the word list.
pub fn encode_sketch(s: &Sketch) -> (r: Vec<u8>)
    requires
        s.wf(),
    ensures
        r@ == spec_encode(s.kseq()),
        spec_decode(r@) == Some(s.kseq()),
        decoded_set(r@) == s@,
{
    proof {
        s.lemma_wf_words();
        s.lemma_view_is_kseq_to_set();
    }
    let ghost ks = s.kseq();
    let n = s.word_count();
    let mut out: Vec<u8> = Vec::new();
    emit_varint(&mut out, n);
    proof {
        assert(out@ =~= encode_varint(n as nat));
    }
    let ghost header = out@;
    let mut i: usize = 0;
    while i < n
        invariant
            s.wf(),
            ks == s.kseq(),
            n == ks.len(),
            header == encode_varint(n as nat),
            0 <= i <= n,
            out@ == header + concat_words(ks.take(i as int)),
        decreases n - i,
    {
        let w = s.word_at(i);
        let mut j: usize = 0;
        let ghost before = out@;
        while j < w.len()
            invariant
                0 <= j <= w.len(),
                out@ == before + w@.subrange(0, j as int),
            decreases w.len() - j,
        {
            out.push(w[j]);
            proof {
                assert(before + w@.subrange(0, j as int) + seq![w@[j as int]] =~= before
                    + w@.subrange(0, j + 1));
            }
            j += 1;
        }
        proof {
            assert(w@.subrange(0, w@.len() as int) =~= w@);
            lemma_concat_push(ks.take(i as int), ks[i as int]);
            assert(ks.take(i as int).push(ks[i as int]) =~= ks.take(i + 1));
            assert(out@ =~= header + concat_words(ks.take(i + 1)));
        }
        i += 1;
    }
    proof {
        assert(ks.take(ks.len() as int) =~= ks);
        assert(out@ =~= spec_encode(ks));
        lemma_concat_len(ks);
        assert(out@.subrange(0, encode_varint(n as nat).len() as int) =~= encode_varint(n as nat));
        lemma_parse_varint_at(out@, 0, n as nat);
        let p = encode_varint(n as nat).len() as int;
        assert(out@.len() - p == n * KMER_LEN);
        assert(out@.subrange(p, p + ks.len() * KMER_LEN) =~= concat_words(ks));
        lemma_extract_concat(out@, p, ks);
        assert(spec_decode(out@) == Some(ks));
    }
    out
}

/// Reads a count at `pos`; rejects a non-minimal encoding and a value that
/// does not fit the machine word.
fn read_varint(b: &Vec<u8>, pos: usize) -> (r: Option<(usize, usize)>)
    ensures
        match r {
            Some(vp) => parse_varint(b@, pos as int) == Some((vp.0 as nat, vp.1 as int)),
            None => match parse_varint(b@, pos as int) {
                None => true,
                Some((v, p)) => v > usize::MAX,
            },
        },
    decreases b@.len() - pos,
{
    if pos >= b.len() {
        return None;
    }
    let byte = b[pos];
    if byte < 128 {
        Some((byte as usize, pos + 1))
    } else {
        match read_varint(b, pos + 1) {
            None => {
                proof {
                    if parse_varint(b@, pos as int) is Some {
                        let (hi, p) = parse_varint(b@, pos + 1).unwrap();
                        assert(hi <= 128 * hi) by (nonlinear_arith)
                            requires
                                hi >= 0,
                        ;
                    }
                }
                None
            },
            Some((hi, p)) => {
                if hi == 0 {
                    None
                } else {
                    let low = (byte - 128) as usize;
                    let q = (usize::MAX - low) / 128;
                    proof {
                        lemma_fundamental_div_mod((usize::MAX - low) as int, 128);
                    }
                    if hi > q {
                        proof {
                            assert(128 * hi >= 128 * (q + 1)) by (nonlinear_arith)
                                requires
                                    hi >= q + 1,
                            ;
                        }
                        None
                    } else {
                        proof {
                            assert(128 * hi <= 128 * q) by (nonlinear_arith)
                                requires
                                    hi <= q,
                            ;
                        }
                        Some((low + 128 * hi, p))
                    }
                }
            },
        }
    }
}

/// Decodes a byte stream into a sketch. Strict: fails on a malformed or
/// non-minimal count, a word list whose byte length does not match the
/// count (including trailing bytes), and a duplicated word.
pub fn decode_sketch(b: &Vec<u8>) -> (r: Option<Sketch>)
    ensures
        match r {
            Some(s) => decodable(b@) && s.wf() && s@ == decoded_set(b@),
            None => !decodable(b@),
        },
{
    proof {
        lemma_parse_varint_bounds(b@, 0);
    }
    let blen = b.len();
    let parsed = read_varint(b, 0);
    match parsed {
        None => {
            proof {
                if parse_varint(b@, 0) is Some {
                    let (v, p) = parse_varint(b@, 0).unwrap();
                    assert(v <= v * KMER_LEN) by (nonlinear_arith)
                        requires
                            v >= 0,
                            KMER_LEN >= 1,
                    ;
                }
            }
            None
        },
        Some((n, p)) => {
            let rest = b.len() - p;
            if rest % KMER_LEN != 0 || rest / KMER_LEN != n {
                proof {
                    lemma_fundamental_div_mod(rest as int, KMER_LEN as int);
                    if b@.len() - p == n * KMER_LEN {
                        vstd::arithmetic::div_mod::lemma_div_multiples_vanish(
                            n as int,
                            KMER_LEN as int,
                        );
                        vstd::arithmetic::div_mod::lemma_mod_multiples_basic(
                            n as int,
                            KMER_LEN as int,
                        );
                    }
                }
                return None;
            }
            proof {
                lemma_fundamental_div_mod(rest as int, KMER_LEN as int);
            }
            let ghost ws = extract_words(b@, p as int, n as nat);
            proof {
                lemma_extract_len(b@, p as int, n as nat);
                assert(p + n * KMER_LEN == b@.len());
                assert(ws.take(0) =~= Seq::<Seq<u8>>::empty());
                assert(ws.take(0).to_set() =~= Set::<Seq<u8>>::empty());
            }
            let mut s = Sketch::new();
            let mut i: usize = 0;
            while i < n
                invariant
                    ws == extract_words(b@, p as int, n as nat),
                    ws.len() == n,
                    parse_varint(b@, 0) == Some((n as nat, p as int)),
                    p + n * KMER_LEN == b@.len(),
                    b@.len() <= usize::MAX,
                    0 <= i <= n,
                    s.wf(),
                    ws.take(i as int).no_duplicates(),
                    s@ == ws.take(i as int).to_set(),
                    forall|k: int| 0 <= k < i ==> is_kmer(#[trigger] ws[k]),
                decreases n - i,
            {
                proof {
                    assert(i * KMER_LEN <= n * KMER_LEN && i * KMER_LEN + KMER_LEN <= n * KMER_LEN)
                        by (nonlinear_arith)
                        requires
                            0 <= i < n,
                            KMER_LEN >= 1,
                    ;
                }
                let start = p + i * KMER_LEN;
                let mut w: Vec<u8> = Vec::new();
                let mut j: usize = 0;
                while j < KMER_LEN
                    invariant
                        start + KMER_LEN <= b@.len(),
                        b@.len() <= usize::MAX,
                        0 <= j <= KMER_LEN,
                        w@ == b@.subrange(start as int, start + j),
                    decreases KMER_LEN - j,
                {
                    w.push(b[start + j]);
                    proof {
                        assert(w@ =~= b@.subrange(start as int, start + j + 1));
                    }
                    j += 1;
                }
                proof {
                    lemma_extract_index(b@, p as int, n as nat, i as int);
                    assert(w@ == ws[i as int]);
                }
                if s.contains_kmer(&w) {
                    proof {
                        let k = choose|k: int|
                            0 <= k < i && #[trigger] ws.take(i as int)[k] == ws[i as int];
                        assert(ws[k] == ws[i as int]);
                        assert(!ws.no_duplicates());
                    }
                    return None;
                }
                s.insert_kmer(w);
                proof {
                    crate::sketch::lemma_push_unique(ws.take(i as int), ws[i as int]);
                    assert(ws.take(i as int).push(ws[i as int]) =~= ws.take(i + 1));
                    assert(ws.take(i + 1).no_duplicates());
                    assert(s@ == ws.take(i + 1).to_set());
                }
                i += 1;
            }
            proof {
                assert(ws.take(n as int) =~= ws);
                assert(spec_decode(b@) == Some(ws));
            }
            Some(s)
        },
    }
}

} // verus!

