//! Result rendering: each k-mer of the result sketch becomes a sequence
//! record of two lines, a header naming its position and the word itself.
use vstd::prelude::*;

verus! {

use crate::sketch::Sketch;
use crate::sketch::clone_bytes;
use crate::parse::lines_view;

/// The decimal digits of `n`, most significant first.
pub open spec fn decimal_digits(n: nat) -> Seq<u8>
    decreases n,
{
    if n < 10 {
        seq![(48 + n) as u8]
    } else {
        decimal_digits(n / 10) + seq![(48 + n % 10) as u8]
    }
}

/// Renders `n` in decimal.
pub fn render_decimal(n: usize) -> (r: Vec<u8>)
    ensures
        r@ == decimal_digits(n as nat),
    decreases n,
{
    if n < 10 {
        let mut v: Vec<u8> = Vec::new();
        v.push(48 + n as u8);
        proof {
            assert(v@ =~= decimal_digits(n as nat));
        }
        v
    } else {
        let mut v = render_decimal(n / 10);
        v.push(48 + (n % 10) as u8);
        proof {
            assert(v@ =~= decimal_digits(n as nat));
        }
        v
    }
}

/// The header line naming record `i`.
pub open spec fn record_header(i: nat) -> Seq<u8> {
    seq![62u8, 107u8, 109u8, 101u8, 114u8] + decimal_digits(i)
}

/// The output lines for a word list: for each word, a header line naming
/// its position, then the word itself.
pub open spec fn record_lines(ws: Seq<Seq<u8>>) -> Seq<Seq<u8>>
    decreases ws.len(),
{
    if ws.len() == 0 {
        Seq::empty()
    } else {
        record_lines(ws.drop_last()) + seq![record_header((ws.len() - 1) as nat), ws.last()]
    }
}

/// Renders every word the sketch holds as a two-line sequence record, in
/// the sketch's listing order.
pub fn render_records(s: &Sketch) -> (r: Vec<Vec<u8>>)
    ensures
        lines_view(r@) == record_lines(s.kseq()),
{
    let ghost ks = s.kseq();
    let n = s.word_count();
    let mut out: Vec<Vec<u8>> = Vec::new();
    proof {
        assert(lines_view(out@) =~= record_lines(ks.take(0)));
    }
    let mut i: usize = 0;
    while i < n
        invariant
            ks == s.kseq(),
            n == ks.len(),
            0 <= i <= n,
            lines_view(out@) == record_lines(ks.take(i as int)),
        decreases n - i,
    {
        let mut header: Vec<u8> = Vec::new();
        header.push(62u8);
        header.push(107u8);
        header.push(109u8);
        header.push(101u8);
        header.push(114u8);
        let digits = render_decimal(i);
        let mut j: usize = 0;
        while j < digits.len()
            invariant
                0 <= j <= digits@.len(),
                digits@ == decimal_digits(i as nat),
                header@ == seq![62u8, 107u8, 109u8, 101u8, 114u8] + digits@.take(j as int),
            decreases digits@.len() - j,
        {
            header.push(digits[j]);
            proof {
                assert(header@ =~= seq![62u8, 107u8, 109u8, 101u8, 114u8] + digits@.take(j + 1));
            }
            j += 1;
        }
        proof {
            assert(digits@.take(digits@.len() as int) =~= digits@);
            assert(header@ == record_header(i as nat));
        }
        let word = clone_bytes(s.word_at(i));
        proof {
            assert(ks.take(i + 1).drop_last() =~= ks.take(i as int));
            assert(ks.take(i + 1).last() == ks[i as int]);
            assert(lines_view(out@.push(header).push(word)) =~= lines_view(out@) + seq![
                record_header(i as nat),
                ks[i as int],
            ]);
        }
        out.push(header);
        out.push(word);
        i += 1;
    }
    proof {
        assert(ks.take(ks.len() as int) =~= ks);
    }
    out
}

} // verus!
