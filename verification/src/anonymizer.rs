//! Deterministic header anonymization with an exported mapping.
//!
//! Two passes: the first counts header lines to fix the zero-padded label
//! width, the second replaces each header line with a synthetic label in
//! encounter order and records the (original, synthetic) pairs.

use vstd::prelude::*;
use crate::errors::FastaError;
use crate::lines::{is_header_line, lines_view, spec_lines, split_lines};
use crate::text::{chars_of, push_all, string_from_chars};

verus! {

/// Decimal digit character for a value below ten.
pub open spec fn dec_digit(v: int) -> char {
    if v == 0 { '0' }
    else if v == 1 { '1' }
    else if v == 2 { '2' }
    else if v == 3 { '3' }
    else if v == 4 { '4' }
    else if v == 5 { '5' }
    else if v == 6 { '6' }
    else if v == 7 { '7' }
    else if v == 8 { '8' }
    else { '9' }
}

/// The decimal representation of a number, most significant digit first.
pub open spec fn dec_rep(n: nat) -> Seq<char>
    decreases n,
{
    if n < 10 {
        seq![dec_digit(n as int)]
    } else {
        dec_rep(n / 10).push(dec_digit((n % 10) as int))
    }
}

/// `k` zero characters.
pub open spec fn zeros(k: nat) -> Seq<char> {
    Seq::new(k, |i: int| '0')
}

/// The decimal representation padded with leading zeros to width `w`; a
/// representation already at least `w` digits wide stays as it is.
pub open spec fn padded_dec(n: nat, w: nat) -> Seq<char> {
    if dec_rep(n).len() >= w {
        dec_rep(n)
    } else {
        zeros((w - dec_rep(n).len()) as nat) + dec_rep(n)
    }
}

/// The synthetic header label for the zero-based index `idx` at width `w`.
pub open spec fn spec_label(idx: nat, w: nat) -> Seq<char> {
    seq!['>', 'A'] + padded_dec(idx, w) + seq!['B']
}

/// The label width: the decimal digit count of the header count (one for
/// zero).
pub open spec fn spec_width(k: nat) -> nat {
    dec_rep(k).len()
}

/// Number of header lines.
pub open spec fn count_headers(ls: Seq<Seq<char>>) -> nat
    decreases ls.len(),
{
    if ls.len() == 0 {
        0
    } else {
        (if is_header_line(ls[0]) {
            1nat
        } else {
            0nat
        }) + count_headers(ls.drop_first())
    }
}

/// The header lines, in encounter order.
pub open spec fn headers_of(ls: Seq<Seq<char>>) -> Seq<Seq<char>>
    decreases ls.len(),
{
    if ls.len() == 0 {
        Seq::empty()
    } else {
        (if is_header_line(ls[0]) {
            seq![ls[0]]
        } else {
            Seq::<Seq<char>>::empty()
        }) + headers_of(ls.drop_first())
    }
}

/// The rewritten text: header lines replaced by labels numbered from
/// `idx`, every line closed with a line feed.
pub open spec fn rename_lines(ls: Seq<Seq<char>>, idx: nat, w: nat) -> Seq<char>
    decreases ls.len(),
{
    if ls.len() == 0 {
        Seq::empty()
    } else if is_header_line(ls[0]) {
        spec_label(idx, w) + seq!['\n'] + rename_lines(ls.drop_first(), idx + 1, w)
    } else {
        ls[0] + seq!['\n'] + rename_lines(ls.drop_first(), idx, w)
    }
}

/// The anonymized form of a text.
pub open spec fn spec_rename(s: Seq<char>) -> Seq<char> {
    rename_lines(spec_lines(s), 0, spec_width(count_headers(spec_lines(s))))
}

/// There are as many header lines as `count_headers` says.
pub proof fn lemma_headers_count(ls: Seq<Seq<char>>)
    ensures
        headers_of(ls).len() == count_headers(ls),
    decreases ls.len(),
{
    if ls.len() > 0 {
        lemma_headers_count(ls.drop_first());
    }
}

/// Decimal digit character of a value below ten.
fn dec_digit_exec(v: usize) -> (c: char)
    requires
        v < 10,
    ensures
        c == dec_digit(v as int),
{
    if v == 0 { '0' }
    else if v == 1 { '1' }
    else if v == 2 { '2' }
    else if v == 3 { '3' }
    else if v == 4 { '4' }
    else if v == 5 { '5' }
    else if v == 6 { '6' }
    else if v == 7 { '7' }
    else if v == 8 { '8' }
    else { '9' }
}

/// Appends the decimal representation of `n`.
fn push_dec(n: usize, out: &mut Vec<char>)
    ensures
        final(out)@ == old(out)@ + dec_rep(n as nat),
    decreases n,
{
    if n < 10 {
        out.push(dec_digit_exec(n));
        proof {
            assert(old(out)@ + dec_rep(n as nat) =~= old(out)@.push(dec_digit(n as int)));
        }
    } else {
        push_dec(n / 10, out);
        out.push(dec_digit_exec(n % 10));
        proof {
            assert(old(out)@ + dec_rep(n as nat) =~= (old(out)@ + dec_rep(
                n as nat / 10,
            )).push(dec_digit((n % 10) as int)));
        }
    }
}

/// The decimal digit count of `n`.
fn dec_width(n: usize) -> (w: usize)
    ensures
        w == spec_width(n as nat),
        w <= n / 10 + 1,
    decreases n,
{
    if n < 10 {
        1
    } else {
        let sub = dec_width(n / 10);
        proof {
            let m = n as int / 10;
            assert(m / 10 + 1 <= m) by (nonlinear_arith)
                requires
                    m >= 1,
            ;
        }
        sub + 1
    }
}

/// The label characters for index `idx` at width `w`.
fn label_chars(idx: usize, w: usize) -> (r: Vec<char>)
    ensures
        r@ == spec_label(idx as nat, w as nat),
{
    let mut digits: Vec<char> = Vec::new();
    push_dec(idx, &mut digits);
    proof {
        assert(digits@ =~= dec_rep(idx as nat));
    }
    let mut r: Vec<char> = Vec::new();
    r.push('>');
    r.push('A');
    if digits.len() < w {
        let pad = w - digits.len();
        let mut p: usize = 0;
        while p < pad
            invariant
                p <= pad,
                r@ == seq!['>', 'A'] + zeros(p as nat),
            decreases pad - p,
        {
            r.push('0');
            proof {
                assert(seq!['>', 'A'] + zeros((p + 1) as nat) =~= (seq!['>', 'A'] + zeros(
                    p as nat,
                )).push('0'));
            }
            p = p + 1;
        }
        proof {
            assert(r@ == seq!['>', 'A'] + zeros(pad as nat));
        }
    }
    push_all(&mut r, &digits);
    r.push('B');
    proof {
        assert(r@ =~= spec_label(idx as nat, w as nat));
    }
    r
}

/// Replaces each header line with a synthetic zero-padded label and
/// reports the mapping from original to synthetic header in encounter
/// order. Every emitted line, the last included, is closed with a line
/// feed. The call always succeeds; the `Result` mirrors the error channel
/// of the surrounding pipeline.
pub fn rename_headers_in_output(output: &str) -> (r: Result<
    (String, Vec<(String, String)>),
    FastaError,
>)
    ensures
        match r {
            Ok(p) => {
                let ls = spec_lines(output@);
                let w = spec_width(count_headers(ls));
                &&& p.0@ == spec_rename(output@)
                &&& p.1@.len() == count_headers(ls)
                &&& forall|i: int|
                    0 <= i < p.1@.len() ==> (#[trigger] p.1@[i]).0@ == headers_of(ls)[i] && p.1@[
                        i
                    ].1@ == spec_label(i as nat, w)
            },
            Err(_) => false,
        },
{
    let v = chars_of(output);
    let ls = split_lines(&v);
    let ghost lsv = lines_view(ls@);
    proof {
        assert(lsv == spec_lines(output@));
    }
    // First pass: count the headers.
    let mut count: usize = 0;
    let mut k: usize = 0;
    proof {
        assert(lsv.skip(0) =~= lsv);
    }
    while k < ls.len()
        invariant
            k <= ls@.len(),
            lsv == lines_view(ls@),
            count <= k,
            count_headers(lsv) == count + count_headers(lsv.skip(k as int)),
        decreases ls@.len() - k,
    {
        let line = &ls[k];
        proof {
            assert(lsv.skip(k as int)[0] == lsv[k as int]);
            assert(lsv[k as int] == line@);
            assert(lsv.skip(k as int).drop_first() =~= lsv.skip(k as int + 1));
        }
        if line.len() > 0 && line[0] == '>' {
            count = count + 1;
        }
        k = k + 1;
    }
    proof {
        assert(lsv.skip(lsv.len() as int) =~= Seq::<Seq<char>>::empty());
        assert(count == count_headers(lsv));
    }
    let width = dec_width(count);
    // Second pass: rewrite lines and record the mapping.
    let ghost w = spec_width(count_headers(lsv));
    let mut out: Vec<char> = Vec::new();
    let mut maps: Vec<(String, String)> = Vec::new();
    let mut idx: usize = 0;
    let mut j: usize = 0;
    proof {
        assert(lsv.skip(0) =~= lsv);
        assert(Seq::<char>::empty() + rename_lines(lsv, 0, w) =~= rename_lines(lsv, 0, w));
        lemma_headers_count(lsv);
        assert(headers_of(lsv) =~= maps@.map_values(|p: (String, String)| p.0@) + headers_of(
            lsv.skip(0),
        ));
    }
    while j < ls.len()
        invariant
            j <= ls@.len(),
            lsv == lines_view(ls@),
            idx == maps@.len(),
            idx <= j,
            width as nat == w,
            rename_lines(lsv, 0, w) == out@ + rename_lines(lsv.skip(j as int), idx as nat, w),
            headers_of(lsv) == maps@.map_values(|p: (String, String)| p.0@) + headers_of(
                lsv.skip(j as int),
            ),
            forall|i: int|
                0 <= i < maps@.len() ==> (#[trigger] maps@[i]).1@ == spec_label(i as nat, w),
        decreases ls@.len() - j,
    {
        let ghost out0 = out@;
        let ghost maps0 = maps@;
        let line = &ls[j];
        proof {
            assert(lsv.skip(j as int)[0] == lsv[j as int]);
            assert(lsv[j as int] == line@);
            assert(lsv.skip(j as int).drop_first() =~= lsv.skip(j as int + 1));
        }
        if line.len() > 0 && line[0] == '>' {
            let label = label_chars(idx, width);
            let original = string_from_chars(line);
            let synthetic = string_from_chars(&label);
            push_all(&mut out, &label);
            out.push('\n');
            maps.push((original, synthetic));
            idx = idx + 1;
            proof {
                assert(rename_lines(lsv.skip(j as int), (idx - 1) as nat, w) == spec_label(
                    (idx - 1) as nat,
                    w,
                ) + seq!['\n'] + rename_lines(lsv.skip(j as int + 1), idx as nat, w));
                assert(out@ =~= out0 + (spec_label((idx - 1) as nat, w) + seq!['\n']));
                assert(out0 + (spec_label((idx - 1) as nat, w) + seq!['\n'] + rename_lines(
                    lsv.skip(j as int + 1),
                    idx as nat,
                    w,
                )) =~= out@ + rename_lines(lsv.skip(j as int + 1), idx as nat, w));
                assert(headers_of(lsv.skip(j as int)) == seq![line@] + headers_of(
                    lsv.skip(j as int + 1),
                ));
                assert(maps@.map_values(|p: (String, String)| p.0@) =~= maps0.map_values(
                    |p: (String, String)| p.0@,
                ).push(line@));
                assert(maps0.map_values(|p: (String, String)| p.0@) + (seq![line@] + headers_of(
                    lsv.skip(j as int + 1),
                )) =~= maps@.map_values(|p: (String, String)| p.0@) + headers_of(
                    lsv.skip(j as int + 1),
                ));
            }
        } else {
            push_all(&mut out, line);
            out.push('\n');
            proof {
                assert(!is_header_line(line@));
                assert(rename_lines(lsv.skip(j as int), idx as nat, w) == line@ + seq!['\n']
                    + rename_lines(lsv.skip(j as int + 1), idx as nat, w));
                assert(out@ =~= out0 + (line@ + seq!['\n']));
                assert(out0 + (line@ + seq!['\n'] + rename_lines(
                    lsv.skip(j as int + 1),
                    idx as nat,
                    w,
                )) =~= out@ + rename_lines(lsv.skip(j as int + 1), idx as nat, w));
                assert(headers_of(lsv.skip(j as int)) =~= headers_of(lsv.skip(j as int + 1)));
            }
        }
        j = j + 1;
    }
    proof {
        assert(lsv.skip(lsv.len() as int) =~= Seq::<Seq<char>>::empty());
        assert(out@ + Seq::<char>::empty() =~= out@);
        assert(maps@.map_values(|p: (String, String)| p.0@) + Seq::<Seq<char>>::empty()
            =~= maps@.map_values(|p: (String, String)| p.0@));
        lemma_headers_count(lsv);
        assert forall|i: int| 0 <= i < maps@.len() implies (#[trigger] maps@[i]).0@ == headers_of(
            lsv,
        )[i] by {
            assert(maps@.map_values(|p: (String, String)| p.0@)[i] == maps@[i].0@);
        }
    }
    let text = string_from_chars(&out);
    Ok((text, maps))
}

} // verus!
