//! Rule-based cleanup of the hex stream.
//!
//! Four stages, in fixed order: trim everything before the first record
//! marker pair, collapse runs of marker pairs, delete control-byte pairs
//! (line feed excepted), and normalize the terminator to exactly one line
//! feed pair. All stages step through the stream two characters at a time,
//! so pairs are kept or dropped atomically; a trailing lone character is
//! dropped.

use vstd::prelude::*;
use crate::text::{chars_of, string_from_chars};
use crate::transcoder::{
    chars_of_bytes,
    hex_val,
    is_upper_hex,
    lemma_decode_index,
    pair_val,
    spec_decode_bytes,
    spec_decode_text,
    spec_encode,
    encode_byte,
    hex_digit,
    valid_hex,
};

verus! {

/// The record-marker pair: the hex code of `>` (0x3E).
pub open spec fn is_marker_pair(a: char, b: char) -> bool {
    a == '3' && b == 'E'
}

/// The line-feed pair: the hex code 0x0A.
pub open spec fn is_newline_pair(a: char, b: char) -> bool {
    a == '0' && b == 'A'
}

/// A pair encoding a control byte other than line feed: 0x00 through 0x09
/// and 0x0B through 0x1F, written in uppercase hex.
pub open spec fn is_control_pair(a: char, b: char) -> bool {
    (a == '0' && is_upper_hex(b) && b != 'A') || (a == '1' && is_upper_hex(b))
}

/// Stage one: the suffix of the stream from the first marker pair on;
/// empty when no marker pair occurs.
pub open spec fn trim_to_marker(s: Seq<char>) -> Seq<char>
    decreases s.len(),
{
    if s.len() < 2 {
        Seq::empty()
    } else if is_marker_pair(s[0], s[1]) {
        s
    } else {
        trim_to_marker(s.skip(2))
    }
}

/// Stage two: a marker pair is dropped exactly when the pair before it was
/// a marker pair too, collapsing each run to its first pair.
pub open spec fn dedup_markers(s: Seq<char>, prev_marker: bool) -> Seq<char>
    decreases s.len(),
{
    if s.len() < 2 {
        Seq::empty()
    } else {
        let m = is_marker_pair(s[0], s[1]);
        let rest = dedup_markers(s.skip(2), m);
        if m && prev_marker {
            rest
        } else {
            seq![s[0], s[1]] + rest
        }
    }
}

/// Stage three: control-byte pairs are deleted; every other pair stays.
pub open spec fn strip_controls(s: Seq<char>) -> Seq<char>
    decreases s.len(),
{
    if s.len() < 2 {
        Seq::empty()
    } else {
        let rest = strip_controls(s.skip(2));
        if is_control_pair(s[0], s[1]) {
            rest
        } else {
            seq![s[0], s[1]] + rest
        }
    }
}

/// Stage four, first half: all trailing line-feed pairs removed.
pub open spec fn strip_trailing_newlines(s: Seq<char>) -> Seq<char>
    decreases s.len(),
{
    if s.len() >= 2 && is_newline_pair(s[s.len() - 2], s[s.len() - 1]) {
        strip_trailing_newlines(s.take(s.len() - 2))
    } else {
        s
    }
}

/// The cleaned stream: the four stages in order, ending in exactly one
/// line-feed pair.
pub open spec fn spec_clean(s: Seq<char>) -> Seq<char> {
    strip_trailing_newlines(strip_controls(dedup_markers(trim_to_marker(s), false))) + seq![
        '0',
        'A',
    ]
}

/// Whether `c` is one of the lowercase hex digit letters.
fn is_lower_hex_letter(c: char) -> (r: bool)
    ensures
        r == (c == 'a' || c == 'b' || c == 'c' || c == 'd' || c == 'e' || c == 'f'),
{
    c == 'a' || c == 'b' || c == 'c' || c == 'd' || c == 'e' || c == 'f'
}

/// Whether `c` is an uppercase hex digit.
fn is_upper_hex_exec(c: char) -> (r: bool)
    ensures
        r == is_upper_hex(c),
{
    if is_lower_hex_letter(c) {
        false
    } else {
        c == '0' || c == '1' || c == '2' || c == '3' || c == '4' || c == '5' || c == '6' || c
            == '7' || c == '8' || c == '9' || c == 'A' || c == 'B' || c == 'C' || c == 'D' || c
            == 'E' || c == 'F'
    }
}

/// Whether the pair encodes a control byte other than line feed.
fn is_control_pair_exec(a: char, b: char) -> (r: bool)
    ensures
        r == is_control_pair(a, b),
{
    (a == '0' && is_upper_hex_exec(b) && b != 'A') || (a == '1' && is_upper_hex_exec(b))
}

/// Runs the four cleanup stages over a hex stream.
pub fn clean_hex_stream(hex: &str) -> (r: String)
    ensures
        r@ == spec_clean(hex@),
{
    let v = chars_of(hex);
    // Stage one: scan pairwise for the first marker pair.
    let mut i: usize = 0;
    proof {
        assert(v@.skip(0) =~= v@);
    }
    while i + 1 < v.len() && !(v[i] == '3' && v[i + 1] == 'E')
        invariant
            i <= v@.len(),
            i % 2 == 0,
            trim_to_marker(v@) == trim_to_marker(v@.skip(i as int)),
        decreases v@.len() - i,
    {
        proof {
            let s = v@.skip(i as int);
            assert(s[0] == v@[i as int]);
            assert(s[1] == v@[i as int + 1]);
            assert(s.skip(2) =~= v@.skip(i as int + 2));
        }
        i = i + 2;
    }
    let mut t: Vec<char> = Vec::new();
    if i + 1 < v.len() {
        // A marker pair stands at `i`: keep the suffix from there.
        let mut j: usize = i;
        while j < v.len()
            invariant
                i <= j <= v@.len(),
                t@ == v@.subrange(i as int, j as int),
            decreases v@.len() - j,
        {
            t.push(v[j]);
            proof {
                assert(v@.subrange(i as int, j as int + 1) =~= v@.subrange(
                    i as int,
                    j as int,
                ).push(v@[j as int]));
            }
            j = j + 1;
        }
        proof {
            let s = v@.skip(i as int);
            assert(s[0] == v@[i as int]);
            assert(s[1] == v@[i as int + 1]);
            assert(trim_to_marker(s) == s);
            assert(t@ =~= s);
        }
    } else {
        proof {
            assert(v@.skip(i as int).len() < 2);
            assert(trim_to_marker(v@) =~= Seq::<char>::empty());
            assert(t@ =~= trim_to_marker(v@));
        }
    }
    // Stage two: collapse marker runs.
    let mut d: Vec<char> = Vec::new();
    let mut prev = false;
    let mut k: usize = 0;
    proof {
        assert(t@.skip(0) =~= t@);
        assert(Seq::<char>::empty() + dedup_markers(t@, false) =~= dedup_markers(t@, false));
    }
    while k + 1 < t.len()
        invariant
            k <= t@.len(),
            k % 2 == 0,
            dedup_markers(t@, false) == d@ + dedup_markers(t@.skip(k as int), prev),
        decreases t@.len() - k,
    {
        let a = t[k];
        let b = t[k + 1];
        let m = a == '3' && b == 'E';
        proof {
            let s = t@.skip(k as int);
            assert(s[0] == a);
            assert(s[1] == b);
            assert(s.skip(2) =~= t@.skip(k as int + 2));
            if !(m && prev) {
                assert(d@ + (seq![a, b] + dedup_markers(t@.skip(k as int + 2), m)) =~= d@ + seq![
                    a,
                    b,
                ] + dedup_markers(t@.skip(k as int + 2), m));
            }
        }
        if !(m && prev) {
            d.push(a);
            d.push(b);
        }
        prev = m;
        k = k + 2;
    }
    proof {
        assert(t@.skip(k as int).len() < 2);
        assert(dedup_markers(t@.skip(k as int), prev) =~= Seq::<char>::empty());
        assert(d@ =~= dedup_markers(t@, false));
    }
    // Stage three: delete control pairs.
    let mut c: Vec<char> = Vec::new();
    let mut k2: usize = 0;
    proof {
        assert(d@.skip(0) =~= d@);
        assert(Seq::<char>::empty() + strip_controls(d@) =~= strip_controls(d@));
    }
    while k2 + 1 < d.len()
        invariant
            k2 <= d@.len(),
            k2 % 2 == 0,
            strip_controls(d@) == c@ + strip_controls(d@.skip(k2 as int)),
        decreases d@.len() - k2,
    {
        let a = d[k2];
        let b = d[k2 + 1];
        proof {
            let s = d@.skip(k2 as int);
            assert(s[0] == a);
            assert(s[1] == b);
            assert(s.skip(2) =~= d@.skip(k2 as int + 2));
            if !is_control_pair(a, b) {
                assert(c@ + (seq![a, b] + strip_controls(d@.skip(k2 as int + 2))) =~= c@ + seq![
                    a,
                    b,
                ] + strip_controls(d@.skip(k2 as int + 2)));
            }
        }
        if !is_control_pair_exec(a, b) {
            c.push(a);
            c.push(b);
        }
        k2 = k2 + 2;
    }
    proof {
        assert(d@.skip(k2 as int).len() < 2);
        assert(strip_controls(d@.skip(k2 as int)) =~= Seq::<char>::empty());
        assert(c@ =~= strip_controls(d@));
    }
    // Stage four: drop trailing line-feed pairs, then close with one.
    while c.len() >= 2 && c[c.len() - 2] == '0' && c[c.len() - 1] == 'A'
        invariant
            strip_trailing_newlines(c@) == strip_trailing_newlines(strip_controls(d@)),
        decreases c@.len(),
    {
        let n = c.len() - 2;
        proof {
            assert(is_newline_pair(c@[c@.len() - 2], c@[c@.len() - 1]));
            assert(c@.subrange(0, n as int) =~= c@.take(c@.len() - 2));
        }
        c.truncate(n);
    }
    proof {
        assert(strip_trailing_newlines(c@) == c@);
    }
    c.push('0');
    c.push('A');
    proof {
        assert(c@ =~= spec_clean(hex@));
    }
    string_from_chars(&c)
}

/// `n` marker pairs in a row.
pub open spec fn marker_run(n: nat) -> Seq<char>
    decreases n,
{
    if n == 0 {
        Seq::empty()
    } else {
        seq!['3', 'E'] + marker_run((n - 1) as nat)
    }
}

proof fn lemma_dedup_absorbs(b: Seq<char>, m: nat)
    ensures
        dedup_markers(marker_run(m) + b, true) == dedup_markers(b, true),
    decreases m,
{
    if m == 0 {
        assert(marker_run(0) + b =~= b);
    } else {
        let s = marker_run(m) + b;
        assert(s[0] == '3' && s[1] == 'E');
        assert(s.skip(2) =~= marker_run((m - 1) as nat) + b);
        lemma_dedup_absorbs(b, (m - 1) as nat);
    }
}

proof fn lemma_dedup_collapses_rec(a: Seq<char>, n: nat, b: Seq<char>, prev: bool)
    requires
        a.len() % 2 == 0,
        n >= 1,
    ensures
        dedup_markers(a + marker_run(n) + b, prev) == dedup_markers(a + marker_run(1) + b, prev),
    decreases a.len(),
{
    if a.len() == 0 {
        let s = a + marker_run(n) + b;
        let s1 = a + marker_run(1) + b;
        assert(s =~= marker_run(n) + b);
        assert(s1 =~= marker_run(1) + b);
        assert(s[0] == '3' && s[1] == 'E');
        assert(s1[0] == '3' && s1[1] == 'E');
        assert(s.skip(2) =~= marker_run((n - 1) as nat) + b);
        assert(s1.skip(2) =~= marker_run(0) + b);
        lemma_dedup_absorbs(b, (n - 1) as nat);
        lemma_dedup_absorbs(b, 0);
    } else {
        let s = a + marker_run(n) + b;
        let s1 = a + marker_run(1) + b;
        assert(s[0] == a[0] && s[1] == a[1]);
        assert(s1[0] == a[0] && s1[1] == a[1]);
        assert(s.skip(2) =~= a.skip(2) + marker_run(n) + b);
        assert(s1.skip(2) =~= a.skip(2) + marker_run(1) + b);
        lemma_dedup_collapses_rec(a.skip(2), n, b, is_marker_pair(a[0], a[1]));
    }
}

/// Law: a run of one or more consecutive marker pairs collapses to
/// exactly one — deduplication cannot tell a run of `n` markers from a
/// single marker, wherever the run stands in the stream.
pub proof fn lemma_dedup_collapses(a: Seq<char>, n: nat, b: Seq<char>)
    requires
        a.len() % 2 == 0,
        n >= 1,
    ensures
        dedup_markers(a + marker_run(n) + b, false) == dedup_markers(a + marker_run(1) + b, false),
{
    lemma_dedup_collapses_rec(a, n, b, false);
}

/// Law: a stream that is nothing but a marker run comes out as a single
/// marker pair.
pub proof fn lemma_dedup_run_to_one(n: nat)
    requires
        n >= 1,
    ensures
        dedup_markers(marker_run(n), false) == seq!['3', 'E'],
{
    let s = marker_run(n);
    assert(s[0] == '3' && s[1] == 'E');
    assert(s.skip(2) =~= marker_run((n - 1) as nat) + Seq::<char>::empty());
    lemma_dedup_absorbs(Seq::empty(), (n - 1) as nat);
    assert(dedup_markers(Seq::<char>::empty(), true) == Seq::<char>::empty());
    assert(seq!['3', 'E'] + Seq::<char>::empty() =~= seq!['3', 'E']);
}

/// Both characters of every pair are uppercase hex digits.
pub open spec fn upper_pairs(s: Seq<char>) -> bool
    decreases s.len(),
{
    if s.len() < 2 {
        true
    } else {
        is_upper_hex(s[0]) && is_upper_hex(s[1]) && upper_pairs(s.skip(2))
    }
}

/// Every pair is uppercase hex and encodes no removed control byte.
pub open spec fn clean_pairs(s: Seq<char>) -> bool
    decreases s.len(),
{
    if s.len() < 2 {
        true
    } else {
        is_upper_hex(s[0]) && is_upper_hex(s[1]) && !is_control_pair(s[0], s[1]) && clean_pairs(
            s.skip(2),
        )
    }
}

proof fn lemma_encode_upper(bytes: Seq<u8>)
    ensures
        spec_encode(bytes).len() == 2 * bytes.len(),
        upper_pairs(spec_encode(bytes)),
    decreases bytes.len(),
{
    if bytes.len() > 0 {
        lemma_encode_upper(bytes.drop_first());
        let b = bytes[0];
        let e = spec_encode(bytes);
        assert(0 <= b as int / 16 < 16) by (nonlinear_arith);
        assert(is_upper_hex(hex_digit(b as int / 16)));
        assert(is_upper_hex(hex_digit(b as int % 16)));
        assert(e[0] == hex_digit(b as int / 16));
        assert(e[1] == hex_digit(b as int % 16));
        assert(e.skip(2) =~= spec_encode(bytes.drop_first()));
    }
}

proof fn lemma_trim_upper(s: Seq<char>)
    requires
        upper_pairs(s),
        s.len() % 2 == 0,
    ensures
        upper_pairs(trim_to_marker(s)),
        trim_to_marker(s).len() % 2 == 0,
    decreases s.len(),
{
    if s.len() < 2 {
    } else if is_marker_pair(s[0], s[1]) {
    } else {
        lemma_trim_upper(s.skip(2));
    }
}

proof fn lemma_dedup_upper(s: Seq<char>, prev: bool)
    requires
        upper_pairs(s),
    ensures
        upper_pairs(dedup_markers(s, prev)),
        dedup_markers(s, prev).len() % 2 == 0,
    decreases s.len(),
{
    if s.len() >= 2 {
        let m = is_marker_pair(s[0], s[1]);
        lemma_dedup_upper(s.skip(2), m);
        if !(m && prev) {
            let r = seq![s[0], s[1]] + dedup_markers(s.skip(2), m);
            assert(r.skip(2) =~= dedup_markers(s.skip(2), m));
        }
    }
}

proof fn lemma_strip_clean(s: Seq<char>)
    requires
        upper_pairs(s),
    ensures
        clean_pairs(strip_controls(s)),
        strip_controls(s).len() % 2 == 0,
    decreases s.len(),
{
    if s.len() >= 2 {
        lemma_strip_clean(s.skip(2));
        if !is_control_pair(s[0], s[1]) {
            let r = seq![s[0], s[1]] + strip_controls(s.skip(2));
            assert(r.skip(2) =~= strip_controls(s.skip(2)));
        }
    }
}

proof fn lemma_clean_pairs_take(s: Seq<char>, k: int)
    requires
        clean_pairs(s),
        0 <= k <= s.len(),
        k % 2 == 0,
    ensures
        clean_pairs(s.take(k)),
    decreases s.len(),
{
    if k >= 2 && s.len() >= 2 {
        lemma_clean_pairs_take(s.skip(2), k - 2);
        assert(s.take(k)[0] == s[0]);
        assert(s.take(k)[1] == s[1]);
        assert(s.take(k).skip(2) =~= s.skip(2).take(k - 2));
    } else {
        assert(s.take(k).len() < 2);
    }
}

proof fn lemma_trailing_clean(s: Seq<char>)
    requires
        clean_pairs(s),
        s.len() % 2 == 0,
    ensures
        clean_pairs(strip_trailing_newlines(s)),
        strip_trailing_newlines(s).len() % 2 == 0,
        !(strip_trailing_newlines(s).len() >= 2 && is_newline_pair(
            strip_trailing_newlines(s)[strip_trailing_newlines(s).len() - 2],
            strip_trailing_newlines(s)[strip_trailing_newlines(s).len() - 1],
        )),
    decreases s.len(),
{
    if s.len() >= 2 && is_newline_pair(s[s.len() - 2], s[s.len() - 1]) {
        lemma_clean_pairs_take(s, s.len() - 2);
        lemma_trailing_clean(s.take(s.len() - 2));
    }
}

proof fn lemma_clean_pairs_index(s: Seq<char>)
    requires
        clean_pairs(s),
    ensures
        forall|k: int|
            0 <= k && 2 * k + 1 < s.len() ==> is_upper_hex(#[trigger] s[2 * k]) && is_upper_hex(
                s[2 * k + 1],
            ) && !is_control_pair(s[2 * k], s[2 * k + 1]),
    decreases s.len(),
{
    if s.len() >= 2 {
        lemma_clean_pairs_index(s.skip(2));
        assert forall|k: int| 0 <= k && 2 * k + 1 < s.len() implies is_upper_hex(
            #[trigger] s[2 * k],
        ) && is_upper_hex(s[2 * k + 1]) && !is_control_pair(s[2 * k], s[2 * k + 1]) by {
            if k > 0 {
                assert(s.skip(2)[2 * (k - 1)] == s[2 * k]);
                assert(s.skip(2)[2 * (k - 1) + 1] == s[2 * k + 1]);
            }
        }
    }
}

/// The cleaned stream of an encoded byte sequence: its stage-four input,
/// with every pair uppercase and non-control and no trailing line-feed
/// pair before the appended terminator.
proof fn lemma_clean_shape(bytes: Seq<u8>)
    ensures
        ({
            let w = strip_trailing_newlines(
                strip_controls(dedup_markers(trim_to_marker(spec_encode(bytes)), false)),
            );
            &&& spec_clean(spec_encode(bytes)) == w + seq!['0', 'A']
            &&& clean_pairs(w)
            &&& w.len() % 2 == 0
            &&& !(w.len() >= 2 && is_newline_pair(w[w.len() - 2], w[w.len() - 1]))
        }),
{
    let e = spec_encode(bytes);
    lemma_encode_upper(bytes);
    lemma_trim_upper(e);
    lemma_dedup_upper(trim_to_marker(e), false);
    lemma_strip_clean(dedup_markers(trim_to_marker(e), false));
    lemma_trailing_clean(strip_controls(dedup_markers(trim_to_marker(e), false)));
}

/// A non-control uppercase pair encodes the line feed or a byte at 0x20
/// or above.
proof fn lemma_good_pair_value(a: char, b: char)
    requires
        is_upper_hex(a),
        is_upper_hex(b),
        !is_control_pair(a, b),
    ensures
        pair_val(a, b) == 10 || pair_val(a, b) >= 32,
        0 <= pair_val(a, b) < 256,
{
    if pair_val(a, b) < 32 && pair_val(a, b) != 10 {
        assert(hex_val(a) >= 2 ==> pair_val(a, b) >= 32);
        assert(hex_val(a) == 0 || hex_val(a) == 1);
        if hex_val(a) == 0 {
            assert(a == '0');
            assert(b != 'A' ==> is_control_pair(a, b));
            assert(b == 'A' ==> pair_val(a, b) == 10);
        } else {
            assert(a == '1');
            assert(is_control_pair(a, b));
        }
        assert(false);
    }
}

/// Law: for every input, the cleaned hex stream is decodable and its text
/// ends in exactly one line feed.
#[verifier::rlimit(50)]
pub proof fn lemma_clean_single_newline(bytes: Seq<u8>)
    ensures
        valid_hex(spec_clean(spec_encode(bytes))),
        ({
            let t = spec_decode_text(spec_clean(spec_encode(bytes)));
            &&& t.len() > 0
            &&& t[t.len() - 1] == '\n'
            &&& t.len() >= 2 ==> t[t.len() - 2] != '\n'
        }),
{
    let e = spec_encode(bytes);
    let w = strip_trailing_newlines(strip_controls(dedup_markers(trim_to_marker(e), false)));
    let c = spec_clean(e);
    lemma_clean_shape(bytes);
    lemma_clean_pairs_append_terminator(w);
    lemma_clean_pairs_index(c);
    assert forall|i: int| 0 <= i < c.len() implies hex_val(#[trigger] c[i]) >= 0 by {
        let k = i / 2;
        assert(c.len() % 2 == 0);
        assert(2 * k + 1 < c.len());
        assert(is_upper_hex(c[2 * k]) && is_upper_hex(c[2 * k + 1]));
        if i % 2 == 0 {
            assert(i == 2 * k);
        } else {
            assert(i == 2 * k + 1);
        }
    }
    lemma_decode_index(c);
    let db = spec_decode_bytes(c);
    let t = spec_decode_text(c);
    assert(db.len() == c.len() / 2);
    let last = db.len() - 1;
    assert(c[2 * last] == '0' && c[2 * last + 1] == 'A');
    assert(pair_val('0', 'A') == 10);
    assert(db[last] == 10);
    assert(t[last] == (10 as u8) as char);
    assert(t[last] == '\n');
    if db.len() >= 2 {
        let k = db.len() - 2;
        assert(c.len() == w.len() + 2);
        assert(2 * k + 1 < w.len());
        let a = c[2 * k];
        let b = c[2 * k + 1];
        assert(is_upper_hex(a) && is_upper_hex(b) && !is_control_pair(a, b)) by {
            assert(is_upper_hex(c[2 * k]) && is_upper_hex(c[2 * k + 1]) && !is_control_pair(
                c[2 * k],
                c[2 * k + 1],
            ));
        }
        assert(a == w[w.len() - 2] && b == w[w.len() - 1]);
        lemma_good_pair_value(a, b);
        assert(!is_newline_pair(a, b));
        assert(pair_val(a, b) != 10) by {
            if pair_val(a, b) == 10 {
                assert(hex_val(a) * 16 + hex_val(b) == 10);
                assert(hex_val(a) >= 0 && hex_val(b) >= 0);
                assert(hex_val(a) >= 1 ==> pair_val(a, b) >= 16);
                assert(hex_val(a) == 0);
                assert(a == '0');
                assert(hex_val(b) == 10);
                assert(b == 'A' || b == 'a');
                assert(b == 'A');
                assert(is_newline_pair(a, b));
            }
        }
        assert(db[k] == pair_val(a, b) as u8);
        assert(db[k] != 10);
        assert(t[k] == db[k] as char);
        assert(t[k] != '\n');
    }
}

/// The appended terminator keeps every pair uppercase and non-control.
proof fn lemma_clean_pairs_append_terminator(w: Seq<char>)
    requires
        clean_pairs(w),
        w.len() % 2 == 0,
    ensures
        clean_pairs(w + seq!['0', 'A']),
    decreases w.len(),
{
    if w.len() == 0 {
        let c = w + seq!['0', 'A'];
        assert(c.len() == 2);
        assert(c[0] == '0' && c[1] == 'A');
        assert(is_upper_hex('0') && is_upper_hex('A'));
        assert(!is_control_pair('0', 'A'));
        assert(c.skip(2) =~= Seq::<char>::empty());
        assert(clean_pairs(c.skip(2)));
        assert(clean_pairs(c));
    } else {
        lemma_clean_pairs_append_terminator(w.skip(2));
        let c = w + seq!['0', 'A'];
        assert(c[0] == w[0] && c[1] == w[1]);
        assert(c.skip(2) =~= w.skip(2) + seq!['0', 'A']);
        assert(clean_pairs(c));
    }
}

/// Count of line-feed pairs.
pub open spec fn newline_pair_count(s: Seq<char>) -> nat
    decreases s.len(),
{
    if s.len() < 2 {
        0
    } else {
        (if is_newline_pair(s[0], s[1]) {
            1nat
        } else {
            0nat
        }) + newline_pair_count(s.skip(2))
    }
}

/// Law: control-byte removal never strips a line feed — the count of
/// line-feed pairs is unchanged by stage three.
pub proof fn lemma_newlines_not_stripped(s: Seq<char>)
    ensures
        newline_pair_count(strip_controls(s)) == newline_pair_count(s),
    decreases s.len(),
{
    if s.len() >= 2 {
        lemma_newlines_not_stripped(s.skip(2));
        if is_control_pair(s[0], s[1]) {
            assert(!is_newline_pair(s[0], s[1]));
        } else {
            let r = seq![s[0], s[1]] + strip_controls(s.skip(2));
            assert(r.skip(2) =~= strip_controls(s.skip(2)));
        }
    }
}

/// Law: no removed control byte survives into the decoded output — every
/// character of the decoded clean text is the line feed or has a code of
/// 0x20 or above.
pub proof fn lemma_controls_absent(bytes: Seq<u8>)
    ensures
        ({
            let t = spec_decode_text(spec_clean(spec_encode(bytes)));
            forall|k: int| 0 <= k < t.len() ==> t[k] == '\n' || (#[trigger] t[k]) as u32 >= 32
        }),
{
    let e = spec_encode(bytes);
    let w = strip_trailing_newlines(strip_controls(dedup_markers(trim_to_marker(e), false)));
    let c = spec_clean(e);
    lemma_clean_shape(bytes);
    lemma_clean_pairs_append_terminator(w);
    lemma_clean_pairs_index(c);
    lemma_decode_index(c);
    let db = spec_decode_bytes(c);
    let t = spec_decode_text(c);
    assert forall|k: int| 0 <= k < t.len() implies t[k] == '\n' || (#[trigger] t[k]) as u32
        >= 32 by {
        assert(db[k] == pair_val(c[2 * k], c[2 * k + 1]) as u8);
        lemma_good_pair_value(c[2 * k], c[2 * k + 1]);
        assert(t[k] == db[k] as char);
        if db[k] == 10 {
            assert(t[k] == '\n');
        } else {
            assert(db[k] >= 32);
            assert(t[k] as u32 == db[k] as u32);
        }
    }
}

} // verus!
