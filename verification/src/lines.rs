//! Splitting text into lines, as the record-level stages see it.
//!
//! A line break is a single line feed; the final line needs no break.
//! Header lines are the lines that begin with the record marker `>`.

use vstd::prelude::*;

verus! {

/// A header line: non-empty and starting with the record marker.
pub open spec fn is_header_line(l: Seq<char>) -> bool {
    l.len() > 0 && l[0] == '>'
}

/// The characters before the first line feed (the whole text if none).
pub open spec fn line_prefix(s: Seq<char>) -> Seq<char>
    decreases s.len(),
{
    if s.len() == 0 || s[0] == '\n' {
        Seq::empty()
    } else {
        seq![s[0]] + line_prefix(s.drop_first())
    }
}

/// The lines of a text. A trailing line feed closes the last line; text
/// after the last line feed forms one more line.
pub open spec fn spec_lines(s: Seq<char>) -> Seq<Seq<char>>
    decreases s.len(),
    via spec_lines_decreases
{
    if s.len() == 0 {
        Seq::empty()
    } else {
        let l = line_prefix(s);
        if l.len() == s.len() {
            seq![l]
        } else {
            seq![l] + spec_lines(s.skip(l.len() as int + 1))
        }
    }
}

#[via_fn]
proof fn spec_lines_decreases(s: Seq<char>) {
    lemma_line_prefix(s);
}

/// No line of the sequence contains a line feed.
pub open spec fn no_newlines(ls: Seq<Seq<char>>) -> bool {
    forall|i: int, j: int| 0 <= i < ls.len() && 0 <= j < ls[i].len() ==> #[trigger] ls[i][j] != '\n'
}

/// The views of a vector of line buffers.
pub open spec fn lines_view(ls: Seq<Vec<char>>) -> Seq<Seq<char>> {
    ls.map_values(|l: Vec<char>| l@)
}

pub proof fn lemma_line_prefix(s: Seq<char>)
    ensures
        line_prefix(s).len() <= s.len(),
        forall|i: int|
            0 <= i < line_prefix(s).len() ==> #[trigger] line_prefix(s)[i] == s[i] && s[i] != '\n',
        line_prefix(s).len() < s.len() ==> s[line_prefix(s).len() as int] == '\n',
    decreases s.len(),
{
    if s.len() == 0 || s[0] == '\n' {
    } else {
        lemma_line_prefix(s.drop_first());
        let l = line_prefix(s);
        assert forall|i: int| 0 <= i < l.len() implies #[trigger] l[i] == s[i] && s[i] != '\n' by {
            if i > 0 {
                assert(l[i] == line_prefix(s.drop_first())[i - 1]);
                assert(s.drop_first()[i - 1] == s[i]);
            }
        }
        if l.len() < s.len() {
            assert(s.drop_first()[l.len() - 1] == s[l.len() as int]);
        }
    }
}

/// The line prefix of a text built from a feed-free line, a line feed, and
/// a remainder is that line.
pub proof fn lemma_line_prefix_compose(l: Seq<char>, rest: Seq<char>)
    requires
        forall|j: int| 0 <= j < l.len() ==> #[trigger] l[j] != '\n',
    ensures
        line_prefix(l + seq!['\n'] + rest) == l,
    decreases l.len(),
{
    let s = l + seq!['\n'] + rest;
    if l.len() == 0 {
        assert(s[0] == '\n');
        assert(line_prefix(s) =~= l);
    } else {
        lemma_line_prefix_compose(l.drop_first(), rest);
        assert(s[0] == l[0]);
        assert(s.drop_first() =~= l.drop_first() + seq!['\n'] + rest);
        assert(line_prefix(s) =~= seq![l[0]] + l.drop_first());
        assert(seq![l[0]] + l.drop_first() =~= l);
    }
}

/// Splitting off the first line: a feed-free line, a line feed, then the
/// rest.
pub proof fn lemma_lines_compose(l: Seq<char>, rest: Seq<char>)
    requires
        forall|j: int| 0 <= j < l.len() ==> #[trigger] l[j] != '\n',
    ensures
        spec_lines(l + seq!['\n'] + rest) == seq![l] + spec_lines(rest),
{
    let s = l + seq!['\n'] + rest;
    lemma_line_prefix_compose(l, rest);
    assert(line_prefix(s) == l);
    assert(l.len() < s.len());
    assert(s.skip(l.len() as int + 1) =~= rest);
}

/// A non-empty feed-free text is a single line.
pub proof fn lemma_lines_single(l: Seq<char>)
    requires
        l.len() > 0,
        forall|j: int| 0 <= j < l.len() ==> #[trigger] l[j] != '\n',
    ensures
        spec_lines(l) == seq![l],
{
    lemma_line_prefix(l);
    let p = line_prefix(l);
    if p.len() < l.len() {
        assert(l[p.len() as int] == '\n');
        assert(false);
    }
    assert(p =~= l);
}

/// Lines never contain a line feed.
pub proof fn lemma_lines_no_newlines(s: Seq<char>)
    ensures
        no_newlines(spec_lines(s)),
    decreases s.len(),
{
    if s.len() == 0 {
    } else {
        lemma_line_prefix(s);
        let l = line_prefix(s);
        if l.len() == s.len() {
        } else {
            lemma_lines_no_newlines(s.skip(l.len() as int + 1));
            let ls = spec_lines(s);
            let tail = spec_lines(s.skip(l.len() as int + 1));
            assert forall|i: int, j: int| 0 <= i < ls.len() && 0 <= j < ls[i].len() implies #[trigger] ls[i][j]
                != '\n' by {
                if i > 0 {
                    assert(ls[i] == tail[i - 1]);
                    assert(tail[i - 1][j] != '\n');
                }
            }
        }
    }
}

/// Splits a character buffer into its lines.
pub fn split_lines(v: &Vec<char>) -> (r: Vec<Vec<char>>)
    ensures
        lines_view(r@) == spec_lines(v@),
{
    let mut done: Vec<Vec<char>> = Vec::new();
    let mut cur: Vec<char> = Vec::new();
    let mut i: usize = 0;
    proof {
        assert(cur@ + v@.skip(0) =~= v@);
        assert(lines_view(done@) =~= Seq::<Seq<char>>::empty());
        assert(lines_view(done@) + spec_lines(v@) =~= spec_lines(v@));
    }
    while i < v.len()
        invariant
            i <= v@.len(),
            forall|j: int| 0 <= j < cur@.len() ==> #[trigger] cur@[j] != '\n',
            spec_lines(v@) == lines_view(done@) + spec_lines(cur@ + v@.skip(i as int)),
        decreases v@.len() - i,
    {
        let c = v[i];
        if c == '\n' {
            proof {
                assert(cur@ + v@.skip(i as int) =~= cur@ + seq!['\n'] + v@.skip(i as int + 1));
                lemma_lines_compose(cur@, v@.skip(i as int + 1));
                assert(lines_view(done@.push(cur)) =~= lines_view(done@).push(cur@));
                assert(lines_view(done@) + (seq![cur@] + spec_lines(v@.skip(i as int + 1)))
                    =~= lines_view(done@.push(cur)) + spec_lines(v@.skip(i as int + 1)));
            }
            done.push(cur);
            cur = Vec::new();
            proof {
                assert(cur@ + v@.skip(i as int + 1) =~= v@.skip(i as int + 1));
            }
        } else {
            proof {
                assert(cur@ + v@.skip(i as int) =~= cur@.push(c) + v@.skip(i as int + 1));
            }
            cur.push(c);
        }
        i = i + 1;
    }
    proof {
        assert(cur@ + v@.skip(v@.len() as int) =~= cur@);
    }
    if cur.len() > 0 {
        proof {
            lemma_lines_single(cur@);
            assert(lines_view(done@.push(cur)) =~= lines_view(done@).push(cur@));
            assert(lines_view(done@) + seq![cur@] =~= lines_view(done@.push(cur)));
        }
        done.push(cur);
    } else {
        proof {
            assert(spec_lines(cur@) =~= Seq::<Seq<char>>::empty());
            assert(lines_view(done@) + Seq::<Seq<char>>::empty() =~= lines_view(done@));
        }
    }
    done
}

} // verus!
