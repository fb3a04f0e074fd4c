//! Line-unwrapping of decoded FASTA text.
//!
//! Each header line is kept on a line of its own; the sequence lines that
//! follow it are concatenated into a single line. The result always ends in
//! a line feed.

use vstd::prelude::*;
use crate::lines::{
    is_header_line,
    lemma_lines_compose,
    lemma_lines_no_newlines,
    lines_view,
    no_newlines,
    spec_lines,
    split_lines,
};
use crate::text::{chars_of, push_all, string_from_chars};

verus! {

/// The text emitted for a list of lines, mirroring a scan that remembers
/// whether the previously processed line was a header (or whether the scan
/// has just started): headers end their own line, and a header following
/// sequence content first closes that content's line; sequence lines are
/// emitted without a break, which concatenates them.
pub open spec fn spec_unwrap_lines(ls: Seq<Seq<char>>, is_header: bool) -> Seq<char>
    decreases ls.len(),
{
    if ls.len() == 0 {
        Seq::empty()
    } else {
        let l = ls[0];
        if is_header_line(l) {
            (if !is_header {
                seq!['\n']
            } else {
                Seq::empty()
            }) + l + seq!['\n'] + spec_unwrap_lines(ls.drop_first(), true)
        } else {
            l + spec_unwrap_lines(ls.drop_first(), false)
        }
    }
}

/// The text with a line feed appended when it does not end in one.
pub open spec fn ensure_nl(u: Seq<char>) -> Seq<char> {
    if u.len() > 0 && u[u.len() - 1] == '\n' {
        u
    } else {
        u.push('\n')
    }
}

/// Unwrapped form of a text: the emitted lines, with a line feed appended
/// when the emission does not already end in one.
pub open spec fn spec_unwrap(s: Seq<char>) -> Seq<char> {
    ensure_nl(spec_unwrap_lines(spec_lines(s), true))
}

/// Concatenates the sequence lines of each record onto one line.
///
/// The first line is treated as a header regardless of prefix; the result
/// ends in exactly the emitted structure's line feeds, with one appended if
/// the text would otherwise end without one.
pub fn unwrap_fasta(input: &str) -> (r: String)
    ensures
        r@ == spec_unwrap(input@),
        r@.len() > 0,
        r@[r@.len() - 1] == '\n',
        r@.len() >= 2 ==> r@[r@.len() - 2] != '\n',
{
    proof {
        lemma_unwrap_single_newline(input@);
    }
    let v = chars_of(input);
    let ls = split_lines(&v);
    let ghost lsv = lines_view(ls@);
    proof {
        assert(lsv == spec_lines(input@));
    }
    let mut out: Vec<char> = Vec::new();
    let mut is_header = true;
    let mut k: usize = 0;
    proof {
        assert(lsv.skip(0) =~= lsv);
        assert(Seq::<char>::empty() + spec_unwrap_lines(lsv, true) =~= spec_unwrap_lines(
            lsv,
            true,
        ));
    }
    while k < ls.len()
        invariant
            k <= ls@.len(),
            lsv == lines_view(ls@),
            spec_unwrap_lines(lsv, true) == out@ + spec_unwrap_lines(
                lsv.skip(k as int),
                is_header,
            ),
        decreases ls@.len() - k,
    {
        let ghost out0 = out@;
        let ghost flag0 = is_header;
        let line = &ls[k];
        proof {
            assert(lsv.skip(k as int)[0] == lsv[k as int]);
            assert(lsv[k as int] == line@);
            assert(lsv.skip(k as int).drop_first() =~= lsv.skip(k as int + 1));
        }
        if line.len() > 0 && line[0] == '>' {
            if !is_header {
                out.push('\n');
            }
            push_all(&mut out, line);
            out.push('\n');
            is_header = true;
            proof {
                let pre = if !flag0 {
                    seq!['\n']
                } else {
                    Seq::<char>::empty()
                };
                assert(spec_unwrap_lines(lsv.skip(k as int), flag0) == pre + line@ + seq!['\n']
                    + spec_unwrap_lines(lsv.skip(k as int + 1), true));
                assert(out@ =~= out0 + (pre + line@ + seq!['\n']));
                assert(out0 + (pre + line@ + seq!['\n'] + spec_unwrap_lines(
                    lsv.skip(k as int + 1),
                    true,
                )) =~= out@ + spec_unwrap_lines(lsv.skip(k as int + 1), true));
            }
        } else {
            push_all(&mut out, line);
            is_header = false;
            proof {
                assert(!is_header_line(line@));
                assert(spec_unwrap_lines(lsv.skip(k as int), flag0) == line@ + spec_unwrap_lines(
                    lsv.skip(k as int + 1),
                    false,
                ));
                assert(out0 + (line@ + spec_unwrap_lines(lsv.skip(k as int + 1), false)) =~= out@
                    + spec_unwrap_lines(lsv.skip(k as int + 1), false));
            }
        }
        k = k + 1;
    }
    proof {
        assert(lsv.skip(lsv.len() as int) =~= Seq::<Seq<char>>::empty());
        assert(out@ + Seq::<char>::empty() =~= out@);
        assert(out@ == spec_unwrap_lines(lsv, true));
    }
    if out.len() == 0 || out[out.len() - 1] != '\n' {
        out.push('\n');
    }
    string_from_chars(&out)
}

proof fn lemma_unwrap_lines_end(ls: Seq<Seq<char>>, flag: bool)
    requires
        no_newlines(ls),
    ensures
        ({
            let u = spec_unwrap_lines(ls, flag);
            &&& (u.len() == 1 ==> u[0] != '\n')
            &&& (u.len() >= 2 ==> !(u[u.len() - 1] == '\n' && u[u.len() - 2] == '\n'))
        }),
    decreases ls.len(),
{
    if ls.len() > 0 {
        let l = ls[0];
        let rest = ls.drop_first();
        lemma_no_newlines_drop(ls);
        assert forall|j: int| 0 <= j < l.len() implies #[trigger] l[j] != '\n' by {
            assert(ls[0][j] != '\n');
        }
        let u = spec_unwrap_lines(ls, flag);
        if is_header_line(l) {
            lemma_unwrap_lines_end(rest, true);
            let x = spec_unwrap_lines(rest, true);
            let pre = if !flag {
                seq!['\n']
            } else {
                Seq::<char>::empty()
            };
            let a = pre + l + seq!['\n'];
            assert(u == pre + l + seq!['\n'] + x);
            assert(u =~= a + x);
            if x.len() == 0 {
                assert(u =~= a);
                assert(u[u.len() - 1] == '\n');
                assert(u[u.len() - 2] == l[l.len() - 1]);
            } else if x.len() == 1 {
                assert(u[u.len() - 1] == x[0]);
            } else {
                assert(u[u.len() - 1] == x[x.len() - 1]);
                assert(u[u.len() - 2] == x[x.len() - 2]);
            }
        } else {
            lemma_unwrap_lines_end(rest, false);
            let x = spec_unwrap_lines(rest, false);
            assert(u == l + x);
            if x.len() == 0 {
                assert(u =~= l);
            } else if x.len() == 1 {
                assert(u[u.len() - 1] == x[0]);
            } else {
                assert(u[u.len() - 1] == x[x.len() - 1]);
                assert(u[u.len() - 2] == x[x.len() - 2]);
            }
        }
    }
}

/// Law: unwrapped text ends in exactly one line feed, never zero and
/// never more.
pub proof fn lemma_unwrap_single_newline(s: Seq<char>)
    ensures
        spec_unwrap(s).len() > 0,
        spec_unwrap(s)[spec_unwrap(s).len() - 1] == '\n',
        spec_unwrap(s).len() >= 2 ==> spec_unwrap(s)[spec_unwrap(s).len() - 2] != '\n',
{
    lemma_lines_no_newlines(s);
    lemma_unwrap_lines_end(spec_lines(s), true);
    let u = spec_unwrap_lines(spec_lines(s), true);
    if u.len() > 0 && u[u.len() - 1] == '\n' {
    } else {
        assert(ensure_nl(u) == u.push('\n'));
    }
}

/// Adjacent sequence lines fused into one: header lines stand alone, and
/// every maximal run of non-header lines becomes its concatenation.
pub open spec fn merge_ls(ls: Seq<Seq<char>>) -> Seq<Seq<char>>
    decreases ls.len(),
{
    if ls.len() == 0 {
        Seq::empty()
    } else {
        let rest = merge_ls(ls.drop_first());
        if is_header_line(ls[0]) {
            seq![ls[0]] + rest
        } else if rest.len() > 0 && !is_header_line(rest[0]) {
            seq![ls[0] + rest[0]] + rest.drop_first()
        } else {
            seq![ls[0]] + rest
        }
    }
}

/// The lines of an unwrapped text: the fused lines, except that a final
/// empty fused line leaves no trace behind a header, and a text with no
/// lines at all unwraps to one empty line.
pub open spec fn norm_ls(ls: Seq<Seq<char>>) -> Seq<Seq<char>> {
    let m = merge_ls(ls);
    if m.len() == 0 {
        seq![Seq::<char>::empty()]
    } else if m.len() >= 2 && m[m.len() - 1].len() == 0 {
        m.drop_last()
    } else {
        m
    }
}

/// Every line is empty.
pub open spec fn all_empty(ls: Seq<Seq<char>>) -> bool {
    forall|i: int| 0 <= i < ls.len() ==> (#[trigger] ls[i]).len() == 0
}

proof fn lemma_no_newlines_drop(ls: Seq<Seq<char>>)
    requires
        no_newlines(ls),
        ls.len() > 0,
    ensures
        no_newlines(ls.drop_first()),
{
    assert forall|i: int, j: int|
        0 <= i < ls.drop_first().len() && 0 <= j < ls.drop_first()[i].len() implies #[trigger] ls.drop_first()[i][j] != '\n' by {
        assert(ls.drop_first()[i] == ls[i + 1]);
        assert(ls[i + 1][j] != '\n');
    }
}

proof fn lemma_ensure_nl_append(a: Seq<char>, x: Seq<char>)
    requires
        x.len() > 0,
    ensures
        ensure_nl(a + x) == a + ensure_nl(x),
{
    assert((a + x)[(a + x).len() - 1] == x[x.len() - 1]);
    if x[x.len() - 1] == '\n' {
    } else {
        assert((a + x).push('\n') =~= a + x.push('\n'));
    }
}

/// A trailing empty line adds nothing to the emission.
proof fn lemma_unwrap_lines_trailing_empty(ls: Seq<Seq<char>>, flag: bool)
    ensures
        spec_unwrap_lines(ls.push(Seq::empty()), flag) == spec_unwrap_lines(ls, flag),
    decreases ls.len(),
{
    let e = Seq::<char>::empty();
    if ls.len() == 0 {
        assert(ls.push(e)[0] == e);
        assert(!is_header_line(e));
        assert(ls.push(e).drop_first() =~= ls);
        assert(spec_unwrap_lines(ls.push(e), flag) == e + spec_unwrap_lines(ls, false));
        assert(e + spec_unwrap_lines(ls, false) =~= spec_unwrap_lines(ls, false));
    } else {
        assert(ls.push(e)[0] == ls[0]);
        assert(ls.push(e).drop_first() =~= ls.drop_first().push(e));
        if is_header_line(ls[0]) {
            lemma_unwrap_lines_trailing_empty(ls.drop_first(), true);
        } else {
            lemma_unwrap_lines_trailing_empty(ls.drop_first(), false);
        }
    }
}

/// Fusing adjacent sequence lines does not change the emission.
proof fn lemma_unwrap_lines_merge(ls: Seq<Seq<char>>, flag: bool)
    ensures
        spec_unwrap_lines(merge_ls(ls), flag) == spec_unwrap_lines(ls, flag),
    decreases ls.len(),
{
    if ls.len() == 0 {
    } else {
        let l = ls[0];
        let rest = merge_ls(ls.drop_first());
        if is_header_line(l) {
            lemma_unwrap_lines_merge(ls.drop_first(), true);
            let m = seq![l] + rest;
            assert(m[0] == l);
            assert(m.drop_first() =~= rest);
        } else if rest.len() > 0 && !is_header_line(rest[0]) {
            lemma_unwrap_lines_merge(ls.drop_first(), false);
            let m = seq![l + rest[0]] + rest.drop_first();
            assert(m[0] == l + rest[0]);
            assert(!is_header_line(l + rest[0])) by {
                if l.len() > 0 {
                    assert((l + rest[0])[0] == l[0]);
                } else {
                    assert(l + rest[0] =~= rest[0]);
                }
            }
            assert(m.drop_first() =~= rest.drop_first());
            assert(spec_unwrap_lines(m, flag) == (l + rest[0]) + spec_unwrap_lines(
                rest.drop_first(),
                false,
            ));
            assert(rest[0] + spec_unwrap_lines(rest.drop_first(), false) == spec_unwrap_lines(
                rest,
                false,
            ));
            assert((l + rest[0]) + spec_unwrap_lines(rest.drop_first(), false) =~= l + (rest[0]
                + spec_unwrap_lines(rest.drop_first(), false)));
        } else {
            lemma_unwrap_lines_merge(ls.drop_first(), false);
            let m = seq![l] + rest;
            assert(m[0] == l);
            assert(m.drop_first() =~= rest);
        }
    }
}

/// The emission is empty exactly when every line is empty.
proof fn lemma_unwrap_lines_empty_iff(ls: Seq<Seq<char>>, flag: bool)
    ensures
        (spec_unwrap_lines(ls, flag).len() == 0) <==> all_empty(ls),
    decreases ls.len(),
{
    if ls.len() == 0 {
    } else {
        let l = ls[0];
        if is_header_line(l) {
            lemma_unwrap_lines_empty_iff(ls.drop_first(), true);
            assert(!all_empty(ls)) by {
                assert(ls[0].len() > 0);
            }
        } else {
            lemma_unwrap_lines_empty_iff(ls.drop_first(), false);
            if l.len() == 0 && all_empty(ls.drop_first()) {
                assert forall|i: int| 0 <= i < ls.len() implies (#[trigger] ls[i]).len() == 0 by {
                    if i > 0 {
                        assert(ls.drop_first()[i - 1] == ls[i]);
                    }
                }
            }
            if all_empty(ls) {
                assert(ls[0].len() == 0);
                assert forall|i: int|
                    0 <= i < ls.drop_first().len() implies (#[trigger] ls.drop_first()[i]).len()
                    == 0 by {
                    assert(ls.drop_first()[i] == ls[i + 1]);
                }
            }
        }
    }
}

/// The fusion of lines that are all empty is a single empty line.
proof fn lemma_merge_all_empty(ls: Seq<Seq<char>>)
    requires
        ls.len() > 0,
        all_empty(ls),
    ensures
        merge_ls(ls) == seq![Seq::<char>::empty()],
    decreases ls.len(),
{
    let e = Seq::<char>::empty();
    assert(ls[0].len() == 0);
    assert(ls[0] =~= e);
    assert(!is_header_line(ls[0]));
    if ls.len() == 1 {
        assert(merge_ls(ls.drop_first()) == Seq::<Seq<char>>::empty());
        assert(merge_ls(ls) =~= seq![e]);
    } else {
        assert forall|i: int|
            0 <= i < ls.drop_first().len() implies (#[trigger] ls.drop_first()[i]).len() == 0 by {
            assert(ls.drop_first()[i] == ls[i + 1]);
        }
        lemma_merge_all_empty(ls.drop_first());
        let rest = merge_ls(ls.drop_first());
        assert(rest == seq![e]);
        assert(rest[0] == e);
        assert(!is_header_line(rest[0]));
        assert(merge_ls(ls) == seq![ls[0] + rest[0]] + rest.drop_first());
        assert(ls[0] + rest[0] =~= e);
        assert(rest.drop_first() =~= Seq::<Seq<char>>::empty());
        assert(merge_ls(ls) =~= seq![e]);
    }
}

/// The lines of a closed emission are the normalized input lines.
proof fn lemma_lines_of_unwrap(ls: Seq<Seq<char>>)
    requires
        no_newlines(ls),
    ensures
        spec_lines(ensure_nl(spec_unwrap_lines(ls, true))) == norm_ls(ls),
    decreases ls.len(), 0int,
{
    let e = Seq::<char>::empty();
    if ls.len() == 0 {
        let t = ensure_nl(spec_unwrap_lines(ls, true));
        assert(t =~= e + seq!['\n'] + e);
        lemma_lines_compose(e, e);
        assert(spec_lines(t) =~= seq![e]);
    } else {
        let l = ls[0];
        let rest = ls.drop_first();
        lemma_no_newlines_drop(ls);
        assert forall|j: int| 0 <= j < l.len() implies #[trigger] l[j] != '\n' by {
            assert(ls[0][j] != '\n');
        }
        if is_header_line(l) {
            let x = spec_unwrap_lines(rest, true);
            let u = spec_unwrap_lines(ls, true);
            assert(u == e + l + seq!['\n'] + x);
            lemma_unwrap_lines_empty_iff(rest, true);
            if x.len() == 0 {
                assert(u =~= l + seq!['\n']);
                assert(u[u.len() - 1] == '\n');
                assert(ensure_nl(u) == u);
                assert(u =~= l + seq!['\n'] + e);
                lemma_lines_compose(l, e);
                assert(spec_lines(u) =~= seq![l]);
                assert(all_empty(rest));
                if rest.len() == 0 {
                    assert(merge_ls(ls) =~= seq![l]);
                    assert(norm_ls(ls) == seq![l]);
                } else {
                    lemma_merge_all_empty(rest);
                    let m = merge_ls(ls);
                    assert(m == seq![l] + seq![e]);
                    assert(m.len() == 2);
                    assert(m[1] == e);
                    assert(norm_ls(ls) == m.drop_last());
                    assert(m.drop_last() =~= seq![l]);
                }
            } else {
                let u2 = ensure_nl(u);
                assert(u =~= (l + seq!['\n']) + x);
                lemma_ensure_nl_append(l + seq!['\n'], x);
                assert(u2 == (l + seq!['\n']) + ensure_nl(x));
                assert(u2 =~= l + seq!['\n'] + ensure_nl(x));
                lemma_lines_compose(l, ensure_nl(x));
                assert(spec_lines(u2) == seq![l] + spec_lines(ensure_nl(x)));
                lemma_lines_of_unwrap(rest);
                assert(spec_lines(u2) == seq![l] + norm_ls(rest));
                assert(!all_empty(rest));
                assert(rest.len() > 0);
                let mr = merge_ls(rest);
                let m = merge_ls(ls);
                assert(m == seq![l] + mr);
                assert(mr.len() >= 1);
                if mr.len() == 1 && mr[0].len() == 0 {
                    lemma_unwrap_lines_merge(rest, true);
                    assert(mr =~= seq![e]);
                    assert(spec_unwrap_lines(mr, true) == e + spec_unwrap_lines(
                        mr.drop_first(),
                        false,
                    ));
                    assert(mr.drop_first() =~= Seq::<Seq<char>>::empty());
                    assert(spec_unwrap_lines(mr, true).len() == 0);
                    assert(false);
                }
                assert(m.len() == 1 + mr.len());
                assert(m[m.len() - 1] == mr[mr.len() - 1]);
                if mr.len() >= 2 && mr[mr.len() - 1].len() == 0 {
                    assert(norm_ls(rest) == mr.drop_last());
                    assert(norm_ls(ls) == m.drop_last());
                    assert(m.drop_last() =~= seq![l] + mr.drop_last());
                } else {
                    assert(norm_ls(rest) == mr);
                    assert(mr[mr.len() - 1].len() > 0);
                    assert(norm_ls(ls) == m);
                }
                assert(norm_ls(ls) =~= seq![l] + norm_ls(rest));
            }
        } else {
            lemma_lines_of_unwrap_acc(l, rest);
            assert(spec_unwrap_lines(ls, true) == l + spec_unwrap_lines(rest, false));
            assert(seq![l] + rest =~= ls);
        }
    }
}

/// The same, for an emission that begins with an accumulated sequence
/// line awaiting its line break.
proof fn lemma_lines_of_unwrap_acc(c: Seq<char>, ls: Seq<Seq<char>>)
    requires
        !is_header_line(c),
        forall|j: int| 0 <= j < c.len() ==> #[trigger] c[j] != '\n',
        no_newlines(ls),
    ensures
        spec_lines(ensure_nl(c + spec_unwrap_lines(ls, false))) == norm_ls(seq![c] + ls),
    decreases ls.len(), 1int,
{
    let e = Seq::<char>::empty();
    if ls.len() == 0 {
        assert(c + spec_unwrap_lines(ls, false) =~= c);
        let t = ensure_nl(c);
        if c.len() > 0 {
            assert(c[c.len() - 1] != '\n');
        }
        assert(t =~= c + seq!['\n'] + e);
        lemma_lines_compose(c, e);
        assert(spec_lines(t) =~= seq![c]);
        assert(seq![c] + ls =~= seq![c]);
        assert((seq![c])[0] == c);
        assert((seq![c]).drop_first() =~= Seq::<Seq<char>>::empty());
        assert(merge_ls((seq![c]).drop_first()) == Seq::<Seq<char>>::empty());
        assert(merge_ls(seq![c]) == seq![c] + Seq::<Seq<char>>::empty());
        assert(merge_ls(seq![c]) =~= seq![c]);
        assert(norm_ls(seq![c]) == seq![c]);
    } else {
        let l = ls[0];
        let rest = ls.drop_first();
        lemma_no_newlines_drop(ls);
        assert forall|j: int| 0 <= j < l.len() implies #[trigger] l[j] != '\n' by {
            assert(ls[0][j] != '\n');
        }
        if is_header_line(l) {
            let x = spec_unwrap_lines(ls, true);
            assert(spec_unwrap_lines(ls, false) == seq!['\n'] + l + seq!['\n']
                + spec_unwrap_lines(rest, true));
            assert(x == e + l + seq!['\n'] + spec_unwrap_lines(rest, true));
            assert(c + spec_unwrap_lines(ls, false) =~= (c + seq!['\n']) + x);
            assert(x.len() > 0);
            lemma_ensure_nl_append(c + seq!['\n'], x);
            let t = ensure_nl(c + spec_unwrap_lines(ls, false));
            assert(t == (c + seq!['\n']) + ensure_nl(x));
            assert(t =~= c + seq!['\n'] + ensure_nl(x));
            lemma_lines_compose(c, ensure_nl(x));
            lemma_lines_of_unwrap(ls);
            assert(spec_lines(t) == seq![c] + norm_ls(ls));
            let m = merge_ls(ls);
            let cls = seq![c] + ls;
            let cm = merge_ls(cls);
            assert(cls[0] == c);
            assert(cls.drop_first() =~= ls);
            let mr = merge_ls(rest);
            assert(m == seq![l] + mr);
            assert(m[0] == l);
            assert(cm == seq![c] + m);
            assert(cm.len() == 1 + m.len());
            assert(m.len() >= 1);
            assert(cm[cm.len() - 1] == m[m.len() - 1]);
            if m.len() >= 2 && m[m.len() - 1].len() == 0 {
                assert(norm_ls(ls) == m.drop_last());
                assert(norm_ls(cls) == cm.drop_last());
                assert(cm.drop_last() =~= seq![c] + m.drop_last());
            } else {
                assert(norm_ls(ls) == m);
                assert(m[m.len() - 1] == (if m.len() == 1 {
                    l
                } else {
                    m[m.len() - 1]
                }));
                if m.len() == 1 {
                    assert(m[0].len() > 0);
                }
                assert(norm_ls(cls) == cm);
            }
            assert(norm_ls(cls) =~= seq![c] + norm_ls(ls));
        } else {
            assert(spec_unwrap_lines(ls, false) == l + spec_unwrap_lines(rest, false));
            assert(c + spec_unwrap_lines(ls, false) =~= (c + l) + spec_unwrap_lines(rest, false));
            assert(!is_header_line(c + l)) by {
                if c.len() > 0 {
                    assert((c + l)[0] == c[0]);
                } else {
                    assert(c + l =~= l);
                }
            }
            assert forall|j: int| 0 <= j < (c + l).len() implies #[trigger] (c + l)[j] != '\n' by {
                if j < c.len() {
                    assert((c + l)[j] == c[j]);
                } else {
                    assert((c + l)[j] == l[j - c.len()]);
                }
            }
            lemma_lines_of_unwrap_acc(c + l, rest);
            lemma_merge_fuse_front(c, l, rest);
            assert(seq![c] + ls =~= seq![c] + (seq![l] + rest));
            assert(merge_ls(seq![c] + ls) == merge_ls(seq![c + l] + rest));
        }
    }
}

/// Law: unwrapping is idempotent — on any text, unwrapping a second time
/// changes nothing, so already-unwrapped text is a fixed point.
pub proof fn lemma_unwrap_idempotent(s: Seq<char>)
    ensures
        spec_unwrap(spec_unwrap(s)) == spec_unwrap(s),
{
    let e = Seq::<char>::empty();
    let ls = spec_lines(s);
    lemma_lines_no_newlines(s);
    lemma_lines_of_unwrap(ls);
    assert(spec_lines(spec_unwrap(s)) == norm_ls(ls));
    let m = merge_ls(ls);
    lemma_unwrap_lines_merge(ls, true);
    if m.len() == 0 {
        assert(norm_ls(ls) == seq![e]);
        assert(spec_unwrap_lines(seq![e], true) == e + spec_unwrap_lines(
            (seq![e]).drop_first(),
            false,
        ));
        assert((seq![e]).drop_first() =~= Seq::<Seq<char>>::empty());
        assert(spec_unwrap_lines(norm_ls(ls), true) =~= spec_unwrap_lines(ls, true));
    } else if m.len() >= 2 && m[m.len() - 1].len() == 0 {
        assert(norm_ls(ls) == m.drop_last());
        assert(m[m.len() - 1] =~= e);
        assert(m =~= m.drop_last().push(e));
        lemma_unwrap_lines_trailing_empty(m.drop_last(), true);
        assert(spec_unwrap_lines(norm_ls(ls), true) == spec_unwrap_lines(ls, true));
    } else {
        assert(norm_ls(ls) == m);
    }
    assert(spec_unwrap(spec_unwrap(s)) == ensure_nl(spec_unwrap_lines(norm_ls(ls), true)));
    assert(spec_unwrap(spec_unwrap(s)) == spec_unwrap(s));
}

/// Fusing may start from an accumulated leading sequence line.
proof fn lemma_merge_fuse_front(c: Seq<char>, l: Seq<char>, rest: Seq<Seq<char>>)
    requires
        !is_header_line(c),
        !is_header_line(l),
    ensures
        merge_ls(seq![c] + (seq![l] + rest)) == merge_ls(seq![c + l] + rest),
{
    let lhs_in = seq![c] + (seq![l] + rest);
    let rhs_in = seq![c + l] + rest;
    assert(lhs_in[0] == c);
    assert(lhs_in.drop_first() =~= seq![l] + rest);
    assert(rhs_in[0] == c + l);
    assert(rhs_in.drop_first() =~= rest);
    assert(!is_header_line(c + l)) by {
        if c.len() > 0 {
            assert((c + l)[0] == c[0]);
        } else {
            assert(c + l =~= l);
        }
    }
    let inner = seq![l] + rest;
    assert(inner[0] == l);
    assert(inner.drop_first() =~= rest);
    let r2 = merge_ls(rest);
    if r2.len() > 0 && !is_header_line(r2[0]) {
        let r1 = merge_ls(inner);
        assert(r1 == seq![l + r2[0]] + r2.drop_first());
        assert(r1[0] == l + r2[0]);
        assert(!is_header_line(l + r2[0])) by {
            if l.len() > 0 {
                assert((l + r2[0])[0] == l[0]);
            } else {
                assert(l + r2[0] =~= r2[0]);
            }
        }
        assert(merge_ls(lhs_in) == seq![c + (l + r2[0])] + r1.drop_first());
        assert(merge_ls(rhs_in) == seq![(c + l) + r2[0]] + r2.drop_first());
        assert(c + (l + r2[0]) =~= (c + l) + r2[0]);
        assert(r1.drop_first() =~= r2.drop_first());
        assert(merge_ls(lhs_in) =~= merge_ls(rhs_in));
    } else {
        let r1 = merge_ls(inner);
        assert(r1 == seq![l] + r2);
        assert(r1[0] == l);
        if l.len() > 0 {
            assert(merge_ls(lhs_in) == seq![c + l] + r1.drop_first());
            assert(merge_ls(rhs_in) == seq![c + l] + r2);
            assert(r1.drop_first() =~= r2);
            assert(merge_ls(lhs_in) =~= merge_ls(rhs_in));
        } else {
            assert(!is_header_line(r1[0]));
            assert(merge_ls(lhs_in) == seq![c + r1[0]] + r1.drop_first());
            assert(merge_ls(rhs_in) == seq![c + l] + r2);
            assert(c + r1[0] =~= c + l);
            assert(r1.drop_first() =~= r2);
            assert(merge_ls(lhs_in) =~= merge_ls(rhs_in));
        }
    }
}

} // verus!
