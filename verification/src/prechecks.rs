//! Collaborator precondition checks: file-name extension allow-list and
//! header-marker presence.
//!
//! The extension is read as a path would read it: the part of the final
//! component after its last dot, none when there is no dot or the only dot
//! leads the name.

use vstd::prelude::*;
use crate::errors::FastaError;
use crate::lines::{is_header_line, lines_view, spec_lines, split_lines};
use crate::text::chars_of;

verus! {

/// Index of the last occurrence of `c`, or `-1` when `c` does not occur.
pub open spec fn last_index_of(s: Seq<char>, c: char) -> int
    decreases s.len(),
{
    if s.len() == 0 {
        -1
    } else if s[s.len() - 1] == c {
        s.len() - 1
    } else {
        last_index_of(s.drop_last(), c)
    }
}

/// The final path component: everything after the last slash.
pub open spec fn spec_file_name(s: Seq<char>) -> Seq<char> {
    s.skip(last_index_of(s, '/') + 1)
}

/// The extension of a file name: the part after the last dot, provided
/// that dot exists and does not lead the name.
pub open spec fn spec_extension(name: Seq<char>) -> Option<Seq<char>> {
    let d = last_index_of(name, '.');
    if d <= 0 {
        None
    } else {
        Some(name.skip(d + 1))
    }
}

/// The allow-listed FASTA extensions.
pub open spec fn allowed_extension(e: Seq<char>) -> bool {
    ||| e == seq!['f', 'a', 's', 't', 'a']
    ||| e == seq!['f', 'n', 'a']
    ||| e == seq!['f', 'a', 'a']
    ||| e == seq!['a', 'a']
}

/// A file name whose extension is allow-listed.
pub open spec fn has_allowed_extension(s: Seq<char>) -> bool {
    match spec_extension(spec_file_name(s)) {
        Some(e) => allowed_extension(e),
        None => false,
    }
}

/// Index of the last occurrence of `c` in `v`.
fn rfind(v: &Vec<char>, c: char) -> (r: Option<usize>)
    ensures
        match r {
            Some(i) => last_index_of(v@, c) == i && i < v@.len() && i < usize::MAX,
            None => last_index_of(v@, c) == -1,
        },
{
    let mut i: usize = v.len();
    proof {
        assert(v@.take(i as int) =~= v@);
    }
    while i > 0
        invariant
            i <= v@.len(),
            last_index_of(v@, c) == last_index_of(v@.take(i as int), c),
        decreases i,
    {
        proof {
            assert(v@.take(i as int).drop_last() =~= v@.take(i as int - 1));
            assert(v@.take(i as int)[i - 1] == v@[i as int - 1]);
        }
        if v[i - 1] == c {
            return Some(i - 1);
        }
        i = i - 1;
    }
    proof {
        assert(v@.take(0) =~= Seq::<char>::empty());
    }
    None
}

/// Accepts exactly the file names whose extension is one of `fasta`,
/// `fna`, `faa`, `aa`; otherwise reports `BadExtension`.
pub fn check_file_extension(filename: &str) -> (r: Result<(), FastaError>)
    ensures
        r is Ok <==> has_allowed_extension(filename@),
        r is Err ==> r->Err_0 == FastaError::BadExtension,
{
    let v = chars_of(filename);
    proof {
        assert(v@.take(v@.len() as int) =~= v@);
    }
    let start = match rfind(&v, '/') {
        Some(i) => i + 1,
        None => 0,
    };
    let ghost name = spec_file_name(filename@);
    let mut comp: Vec<char> = Vec::new();
    let mut i: usize = start;
    while i < v.len()
        invariant
            start <= i <= v@.len(),
            comp@ == v@.subrange(start as int, i as int),
        decreases v@.len() - i,
    {
        comp.push(v[i]);
        proof {
            assert(v@.subrange(start as int, i as int + 1) =~= v@.subrange(
                start as int,
                i as int,
            ).push(v@[i as int]));
        }
        i = i + 1;
    }
    proof {
        assert(comp@ =~= name);
    }
    let ext_start = match rfind(&comp, '.') {
        Some(0) => {
            return Err(FastaError::BadExtension);
        },
        Some(d) => d + 1,
        None => {
            return Err(FastaError::BadExtension);
        },
    };
    let mut ext: Vec<char> = Vec::new();
    let mut j: usize = ext_start;
    while j < comp.len()
        invariant
            ext_start <= j <= comp@.len(),
            ext@ == comp@.subrange(ext_start as int, j as int),
        decreases comp@.len() - j,
    {
        ext.push(comp[j]);
        proof {
            assert(comp@.subrange(ext_start as int, j as int + 1) =~= comp@.subrange(
                ext_start as int,
                j as int,
            ).push(comp@[j as int]));
        }
        j = j + 1;
    }
    proof {
        assert(ext@ =~= comp@.skip(ext_start as int));
    }
    let ok = if ext.len() == 5 {
        ext[0] == 'f' && ext[1] == 'a' && ext[2] == 's' && ext[3] == 't' && ext[4] == 'a'
    } else if ext.len() == 3 {
        (ext[0] == 'f' && ext[1] == 'n' && ext[2] == 'a') || (ext[0] == 'f' && ext[1] == 'a'
            && ext[2] == 'a')
    } else if ext.len() == 2 {
        ext[0] == 'a' && ext[1] == 'a'
    } else {
        false
    };
    proof {
        if ok {
            assert(allowed_extension(ext@)) by {
                if ext@.len() == 5 {
                    assert(ext@ =~= seq!['f', 'a', 's', 't', 'a']);
                } else if ext@.len() == 3 {
                    if ext@[1] == 'n' {
                        assert(ext@ =~= seq!['f', 'n', 'a']);
                    } else {
                        assert(ext@ =~= seq!['f', 'a', 'a']);
                    }
                } else {
                    assert(ext@ =~= seq!['a', 'a']);
                }
            }
        } else {
            assert(!allowed_extension(ext@)) by {
                if ext@ == seq!['f', 'a', 's', 't', 'a'] {
                    assert(ext@.len() == 5);
                }
                if ext@ == seq!['f', 'n', 'a'] {
                    assert(ext@.len() == 3);
                }
                if ext@ == seq!['f', 'a', 'a'] {
                    assert(ext@.len() == 3);
                }
                if ext@ == seq!['a', 'a'] {
                    assert(ext@.len() == 2);
                }
            }
        }
    }
    if ok {
        Ok(())
    } else {
        Err(FastaError::BadExtension)
    }
}

/// Whether some line of the text is a header line.
pub open spec fn spec_has_header_line(s: Seq<char>) -> bool {
    exists|i: int| 0 <= i < spec_lines(s).len() && is_header_line(#[trigger] spec_lines(s)[i])
}

/// Reports whether the text holds at least one header-marker line.
pub fn has_header_line(text: &str) -> (r: bool)
    ensures
        r == spec_has_header_line(text@),
{
    let v = chars_of(text);
    let ls = split_lines(&v);
    let ghost lsv = lines_view(ls@);
    let mut k: usize = 0;
    while k < ls.len()
        invariant
            k <= ls@.len(),
            lsv == lines_view(ls@),
            lsv == spec_lines(text@),
            forall|j: int| 0 <= j < k ==> !is_header_line(#[trigger] lsv[j]),
        decreases ls@.len() - k,
    {
        let line = &ls[k];
        proof {
            assert(lsv[k as int] == line@);
        }
        if line.len() > 0 && line[0] == '>' {
            proof {
                assert(is_header_line(lsv[k as int]));
            }
            return true;
        }
        k = k + 1;
    }
    false
}

/// Accepts exactly the texts that hold at least one header-marker line;
/// otherwise reports `MissingHeader`.
pub fn check_content_text(text: &str) -> (r: Result<(), FastaError>)
    ensures
        r is Ok <==> spec_has_header_line(text@),
        r is Err ==> r->Err_0 == FastaError::MissingHeader,
{
    if has_header_line(text) {
        Ok(())
    } else {
        Err(FastaError::MissingHeader)
    }
}

} // verus!
