use vstd::prelude::*;

verus! {

/// What the editor knows about the file behind a document: the directory
/// it was opened from, the path to write to, a display name, and the kind
/// of file the name's extension says it is.
pub struct Metadata {
    pub current_dir: String,
    pub path: String,
    pub name: String,
    pub extension: Extension,
}

/// The file kinds the editor distinguishes by extension.
#[derive(PartialEq, Eq, Structural, Clone, Copy, Debug)]
pub enum Extension {
    Md,
    Txt,
    Other,
    NoExt,
}

/// The index of the last occurrence of `c` in `s`, or `-1` when `s` does
/// not contain `c`.
pub open spec fn last_index_of(s: Seq<char>, c: char) -> int
    decreases s.len(),
{
    if s.len() == 0 {
        -1
    } else if s.last() == c {
        s.len() - 1
    } else {
        last_index_of(s.drop_last(), c)
    }
}

/// The extension a path's final component carries: the text after the last
/// dot, unless that dot is missing, begins the file name, or stands before
/// the last path separator.
pub open spec fn spec_extension(p: Seq<char>) -> Extension {
    let fstart = last_index_of(p, '/') + 1;
    let d = last_index_of(p, '.');
    if d <= fstart {
        Extension::NoExt
    } else {
        let ext = p.skip(d + 1);
        if ext == seq!['m', 'd'] {
            Extension::Md
        } else if ext == seq!['t', 'x', 't'] {
            Extension::Txt
        } else {
            Extension::Other
        }
    }
}

pub proof fn lemma_last_index_of_snoc(s: Seq<char>, x: char, c: char)
    ensures
        last_index_of(s.push(x), c) == if x == c {
            s.len() as int
        } else {
            last_index_of(s, c)
        },
{
    assert(s.push(x).last() == x);
    assert(s.push(x).drop_last() =~= s);
}

impl Metadata {
    /// Reads the extension off a path and classifies it.
    #[verifier::loop_isolation(false)]
    pub fn get_extension(path: &str) -> (ext: Extension)
        ensures
            ext == spec_extension(path@),
    {
        let n = path.unicode_len();
        // one past the last separator, and one past the last dot; zero
        // stands for "none seen", matching the shifted spec indices
        let mut fstart: usize = 0;
        let mut dplus: usize = 0;
        let mut j: usize = 0;
        proof {
            assert(path@.take(0) =~= Seq::<char>::empty());
        }
        while j < n
            invariant
                j <= n,
                fstart <= j,
                dplus <= j,
                fstart as int == last_index_of(path@.take(j as int), '/') + 1,
                dplus as int == last_index_of(path@.take(j as int), '.') + 1,
            decreases n - j,
        {
            let c = path.get_char(j);
            proof {
                assert(path@.take(j + 1) =~= path@.take(j as int).push(path@[j as int]));
                lemma_last_index_of_snoc(path@.take(j as int), path@[j as int], '/');
                lemma_last_index_of_snoc(path@.take(j as int), path@[j as int], '.');
            }
            if c == '/' {
                fstart = j + 1;
            }
            if c == '.' {
                dplus = j + 1;
            }
            j = j + 1;
        }
        proof {
            assert(path@.take(n as int) =~= path@);
        }
        if dplus <= fstart || dplus - 1 == fstart {
            Extension::NoExt
        } else {
            let ghost ext = path@.skip(dplus as int);
            proof {
                assert(ext.len() == n - dplus);
            }
            if n - dplus == 2 && path.get_char(dplus) == 'm' && path.get_char(dplus + 1) == 'd' {
                proof {
                    assert(ext =~= seq!['m', 'd']);
                }
                Extension::Md
            } else if n - dplus == 3 && path.get_char(dplus) == 't' && path.get_char(dplus + 1)
                == 'x' && path.get_char(dplus + 2) == 't' {
                proof {
                    assert(ext =~= seq!['t', 'x', 't']);
                }
                Extension::Txt
            } else {
                proof {
                    if ext.len() == 2 {
                        assert(ext[0] == path@[dplus as int]);
                        assert(ext[1] == path@[dplus + 1]);
                        assert(ext != seq!['m', 'd']);
                    }
                    if ext.len() == 3 {
                        assert(ext[0] == path@[dplus as int]);
                        assert(ext[1] == path@[dplus + 1]);
                        assert(ext[2] == path@[dplus + 2]);
                        assert(ext != seq!['t', 'x', 't']);
                    }
                }
                Extension::Other
            }
        }
    }
}

} // verus!
