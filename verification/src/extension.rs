//! Deriving the grouping key of a file: its extension.
//!
//! The extension is the text after the last dot of the file's name. A name
//! without a dot has no extension, and a leading dot alone (a hidden file
//! such as `.gitignore`) does not begin one.

use vstd::prelude::*;
use vstd::string::StrSliceExecFns;

verus! {

/// The position of the last dot in `name`, or `-1` if there is none.
pub open spec fn last_dot_index(name: Seq<char>) -> int
    decreases name.len(),
{
    if name.len() == 0 {
        -1
    } else if name.last() == '.' {
        name.len() - 1
    } else {
        last_dot_index(name.drop_last())
    }
}

/// The extension of a file named `name`: the text after the last dot, where
/// a dot in first position does not count as a separator.
pub open spec fn ext_of(name: Seq<char>) -> Option<Seq<char>> {
    let d = last_dot_index(name);
    if d >= 1 {
        Some(name.skip(d + 1))
    } else {
        None
    }
}

/// `last_dot_index` points at the last dot: it is a dot, and nothing after
/// it is one; if it is `-1`, the name holds no dot at all.
pub proof fn lemma_last_dot_index(name: Seq<char>)
    ensures
        -1 <= last_dot_index(name) < name.len(),
        last_dot_index(name) == -1 ==> forall|i: int| 0 <= i < name.len() ==> name[i] != '.',
        last_dot_index(name) >= 0 ==> {
            &&& name[last_dot_index(name)] == '.'
            &&& forall|i: int| last_dot_index(name) < i < name.len() ==> name[i] != '.'
        },
    decreases name.len(),
{
    if name.len() > 0 && name.last() != '.' {
        lemma_last_dot_index(name.drop_last());
        let d = last_dot_index(name);
        assert(name.last() == name[name.len() - 1]);
        if d == -1 {
            assert forall|i: int| 0 <= i < name.len() implies name[i] != '.' by {
                if i < name.len() - 1 {
                    assert(name.drop_last()[i] == name[i]);
                }
            }
        } else {
            assert(name.drop_last()[d] == name[d]);
            assert forall|i: int| d < i < name.len() implies name[i] != '.' by {
                if i < name.len() - 1 {
                    assert(name.drop_last()[i] == name[i]);
                }
            }
        }
    }
}

/// Returns the extension of the file named `name`, or `None` where the name
/// holds no dot past its first character.
pub fn extension_of(name: &str) -> (r: Option<String>)
    ensures
        match r {
            Some(e) => ext_of(name@) == Some(e@),
            None => ext_of(name@) is None,
        },
{
    let len = name.unicode_len();
    let mut j: usize = len;
    proof {
        lemma_last_dot_index(name@);
    }
    while j > 0
        invariant
            len == name@.len(),
            j <= len,
            forall|i: int| j <= i < len ==> name@[i] != '.',
        decreases j,
    {
        let c = name.get_char(j - 1);
        if c == '.' {
            if j == 1 {
                proof {
                    lemma_last_dot_index(name@);
                    assert(last_dot_index(name@) == 0);
                }
                return None;
            }
            let e = name.substring_char(j, len);
            proof {
                lemma_last_dot_index(name@);
                assert(last_dot_index(name@) == j - 1);
                assert(name@.skip(j as int) =~= e@);
            }
            return Some(e.to_owned());
        }
        j = j - 1;
    }
    proof {
        lemma_last_dot_index(name@);
    }
    None
}

} // verus!
