//! The decision step of the directory walk.
//!
//! Listing a directory is the caller's work; what the walk does with each
//! listed entry is decided here: a directory is descended into, anything
//! else is a discovered file. The caller repeats this step from a work list
//! until no directory is left.

use vstd::prelude::*;

verus! {

/// One entry of a directory listing: its path and whether it is a directory.
pub struct WalkEntry {
    pub path: String,
    pub is_dir: bool,
}

/// The paths of the directory entries of `s`, in order.
pub open spec fn dir_paths(s: Seq<WalkEntry>) -> Seq<Seq<char>>
    decreases s.len(),
{
    if s.len() == 0 {
        Seq::empty()
    } else {
        dir_paths(s.drop_last()) + (if s.last().is_dir {
            seq![s.last().path@]
        } else {
            Seq::empty()
        })
    }
}

/// The paths of the non-directory entries of `s`, in order.
pub open spec fn file_paths(s: Seq<WalkEntry>) -> Seq<Seq<char>>
    decreases s.len(),
{
    if s.len() == 0 {
        Seq::empty()
    } else {
        file_paths(s.drop_last()) + (if s.last().is_dir {
            Seq::empty()
        } else {
            seq![s.last().path@]
        })
    }
}

/// Splits one directory listing into the directories to descend into and the
/// files discovered, each in listing order.
pub fn partition_entries(entries: &Vec<WalkEntry>) -> (r: (Vec<String>, Vec<String>))
    ensures
        r.0@.map(|i: int, p: String| p@) == dir_paths(entries@),
        r.1@.map(|i: int, p: String| p@) == file_paths(entries@),
{
    let len = entries.len();
    let mut dirs: Vec<String> = Vec::new();
    let mut files: Vec<String> = Vec::new();
    let mut i: usize = 0;
    proof {
        assert(dirs@.map(|i: int, p: String| p@) =~= dir_paths(entries@.take(0)));
        assert(files@.map(|i: int, p: String| p@) =~= file_paths(entries@.take(0)));
    }
    while i < len
        invariant
            len == entries@.len(),
            i <= len,
            dirs@.map(|i: int, p: String| p@) == dir_paths(entries@.take(i as int)),
            files@.map(|i: int, p: String| p@) == file_paths(entries@.take(i as int)),
        decreases len - i,
    {
        proof {
            assert(entries@.take(i + 1).drop_last() =~= entries@.take(i as int));
            assert(entries@.take(i + 1).last() == entries@[i as int]);
        }
        let ghost old_dirs = dirs@;
        let ghost old_files = files@;
        if entries[i].is_dir {
            dirs.push(entries[i].path.clone());
            proof {
                assert(dirs@.map(|i: int, p: String| p@) =~= old_dirs.map(
                    |i: int, p: String| p@,
                ) + seq![entries@[i as int].path@]);
            }
        } else {
            files.push(entries[i].path.clone());
            proof {
                assert(files@.map(|i: int, p: String| p@) =~= old_files.map(
                    |i: int, p: String| p@,
                ) + seq![entries@[i as int].path@]);
            }
        }
        proof {
            assert(dir_paths(entries@.take(i + 1)) == dir_paths(entries@.take(i as int)) + (
            if entries@[i as int].is_dir {
                seq![entries@[i as int].path@]
            } else {
                Seq::<Seq<char>>::empty()
            }));
            assert(dirs@.map(|i: int, p: String| p@) =~= dir_paths(entries@.take(i + 1)));
            assert(files@.map(|i: int, p: String| p@) =~= file_paths(entries@.take(i + 1)));
        }
        i = i + 1;
    }
    proof {
        assert(entries@.take(len as int) =~= entries@);
    }
    (dirs, files)
}

} // verus!
