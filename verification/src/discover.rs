//! Telling test documents from other files by their names. A test document
//! has the extension `yaml` or `yml`, and `.tk` somewhere in the stem that
//! is left when the extension is taken away: `login.tk.yaml`.

use vstd::prelude::*;
use vstd::slice::slice_subrange;
use crate::model::{lemma_views_push, views};
use crate::text::{
    contains, find, is_word, lemma_first_occurrence_contains, to_vec, word, DOT, SLASH,
};

verus! {

/// The greatest index at which `s` holds `b`.
pub open spec fn last_index(s: Seq<u8>, b: u8) -> Option<int>
    decreases s.len(),
{
    if s.len() == 0 {
        None
    } else if s.last() == b {
        Some(s.len() - 1)
    } else {
        last_index(s.drop_last(), b)
    }
}

/// The last component of `path`: what follows its last `/`.
pub open spec fn file_name(path: Seq<u8>) -> Seq<u8> {
    match last_index(path, SLASH) {
        Some(i) => path.subrange(i + 1, path.len() as int),
        None => path,
    }
}

/// Where the extension of the file name `name` is split off: at its last
/// `.`, unless that is its first byte.
pub open spec fn split_point(name: Seq<u8>) -> Option<int> {
    match last_index(name, DOT) {
        Some(i) => if i == 0 {
            None
        } else {
            Some(i)
        },
        None => None,
    }
}

/// The file at `path` is a test document by its name.
pub open spec fn names_test_document(path: Seq<u8>) -> bool {
    let name = file_name(path);
    match split_point(name) {
        Some(i) => {
            let stem = name.subrange(0, i);
            let extension = name.subrange(i + 1, name.len() as int);
            (extension == word("yaml") || extension == word("yml")) && contains(stem, word(".tk"))
        },
        None => false,
    }
}

/// The paths from index `from` on that name test documents, in their order.
pub open spec fn selected(paths: Seq<Seq<u8>>, from: int) -> Seq<Seq<u8>>
    decreases paths.len() - from,
{
    if from < 0 || from >= paths.len() {
        Seq::empty()
    } else if names_test_document(paths[from]) {
        seq![paths[from]] + selected(paths, from + 1)
    } else {
        selected(paths, from + 1)
    }
}

fn find_last(s: &[u8], b: u8) -> (r: Option<usize>)
    ensures
        match last_index(s@, b) {
            Some(i) => r == Some(i as usize) && 0 <= i < s.len(),
            None => r is None,
        },
{
    let mut k: usize = s.len();
    assert(s@.subrange(0, k as int) =~= s@);
    while k > 0
        invariant
            k <= s.len(),
            last_index(s@, b) == last_index(s@.subrange(0, k as int), b),
        decreases k,
    {
        if s[k - 1] == b {
            return Some(k - 1);
        }
        assert(s@.subrange(0, k as int).drop_last() =~= s@.subrange(0, k - 1));
        k -= 1;
    }
    None
}

/// Whether the file at `path` is a test document by its name.
pub fn is_test_document(path: &[u8]) -> (r: bool)
    ensures
        r == names_test_document(path@),
{
    let name: &[u8] = match find_last(path, SLASH) {
        Some(i) => slice_subrange(path, i + 1, path.len()),
        None => path,
    };
    match find_last(name, DOT) {
        Some(i) => {
            if i == 0 {
                return false;
            }
            let stem = slice_subrange(name, 0, i);
            let extension = slice_subrange(name, i + 1, name.len());
            proof {
                lemma_first_occurrence_contains(stem@, word(".tk"));
            }
            (is_word(extension, "yaml") || is_word(extension, "yml")) && find(
                stem,
                ".tk".as_bytes(),
                0,
            ).is_some()
        },
        None => false,
    }
}

/// The paths that name test documents, in the order in which they came.
pub fn select_test_documents(paths: &Vec<Vec<u8>>) -> (r: Vec<Vec<u8>>)
    ensures
        views(r@) == selected(views(paths@), 0),
{
    let mut out: Vec<Vec<u8>> = Vec::new();
    let mut k: usize = 0;
    assert(views(out@) + selected(views(paths@), 0) =~= selected(views(paths@), 0));
    while k < paths.len()
        invariant
            k <= paths.len(),
            selected(views(paths@), 0) == views(out@) + selected(views(paths@), k as int),
        decreases paths.len() - k,
    {
        assert(views(paths@)[k as int] == paths@[k as int]@);
        if is_test_document(paths[k].as_slice()) {
            let path = to_vec(paths[k].as_slice());
            proof {
                lemma_views_push(out@, path);
                assert(views(out@) + (seq![path@] + selected(views(paths@), k + 1)) =~= views(
                    out@,
                ).push(path@) + selected(views(paths@), k + 1));
            }
            out.push(path);
        }
        k += 1;
    }
    assert(views(out@) + Seq::<Seq<u8>>::empty() =~= views(out@));
    out
}

} // verus!
