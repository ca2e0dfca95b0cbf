//! Membership tracking for the search collaborator.
//!
//! The relevance index proper belongs to an outside search subsystem;
//! this core only records which files were handed to it, each once.

use vstd::prelude::*;
use crate::error::ArkeError;
use crate::text::str_eq;

verus! {

/// Tracks the files handed to the search collaborator.
pub struct SearchIndex {
    indexed_files: Vec<String>,
}

/// Statistics about the search index.
#[derive(Debug, Clone)]
pub struct IndexStats {
    pub num_files: usize,
    pub num_terms: usize,
}

/// The paths of `files` after every occurrence of `p` is dropped, in
/// the original order.
pub open spec fn without_path(files: Seq<Seq<char>>, p: Seq<char>) -> Seq<Seq<char>>
    decreases files.len(),
{
    if files.len() == 0 {
        Seq::empty()
    } else {
        let rest = without_path(files.drop_first(), p);
        if files[0] == p {
            rest
        } else {
            seq![files[0]] + rest
        }
    }
}

proof fn lemma_without_path(files: Seq<Seq<char>>, p: Seq<char>)
    requires
        forall|a: int, b: int| 0 <= a < b < files.len() ==> files[a] != files[b],
    ensures
        forall|a: int, b: int|
            0 <= a < b < without_path(files, p).len() ==> without_path(files, p)[a]
                != without_path(files, p)[b],
        forall|y: Seq<char>|
            #![trigger without_path(files, p).contains(y)]
            without_path(files, p).contains(y) <==> (files.contains(y) && y != p),
    decreases files.len(),
{
    if files.len() > 0 {
        let rest0 = files.drop_first();
        assert forall|a: int, b: int| 0 <= a < b < rest0.len() implies rest0[a] != rest0[b] by {
            assert(rest0[a] == files[a + 1]);
            assert(rest0[b] == files[b + 1]);
        }
        lemma_without_path(rest0, p);
        let w = without_path(files, p);
        let rest = without_path(rest0, p);
        if files[0] == p {
            assert forall|y: Seq<char>|
                #![trigger w.contains(y)]
                w.contains(y) <==> (files.contains(y) && y != p) by {
                if files.contains(y) && y != p {
                    let i = choose|i: int| 0 <= i < files.len() && files[i] == y;
                    assert(i > 0);
                    assert(rest0[i - 1] == y);
                    assert(rest0.contains(y));
                }
                if w.contains(y) {
                    assert(rest.contains(y));
                    let i = choose|i: int| 0 <= i < rest0.len() && rest0[i] == y;
                    assert(files[i + 1] == y);
                    assert(files.contains(y));
                }
            }
        } else {
            assert forall|a: int, b: int| 0 <= a < b < w.len() implies w[a] != w[b] by {
                if a == 0 {
                    assert(w[0] == files[0]);
                    assert(rest[b - 1] == w[b]);
                    assert(rest.contains(w[b]));
                    assert(rest0.contains(w[b]));
                    let i = choose|i: int| 0 <= i < rest0.len() && rest0[i] == w[b];
                    assert(files[i + 1] == w[b]);
                } else {
                    assert(w[a] == rest[a - 1]);
                    assert(w[b] == rest[b - 1]);
                }
            }
            assert forall|y: Seq<char>|
                #![trigger w.contains(y)]
                w.contains(y) <==> (files.contains(y) && y != p) by {
                if files.contains(y) && y != p {
                    let i = choose|i: int| 0 <= i < files.len() && files[i] == y;
                    if i == 0 {
                        assert(w[0] == y);
                    } else {
                        assert(rest0[i - 1] == y);
                        assert(rest0.contains(y));
                        assert(rest.contains(y));
                        let j = choose|j: int| 0 <= j < rest.len() && rest[j] == y;
                        assert(w[j + 1] == y);
                    }
                }
                if w.contains(y) {
                    let i = choose|i: int| 0 <= i < w.len() && w[i] == y;
                    if i == 0 {
                        assert(files[0] == y);
                        assert(files.contains(y));
                        assert(y != p);
                    } else {
                        assert(rest[i - 1] == y);
                        assert(rest.contains(y));
                        assert(rest0.contains(y));
                        let j = choose|j: int| 0 <= j < rest0.len() && rest0[j] == y;
                        assert(files[j + 1] == y);
                        assert(files.contains(y));
                    }
                }
            }
        }
    }
}

/// Whether `v` holds a string whose view is `x`.
fn contains_str(v: &Vec<String>, x: &str) -> (r: bool)
    ensures
        r == v.deep_view().contains(x@),
{
    let mut k: usize = 0;
    while k < v.len()
        invariant
            0 <= k <= v.len(),
            forall|i: int| 0 <= i < k ==> v.deep_view()[i] != x@,
        decreases v.len() - k,
    {
        if str_eq(v[k].as_str(), x) {
            proof {
                assert(v.deep_view()[k as int] == x@);
            }
            return true;
        }
        k = k + 1;
    }
    proof {
        if v.deep_view().contains(x@) {
            let i = choose|i: int| 0 <= i < v.deep_view().len() && v.deep_view()[i] == x@;
            assert(false);
        }
    }
    false
}

impl SearchIndex {
    /// The indexed paths, in insertion order.
    pub closed spec fn files(&self) -> Seq<Seq<char>> {
        self.indexed_files.deep_view()
    }

    /// No path is tracked twice.
    pub open spec fn wf(&self) -> bool {
        forall|a: int, b: int|
            0 <= a < b < self.files().len() ==> self.files()[a] != self.files()[b]
    }

    /// Create a new, empty search index.
    pub fn new() -> (r: Result<Self, ArkeError>)
        ensures
            r matches Ok(s) && s.files() == Seq::<Seq<char>>::empty() && s.wf(),
    {
        let s = SearchIndex { indexed_files: Vec::new() };
        proof {
            assert(s.files() =~= Seq::<Seq<char>>::empty());
        }
        Ok(s)
    }

    /// Add a file to the index; a path already tracked stays tracked once.
    pub fn index_file(&mut self, path: String, _content: &str) -> (r: Result<(), ArkeError>)
        requires
            old(self).wf(),
        ensures
            r is Ok,
            final(self).wf(),
            old(self).files().contains(path@) ==> final(self).files() == old(self).files(),
            !old(self).files().contains(path@) ==> final(self).files() == old(self).files().push(
                path@,
            ),
    {
        let present = contains_str(&self.indexed_files, path.as_str());
        if !present {
            let ghost before = self.files();
            let ghost pv = path@;
            self.indexed_files.push(path);
            proof {
                assert(self.files() =~= before.push(pv));
                assert forall|a: int, b: int|
                    0 <= a < b < self.files().len() implies self.files()[a] != self.files()[b] by {
                    if b == self.files().len() - 1 {
                        assert(before[a] == self.files()[a]);
                        assert(before.contains(before[a]));
                    }
                }
            }
        }
        Ok(())
    }

    /// Remove a file from the index; other paths are kept in order.
    pub fn remove_file(&mut self, path: &str) -> (r: Result<(), ArkeError>)
        requires
            old(self).wf(),
        ensures
            r is Ok,
            final(self).wf(),
            final(self).files() == without_path(old(self).files(), path@),
            !final(self).files().contains(path@),
    {
        let ghost fs = self.files();
        let mut kept: Vec<String> = Vec::new();
        let mut k: usize = 0;
        proof {
            assert(fs.skip(0) =~= fs);
            assert(kept.deep_view() + without_path(fs.skip(0), path@) =~= without_path(fs, path@));
        }
        while k < self.indexed_files.len()
            invariant
                0 <= k <= self.indexed_files.len(),
                fs == self.indexed_files.deep_view(),
                kept.deep_view() + without_path(fs.skip(k as int), path@) == without_path(
                    fs,
                    path@,
                ),
            decreases self.indexed_files.len() - k,
        {
            proof {
                assert(fs.skip(k as int)[0] == fs[k as int]);
                assert(fs.skip(k as int).drop_first() =~= fs.skip(k as int + 1));
            }
            let same = str_eq(self.indexed_files[k].as_str(), path);
            if !same {
                let ghost before = kept.deep_view();
                kept.push(self.indexed_files[k].clone());
                proof {
                    assert(kept.deep_view() =~= before.push(fs[k as int]));
                    assert(kept.deep_view() + without_path(fs.skip(k as int + 1), path@)
                        =~= without_path(fs, path@));
                }
            } else {
                proof {
                    assert(kept.deep_view() + without_path(fs.skip(k as int + 1), path@)
                        =~= without_path(fs, path@));
                }
            }
            k = k + 1;
        }
        proof {
            assert(fs.skip(fs.len() as int) =~= Seq::<Seq<char>>::empty());
            assert(kept.deep_view() =~= without_path(fs, path@));
            lemma_without_path(fs, path@);
        }
        self.indexed_files = kept;
        Ok(())
    }

    /// Statistics over the tracked files.
    pub fn stats(&self) -> (r: IndexStats)
        ensures
            r.num_files == self.files().len(),
            r.num_terms == 0,
    {
        IndexStats { num_files: self.indexed_files.len(), num_terms: 0 }
    }
}

impl Default for SearchIndex {
    /// An empty search index.
    fn default() -> (r: Self)
        ensures
            r.files() == Seq::<Seq<char>>::empty(),
            r.wf(),
    {
        match SearchIndex::new() {
            Ok(s) => s,
            Err(_) => {
                let s = SearchIndex { indexed_files: Vec::new() };
                proof {
                    assert(s.files() =~= Seq::<Seq<char>>::empty());
                }
                s
            },
        }
    }
}

} // verus!
