//! The abbreviation table: every way in which an include declaration may
//! name a header.
//!
//! A header with the path `a/b/c.h` can be included as `c.h`, as `b/c.h`
//! and as `a/b/c.h`. The table holds each such suffix of the components of
//! each header as a key, with the headers that share it, in discovery order.

use vstd::prelude::*;
use crate::dep_graph::{candidates, candidates_upto, file_views, ids, parts_of, resolves};
use crate::path::{ends_with, same_parts, texts};
use crate::types::{File, FileType, FileView};

verus! {

/// The headers that share one suffix.
pub struct Abbrev {
    key: Vec<String>,
    headers: Vec<usize>,
}

/// The abbreviation table of the headers of a repository.
pub struct AbbrevTable {
    entries: Vec<Abbrev>,
}

/// What the entry for `key` holds while the header at index `n`, with the
/// components `whole`, is being put in and its suffixes of up to `done`
/// components are in: the headers below `n` that resolve the key, and the
/// header at `n` where the key is one of those suffixes.
pub open spec fn expected(
    files: Seq<FileView>,
    key: Seq<Seq<char>>,
    n: int,
    whole: Seq<Seq<char>>,
    done: int,
) -> Seq<int> {
    if 1 <= key.len() <= done && ends_with(whole, key) {
        candidates_upto(files, key, n).push(n)
    } else {
        candidates_upto(files, key, n)
    }
}

impl AbbrevTable {
    /// The key of entry `e`, as components.
    pub closed spec fn key(&self, e: int) -> Seq<Seq<char>> {
        texts(self.entries[e].key@)
    }

    /// The headers of entry `e`, as indices into the files.
    pub closed spec fn headers(&self, e: int) -> Seq<int> {
        ids(self.entries[e].headers@)
    }

    /// The number of entries.
    pub closed spec fn count(&self) -> int {
        self.entries.len() as int
    }

    /// Whether the table is that of the first `n` files, with the suffixes
    /// of up to `done` components of `whole` put in for the file at `n`:
    /// each entry holds what is expected for its key, which is at least one
    /// header, no key stands twice, and every key for which headers are
    /// expected has an entry.
    pub open spec fn holds(
        &self,
        files: Seq<FileView>,
        n: int,
        whole: Seq<Seq<char>>,
        done: int,
    ) -> bool {
        &&& forall|e: int|
            0 <= e < self.count() ==> #[trigger] self.headers(e) == expected(
                files,
                self.key(e),
                n,
                whole,
                done,
            ) && self.headers(e).len() > 0
        &&& forall|e: int, f: int|
            0 <= e < f < self.count() ==> #[trigger] self.key(e) != #[trigger] self.key(f)
        &&& forall|key: Seq<Seq<char>>|
            (#[trigger] expected(files, key, n, whole, done)).len() > 0 ==> self.has(key)
    }

    /// Whether some entry holds `key`.
    pub open spec fn has(&self, key: Seq<Seq<char>>) -> bool {
        exists|e: int| 0 <= e < self.count() && #[trigger] self.key(e) == key
    }

    /// Whether the table is that of the headers among the first `n` files.
    pub open spec fn covers(&self, files: Seq<FileView>, n: int) -> bool {
        self.holds(files, n, Seq::empty(), 0)
    }

    /// An empty table.
    pub fn new(Ghost(files): Ghost<Seq<FileView>>) -> (table: Self)
        ensures
            table.covers(files, 0),
    {
        AbbrevTable { entries: Vec::new() }
    }

    /// The entry that holds `key`.
    fn find(&self, key: &Vec<String>) -> (at: Option<usize>)
        ensures
            match at {
                Some(e) => e < self.count() && self.key(e as int) == texts(key@),
                None => !self.has(texts(key@)),
            },
    {
        let mut e: usize = 0;
        while e < self.entries.len()
            invariant
                e <= self.entries.len(),
                forall|f: int| 0 <= f < e ==> #[trigger] self.key(f) != texts(key@),
            decreases self.entries.len() - e,
        {
            if same_parts(&self.entries[e].key, key) {
                return Some(e);
            }
            e += 1;
        }
        None
    }

    /// Looks `key` up: the headers whose path ends with it, in discovery
    /// order; `None` where there is none.
    pub fn lookup(&self, Ghost(files): Ghost<Seq<FileView>>, key: &Vec<String>) -> (found: Option<
        &Vec<usize>,
    >)
        requires
            self.covers(files, files.len() as int),
        ensures
            match found {
                Some(list) => ids(list@) == candidates(files, texts(key@)) && list.len() > 0,
                None => candidates(files, texts(key@)).len() == 0,
            },
    {
        let ghost want = expected(files, texts(key@), files.len() as int, Seq::empty(), 0);
        match self.find(key) {
            Some(e) => {
                assert(self.headers(e as int) == want);
                Some(&self.entries[e].headers)
            },
            None => None,
        }
    }

    /// Puts the header at `index`, whose path has the components `whole`,
    /// in under each of its suffixes.
    pub fn insert(&mut self, Ghost(files): Ghost<Seq<FileView>>, index: usize, whole: &Vec<String>)
        requires
            old(self).covers(files, index as int),
            index < files.len(),
            files[index as int].kind == FileType::Header,
            texts(whole@) == crate::path::components(files[index as int].path),
        ensures
            final(self).covers(files, index + 1),
    {
        let ghost wv = texts(whole@);
        let n = whole.len();
        proof {
            assert forall|key: Seq<Seq<char>>|
                (#[trigger] expected(files, key, index as int, wv, 0)).len() > 0 implies self.has(
                key,
            ) by {
                assert(expected(files, key, index as int, Seq::empty(), 0).len() > 0);
            }
        }
        let mut size: usize = 0;
        while size < n
            invariant
                n == whole.len(),
                wv == texts(whole@),
                size <= n,
                index < files.len(),
                self.holds(files, index as int, wv, size as int),
            decreases n - size,
        {
            size += 1;
            // The suffix of `size` components.
            let mut key: Vec<String> = Vec::new();
            let mut k: usize = n - size;
            while k < n
                invariant
                    n == whole.len(),
                    n - size <= k <= n,
                    key.len() == k - (n - size),
                    forall|j: int| 0 <= j < key.len() ==> (#[trigger] key[j])@ == whole[n - size
                        + j]@,
                decreases n - k,
            {
                key.push(whole[k].clone());
                k += 1;
            }
            let ghost kv = texts(key@);
            proof {
                assert(kv =~= wv.subrange(n - size, n as int));
                assert(ends_with(wv, kv));
            }
            let ghost before = *self;
            match self.find(&key) {
                Some(e) => {
                    let entry = &mut self.entries[e];
                    entry.headers.push(index);
                    proof {
                        assert(self.count() == before.count());
                        assert forall|f: int| 0 <= f < self.count() implies #[trigger] self.key(f)
                            == before.key(f) by {}
                        assert(self.headers(e as int) == before.headers(e as int).push(
                            index as int,
                        ));
                        assert forall|f: int| 0 <= f < self.count() implies #[trigger] self.headers(
                            f,
                        ) == expected(files, self.key(f), index as int, wv, size as int)
                            && self.headers(f).len() > 0 by {
                            assert(before.headers(f) == expected(
                                files,
                                before.key(f),
                                index as int,
                                wv,
                                size - 1,
                            ));
                            if f != e {
                                assert(self.headers(f) == before.headers(f));
                                assert(before.key(f) != kv);
                                lemma_suffix_by_length(wv, before.key(f), kv);
                            }
                        }
                        assert forall|key2: Seq<Seq<char>>|
                            (#[trigger] expected(files, key2, index as int, wv, size as int)).len()
                                > 0 implies self.has(key2) by {
                            if key2 == kv {
                                assert(self.key(e as int) == key2);
                            } else {
                                lemma_suffix_by_length(wv, key2, kv);
                                assert(expected(files, key2, index as int, wv, size - 1).len() > 0);
                                assert(before.has(key2));
                                let f = choose|f: int|
                                    0 <= f < before.count() && #[trigger] before.key(f) == key2;
                                assert(self.key(f) == key2);
                            }
                        }
                    }
                },
                None => {
                    let mut headers: Vec<usize> = Vec::new();
                    headers.push(index);
                    self.entries.push(Abbrev { key, headers });
                    proof {
                        let last = before.count();
                        assert(self.count() == last + 1);
                        assert(self.key(last) == kv);
                        assert(self.headers(last) =~= Seq::<int>::empty().push(index as int));
                        // No earlier header resolves the key, or it had an entry.
                        assert(candidates_upto(files, kv, index as int).len() == 0) by {
                            if expected(files, kv, index as int, wv, size - 1).len() > 0 {
                                assert(before.has(kv));
                            }
                        }
                        assert(candidates_upto(files, kv, index as int) =~= Seq::<int>::empty());
                        assert forall|f: int| 0 <= f < self.count() implies #[trigger] self.headers(
                            f,
                        ) == expected(files, self.key(f), index as int, wv, size as int)
                            && self.headers(f).len() > 0 by {
                            if f < last {
                                assert(self.key(f) == before.key(f));
                                assert(self.headers(f) == before.headers(f));
                                assert(before.headers(f) == expected(
                                    files,
                                    before.key(f),
                                    index as int,
                                    wv,
                                    size - 1,
                                ));
                                assert(before.key(f) != kv) by {
                                    if before.key(f) == kv {
                                        assert(before.has(kv));
                                    }
                                }
                                lemma_suffix_by_length(wv, before.key(f), kv);
                            }
                        }
                        assert forall|e: int, f: int| 0 <= e < f < self.count() implies
                            #[trigger] self.key(e) != #[trigger] self.key(f) by {
                            assert(self.key(e) == before.key(e));
                            if f < last {
                                assert(self.key(f) == before.key(f));
                            } else if before.key(e) == kv {
                                assert(before.has(kv));
                            }
                        }
                        assert forall|key2: Seq<Seq<char>>|
                            (#[trigger] expected(files, key2, index as int, wv, size as int)).len()
                                > 0 implies self.has(key2) by {
                            if key2 == kv {
                                assert(self.key(last) == key2);
                            } else {
                                lemma_suffix_by_length(wv, key2, kv);
                                assert(expected(files, key2, index as int, wv, size - 1).len() > 0);
                                assert(before.has(key2));
                                let f = choose|f: int|
                                    0 <= f < before.count() && #[trigger] before.key(f) == key2;
                                assert(self.key(f) == key2);
                            }
                        }
                    }
                },
            }
        }
        proof {
            assert forall|key: Seq<Seq<char>>| #[trigger]
                expected(files, key, index + 1, Seq::empty(), 0) == expected(
                    files,
                    key,
                    index as int,
                    wv,
                    n as int,
                ) by {
                assert(resolves(files[index as int], key) == (1 <= key.len() <= n && ends_with(
                    wv,
                    key,
                )));
            }
            assert forall|key: Seq<Seq<char>>|
                (#[trigger] expected(files, key, index + 1, Seq::empty(), 0)).len()
                    > 0 implies self.has(key) by {
                assert(expected(files, key, index as int, wv, n as int).len() > 0);
            }
        }
    }

    /// Lets the file at `index`, which is no header, pass.
    pub proof fn lemma_skip(&self, files: Seq<FileView>, index: int)
        requires
            self.covers(files, index),
            0 <= index < files.len(),
            files[index].kind != FileType::Header,
        ensures
            self.covers(files, index + 1),
    {
        assert forall|key: Seq<Seq<char>>| #[trigger]
            expected(files, key, index + 1, Seq::empty(), 0) == expected(
                files,
                key,
                index,
                Seq::empty(),
                0,
            ) by {}
        assert forall|key: Seq<Seq<char>>|
            (#[trigger] expected(files, key, index + 1, Seq::empty(), 0)).len() > 0 implies self.has(
            key,
        ) by {
            assert(expected(files, key, index, Seq::empty(), 0).len() > 0);
        }
    }

    /// The table of the headers among `files`, whose paths have the
    /// components `parts`.
    pub fn build(files: &Vec<File>, parts: &Vec<Vec<String>>) -> (table: Self)
        requires
            parts_of(files@, parts@),
        ensures
            table.covers(file_views(files@), files.len() as int),
    {
        let ghost fv = file_views(files@);
        let mut table = Self::new(Ghost(fv));
        let n = files.len();
        let mut i: usize = 0;
        while i < n
            invariant
                n == files.len(),
                i <= n,
                fv == file_views(files@),
                parts_of(files@, parts@),
                table.covers(fv, i as int),
            decreases n - i,
        {
            match files[i].kind() {
                FileType::Header => {
                    table.insert(Ghost(fv), i, &parts[i]);
                },
                FileType::Source => {
                    proof {
                        table.lemma_skip(fv, i as int);
                    }
                },
            }
            i += 1;
        }
        table
    }
}

/// A sequence has one suffix of each length: a suffix of `whole` other
/// than `key` is not as long as `key`.
pub proof fn lemma_suffix_by_length<T>(whole: Seq<T>, other: Seq<T>, key: Seq<T>)
    requires
        ends_with(whole, key),
        other != key,
    ensures
        ends_with(whole, other) ==> other.len() != key.len(),
{
}

} // verus!
