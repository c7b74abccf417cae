//! Per-path and per-chunk content-hash persistence: the sole source of truth
//! for "has this changed since the last ingest". File keys are plain paths;
//! chunk keys are `<file_path>::<chunk_name>`.

use crate::hashing::content_hash_of;
pub use crate::hashing::compute_hash;
use vstd::prelude::*;

verus! {

/// One stored hash: the key (file path or chunk key) and the hex digest of
/// the content that was indexed under it.
#[derive(Debug)]
pub struct HashRow {
    pub file_path: String,
    pub content_hash: String,
}

impl Clone for HashRow {
    fn clone(&self) -> (r: Self)
        ensures
            r == *self,
    {
        HashRow { file_path: self.file_path.clone(), content_hash: self.content_hash.clone() }
    }
}

/// The hash stored under a key, if any.
pub open spec fn find_hash(rows: Seq<HashRow>, key: Seq<char>) -> Option<Seq<char>>
    decreases rows.len(),
{
    if rows.len() == 0 {
        None
    } else if rows[0].file_path@ == key {
        Some(rows[0].content_hash@)
    } else {
        find_hash(rows.subrange(1, rows.len() as int), key)
    }
}

pub struct HashTracker {
    pub project_id: String,
    pub rows: Vec<HashRow>,
}

impl HashTracker {
    pub open spec fn wf(&self) -> bool {
        forall|i: int, j: int|
            0 <= i < j < self.rows@.len() ==> (#[trigger] self.rows@[i]).file_path@ != (
            #[trigger] self.rows@[j]).file_path@
    }

    pub fn new(project_id: &str) -> (r: HashTracker)
        ensures
            r.wf(),
            r.rows@.len() == 0,
            r.project_id@ == project_id@,
    {
        HashTracker { project_id: project_id.to_owned(), rows: Vec::new() }
    }

    /// Whether the stored hash for this file still matches the content: true
    /// exactly when a row exists and holds the content's digest.
    pub fn is_unchanged(&self, file_path: &str, content: &str) -> (r: bool)
        ensures
            r == (find_hash(self.rows@, file_path@) == Some(content_hash_of(content@))),
    {
        match self.lookup(file_path) {
            Some(stored) => {
                let current = compute_hash(content);
                stored == current
            },
            None => false,
        }
    }

    /// A pure store comparison for a chunk whose hash the caller already
    /// holds: true exactly when the stored hash equals it.
    pub fn is_chunk_unchanged(&self, chunk_key: &str, current_hash: &str) -> (r: bool)
        ensures
            r == (find_hash(self.rows@, chunk_key@) == Some(current_hash@)),
    {
        match self.lookup(chunk_key) {
            Some(stored) => {
                let cur: String = current_hash.to_owned();
                stored == cur
            },
            None => false,
        }
    }

    /// Stores the digest of `content` under the file path.
    pub fn update_hash(&mut self, file_path: &str, content: &str)
        requires
            old(self).wf(),
        ensures
            final(self).wf(),
            final(self).project_id@ == old(self).project_id@,
            find_hash(final(self).rows@, file_path@) == Some(content_hash_of(content@)),
            forall|k: Seq<char>|
                k != file_path@ ==> #[trigger] find_hash(final(self).rows@, k) == find_hash(
                    old(self).rows@,
                    k,
                ),
    {
        let h = compute_hash(content);
        self.upsert(file_path, h);
    }

    /// Stores a chunk's hash under its chunk key.
    pub fn update_chunk_hash(&mut self, chunk_key: &str, hash: &str)
        requires
            old(self).wf(),
        ensures
            final(self).wf(),
            final(self).project_id@ == old(self).project_id@,
            find_hash(final(self).rows@, chunk_key@) == Some(hash@),
            forall|k: Seq<char>|
                k != chunk_key@ ==> #[trigger] find_hash(final(self).rows@, k) == find_hash(
                    old(self).rows@,
                    k,
                ),
    {
        self.upsert(chunk_key, hash.to_owned());
    }

    /// The stored hash under a key.
    fn lookup(&self, key: &str) -> (r: Option<String>)
        ensures
            match r {
                Some(h) => find_hash(self.rows@, key@) == Some(h@),
                None => find_hash(self.rows@, key@) is None,
            },
    {
        let keyv: String = key.to_owned();
        let n = self.rows.len();
        let mut i: usize = 0;
        proof {
            assert(self.rows@.subrange(0, n as int) =~= self.rows@);
        }
        while i < n
            invariant
                keyv@ == key@,
                n == self.rows@.len(),
                i <= n,
                find_hash(self.rows@, key@) == find_hash(
                    self.rows@.subrange(i as int, n as int),
                    key@,
                ),
            decreases n - i,
        {
            let ghost tail = self.rows@.subrange(i as int, n as int);
            proof {
                assert(tail[0] == self.rows@[i as int]);
                assert(tail.subrange(1, tail.len() as int) =~= self.rows@.subrange(
                    i + 1,
                    n as int,
                ));
            }
            if self.rows[i].file_path == keyv {
                return Some(self.rows[i].content_hash.clone());
            }
            i = i + 1;
        }
        None
    }

    /// Inserts or replaces the row under `key`.
    fn upsert(&mut self, key: &str, hash: String)
        requires
            old(self).wf(),
        ensures
            final(self).wf(),
            final(self).project_id@ == old(self).project_id@,
            find_hash(final(self).rows@, key@) == Some(hash@),
            forall|k: Seq<char>|
                k != key@ ==> #[trigger] find_hash(final(self).rows@, k) == find_hash(
                    old(self).rows@,
                    k,
                ),
    {
        let keyv: String = key.to_owned();
        let n = self.rows.len();
        let mut i: usize = 0;
        while i < n
            invariant
                *self == *old(self),
                self.wf(),
                keyv@ == key@,
                n == self.rows@.len(),
                i <= n,
                forall|j: int| 0 <= j < i ==> (#[trigger] self.rows@[j]).file_path@ != key@,
            decreases n - i,
        {
            if self.rows[i].file_path == keyv {
                let ghost pre = self.rows@;
                self.rows.set(i, HashRow { file_path: keyv, content_hash: hash });
                proof {
                    let post = self.rows@;
                    assert forall|a: int, b: int|
                        0 <= a < b < post.len() implies (#[trigger] post[a]).file_path@ != (
                    #[trigger] post[b]).file_path@ by {
                        assert(pre[a].file_path@ != pre[b].file_path@);
                    }
                    lemma_find_hash_char(post, key@);
                    match find_hash(post, key@) {
                        Some(h) => {
                            let w = choose|w: int|
                                0 <= w < post.len() && (#[trigger] post[w]).file_path@ == key@
                                    && post[w].content_hash@ == h;
                            if w != i {
                                assert(post[w] == pre[w]);
                                assert(post[w as int].file_path@ != post[i as int].file_path@)
                                    by {
                                    if w < i {
                                        assert(pre[w].file_path@ != pre[i as int].file_path@);
                                    } else {
                                        assert(pre[i as int].file_path@ != pre[w].file_path@);
                                    }
                                }
                            }
                        },
                        None => {
                            assert(post[i as int].file_path@ == key@);
                        },
                    }
                    assert forall|k: Seq<char>| k != key@ implies #[trigger] find_hash(
                        post,
                        k,
                    ) == find_hash(pre, k) by {
                        lemma_find_hash_char(post, k);
                        lemma_find_hash_char(pre, k);
                        match find_hash(post, k) {
                            Some(h) => {
                                let w = choose|w: int|
                                    0 <= w < post.len() && (#[trigger] post[w]).file_path@ == k
                                        && post[w].content_hash@ == h;
                                assert(w != i);
                                assert(pre[w] == post[w]);
                                match find_hash(pre, k) {
                                    Some(h2) => {
                                        let w2 = choose|w2: int|
                                            0 <= w2 < pre.len() && (
                                            #[trigger] pre[w2]).file_path@ == k
                                                && pre[w2].content_hash@ == h2;
                                        if w2 != w {
                                            if w2 < w {
                                                assert(pre[w2].file_path@ != pre[w].file_path@);
                                            } else {
                                                assert(pre[w].file_path@ != pre[w2].file_path@);
                                            }
                                        }
                                    },
                                    None => {
                                        assert(pre[w].file_path@ != k);
                                    },
                                }
                            },
                            None => {
                                match find_hash(pre, k) {
                                    Some(h2) => {
                                        let w2 = choose|w2: int|
                                            0 <= w2 < pre.len() && (
                                            #[trigger] pre[w2]).file_path@ == k
                                                && pre[w2].content_hash@ == h2;
                                        assert(w2 != i);
                                        assert(post[w2] == pre[w2]);
                                        assert(post[w2].file_path@ != k);
                                    },
                                    None => {},
                                }
                            },
                        }
                    }
                }
                return ;
            }
            i = i + 1;
        }
        let ghost pre = self.rows@;
        self.rows.push(HashRow { file_path: keyv, content_hash: hash });
        proof {
            let post = self.rows@;
            assert forall|a: int, b: int|
                0 <= a < b < post.len() implies (#[trigger] post[a]).file_path@ != (
            #[trigger] post[b]).file_path@ by {
                if b == pre.len() {
                    assert(post[a] == pre[a]);
                    assert(pre[a].file_path@ != key@);
                } else {
                    assert(post[a] == pre[a] && post[b] == pre[b]);
                    assert(pre[a].file_path@ != pre[b].file_path@);
                }
            }
            lemma_find_hash_char(post, key@);
            match find_hash(post, key@) {
                Some(h) => {
                    let w = choose|w: int|
                        0 <= w < post.len() && (#[trigger] post[w]).file_path@ == key@
                            && post[w].content_hash@ == h;
                    if w != pre.len() {
                        assert(pre[w].file_path@ != key@);
                    }
                },
                None => {
                    assert(post[pre.len() as int].file_path@ == key@);
                },
            }
            assert forall|k: Seq<char>| k != key@ implies #[trigger] find_hash(post, k)
                == find_hash(pre, k) by {
                lemma_find_hash_char(post, k);
                lemma_find_hash_char(pre, k);
                match find_hash(post, k) {
                    Some(h) => {
                        let w = choose|w: int|
                            0 <= w < post.len() && (#[trigger] post[w]).file_path@ == k
                                && post[w].content_hash@ == h;
                        assert(w != pre.len());
                        assert(post[w] == pre[w]);
                        match find_hash(pre, k) {
                            Some(h2) => {
                                let w2 = choose|w2: int|
                                    0 <= w2 < pre.len() && (#[trigger] pre[w2]).file_path@ == k
                                        && pre[w2].content_hash@ == h2;
                                assert(post[w2] == pre[w2]);
                                if w2 != w {
                                    if w2 < w {
                                        assert(post[w2].file_path@ != post[w].file_path@);
                                    } else {
                                        assert(post[w].file_path@ != post[w2].file_path@);
                                    }
                                }
                            },
                            None => {
                                assert(pre[w].file_path@ != k);
                            },
                        }
                    },
                    None => {
                        match find_hash(pre, k) {
                            Some(h2) => {
                                let w2 = choose|w2: int|
                                    0 <= w2 < pre.len() && (#[trigger] pre[w2]).file_path@ == k
                                        && pre[w2].content_hash@ == h2;
                                assert(post[w2] == pre[w2]);
                                assert(post[w2].file_path@ != k);
                            },
                            None => {},
                        }
                    },
                }
            }
        }
    }
}

/// What `find_hash` answers: the unique matching row's hash, or nothing.
pub proof fn lemma_find_hash_char(rows: Seq<HashRow>, key: Seq<char>)
    ensures
        match find_hash(rows, key) {
            Some(h) => exists|i: int|
                0 <= i < rows.len() && (#[trigger] rows[i]).file_path@ == key
                    && rows[i].content_hash@ == h,
            None => forall|i: int| 0 <= i < rows.len() ==> (#[trigger] rows[i]).file_path@ != key,
        },
    decreases rows.len(),
{
    if rows.len() > 0 && rows[0].file_path@ != key {
        let t = rows.subrange(1, rows.len() as int);
        lemma_find_hash_char(t, key);
        match find_hash(rows, key) {
            Some(h) => {
                let j = choose|j: int|
                    0 <= j < t.len() && (#[trigger] t[j]).file_path@ == key
                        && t[j].content_hash@ == h;
                assert(rows[j + 1] == t[j]);
            },
            None => {
                assert forall|i: int| 0 <= i < rows.len() implies (
                #[trigger] rows[i]).file_path@ != key by {
                    if i >= 1 {
                        assert(t[i - 1] == rows[i]);
                    }
                }
            },
        }
    }
}

} // verus!