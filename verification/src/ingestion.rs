//! The ingestion side of the engine: crawl filtering, chunking, content
//! hashing, and the pipeline that turns a crawled file set into graph rows
//! and sweeps out rows of files that are gone.

pub mod chunker;
pub mod crawler;
pub mod hash_tracker;

use crate::graph::{EdgeType, KnowledgeGraph, NodeType};
use crate::graph_queries::{is_file_path_entry, seq_has_string};
use crate::hashing::content_hash_of;
use crate::ingestion::hash_tracker::{HashTracker, find_hash};
use crate::text::contains_seq;
use vstd::prelude::*;

verus! {

/// One crawled file, read and decoded by the caller: its path and its text.
#[derive(Debug)]
pub struct SourceFile {
    pub path: String,
    pub content: String,
}

impl Clone for SourceFile {
    fn clone(&self) -> (r: Self)
        ensures
            r == *self,
    {
        SourceFile { path: self.path.clone(), content: self.content.clone() }
    }
}

/// What one ingestion run did.
#[derive(Debug, PartialEq, Eq, Structural, Clone, Copy)]
pub struct IngestionReport {
    pub total_files: usize,
    pub indexed: usize,
    pub skipped: usize,
    pub errors: usize,
    pub nodes_created: usize,
}

impl IngestionReport {
    /// One-line rendering of the counts.
    pub fn describe(&self) -> String {
        let mut v = crate::text::chars_of("Ingestion: ");
        crate::text::append_chars(&mut v, &crate::text::u64_to_chars(self.total_files as u64));
        crate::text::append_chars(&mut v, &crate::text::chars_of(" files ("));
        crate::text::append_chars(&mut v, &crate::text::u64_to_chars(self.indexed as u64));
        crate::text::append_chars(&mut v, &crate::text::chars_of(" indexed, "));
        crate::text::append_chars(&mut v, &crate::text::u64_to_chars(self.skipped as u64));
        crate::text::append_chars(&mut v, &crate::text::chars_of(" skipped, "));
        crate::text::append_chars(&mut v, &crate::text::u64_to_chars(self.errors as u64));
        crate::text::append_chars(&mut v, &crate::text::chars_of(" errors), "));
        crate::text::append_chars(&mut v, &crate::text::u64_to_chars(self.nodes_created as u64));
        crate::text::append_chars(&mut v, &crate::text::chars_of(" nodes"));
        crate::text::string_of(&v)
    }
}

/// Whether the tracker already holds this file's content digest.
pub open spec fn file_hash_matches(rows: Seq<hash_tracker::HashRow>, f: SourceFile) -> bool {
    find_hash(rows, f.path@) == Some(content_hash_of(f.content@))
}

/// How many of the first `i` files already match their stored hash.
pub open spec fn count_matched(rows: Seq<hash_tracker::HashRow>, files: Seq<SourceFile>, i: int) -> int
    decreases i,
{
    if i <= 0 {
        0
    } else {
        count_matched(rows, files, i - 1) + if file_hash_matches(rows, files[i - 1]) {
            1int
        } else {
            0int
        }
    }
}

/// Whether one of the files carries this path.
pub open spec fn files_have_path(files: Seq<SourceFile>, p: Seq<char>) -> bool {
    exists|i: int| 0 <= i < files.len() && (#[trigger] files[i]).path@ == p
}

/// Whether a node value occurs in a node table.
pub open spec fn node_in(nodes: Seq<crate::graph::Node>, n: crate::graph::Node) -> bool {
    exists|i: int| 0 <= i < nodes.len() && #[trigger] nodes[i] == n
}

/// Line numbers the pipeline stores, clamped into the signed range.
pub open spec fn clamp_line(x: int) -> int {
    if x > 0x7fff_ffff_ffff_ffff {
        0x7fff_ffff_ffff_ffff as int
    } else {
        x
    }
}

/// The tracker key of one chunk of a file.
pub open spec fn chunk_key_of(path: Seq<char>, name: Seq<char>) -> Seq<char> {
    path + "::"@ + name
}

/// What a hash-row table answers, as a function of the key.
pub open spec fn env_of(rows: Seq<hash_tracker::HashRow>) -> spec_fn(Seq<char>) -> Option<
    Seq<char>,
> {
    |k: Seq<char>| find_hash(rows, k)
}

/// The hash environment after the first `i` chunks of a file were
/// processed: a chunk whose key does not already answer its content hash is
/// written and records it.
pub open spec fn chunk_env(
    chunks: Seq<chunker::ChunkView>,
    path: Seq<char>,
    e0: spec_fn(Seq<char>) -> Option<Seq<char>>,
    i: int,
) -> spec_fn(Seq<char>) -> Option<Seq<char>>
    decreases i,
{
    if i <= 0 {
        e0
    } else {
        let e = chunk_env(chunks, path, e0, i - 1);
        let key = chunk_key_of(path, chunks[i - 1].name);
        let h = content_hash_of(chunks[i - 1].content);
        if e(key) == Some(h) {
            e
        } else {
            |k: Seq<char>|
                if k == key {
                    Some(h)
                } else {
                    e(k)
                }
        }
    }
}

/// Whether the pipeline writes chunk `i`: its stored hash, as of its turn,
/// does not match its content.
pub open spec fn chunk_written(
    chunks: Seq<chunker::ChunkView>,
    path: Seq<char>,
    e0: spec_fn(Seq<char>) -> Option<Seq<char>>,
    i: int,
) -> bool {
    chunk_env(chunks, path, e0, i)(chunk_key_of(path, chunks[i].name)) != Some(
        content_hash_of(chunks[i].content),
    )
}

/// How many of the first `i` chunks are written.
pub open spec fn written_count(
    chunks: Seq<chunker::ChunkView>,
    path: Seq<char>,
    e0: spec_fn(Seq<char>) -> Option<Seq<char>>,
    i: int,
) -> int
    decreases i,
{
    if i <= 0 {
        0
    } else {
        written_count(chunks, path, e0, i - 1) + if chunk_written(chunks, path, e0, i - 1) {
            1int
        } else {
            0int
        }
    }
}

/// Chunk processing touches only chunk keys: every key without the `::`
/// separator answers as before.
pub proof fn lemma_chunk_env_nonchunk(
    chunks: Seq<chunker::ChunkView>,
    path: Seq<char>,
    e0: spec_fn(Seq<char>) -> Option<Seq<char>>,
    i: int,
    k: Seq<char>,
)
    requires
        !contains_seq(k, "::"@),
    ensures
        chunk_env(chunks, path, e0, i)(k) == e0(k),
    decreases i,
{
    if i > 0 {
        lemma_chunk_env_nonchunk(chunks, path, e0, i - 1, k);
        let key = chunk_key_of(path, chunks[i - 1].name);
        if k == key {
            assert(crate::text::matches_at(key, "::"@, path.len() as int)) by {
                assert(key.subrange(
                    path.len() as int,
                    path.len() as int + "::"@.len() as int,
                ) =~= "::"@);
            }
        }
    }
}

/// The file node one ingested file owns: file-typed, named by the path,
/// carrying the content's hash and the clamped 1-based line span.
pub open spec fn file_node_ok(
    n: crate::graph::Node,
    pid: Seq<char>,
    path: Seq<char>,
    content: Seq<char>,
) -> bool {
    &&& n.project_id@ == pid
    &&& n.name@ == path
    &&& n.node_type == NodeType::File
    &&& (match n.file_path {
        Some(p) => p@ == path,
        None => false,
    })
    &&& (match n.content_hash {
        Some(h) => h@ == content_hash_of(content),
        None => false,
    })
    &&& n.start_line == Some(1i64)
    &&& (match n.end_line {
        Some(e) => e as int == clamp_line(crate::text::lines_of(content).len() as int),
        None => false,
    })
    &&& n.summary is None
}

/// The node a written chunk owns: the chunk's name, type, summary and
/// clamped line span, under the file's path.
pub open spec fn chunk_node_ok(
    n: crate::graph::Node,
    pid: Seq<char>,
    path: Seq<char>,
    c: chunker::ChunkView,
) -> bool {
    &&& n.project_id@ == pid
    &&& n.name@ == c.name
    &&& n.node_type == c.node_type
    &&& (match n.file_path {
        Some(p) => p@ == path,
        None => false,
    })
    &&& (match n.start_line {
        Some(x) => x as int == clamp_line(c.start_line),
        None => false,
    })
    &&& (match n.end_line {
        Some(x) => x as int == clamp_line(c.end_line),
        None => false,
    })
    &&& (match n.summary {
        Some(x) => x@ == c.summary,
        None => false,
    })
    &&& n.content_hash is None
}

/// A full-text mirror row for a node id with the given text.
pub open spec fn fts_row_ok(
    row: crate::graph::FtsRow,
    nid: Seq<char>,
    pid: Seq<char>,
    name: Seq<char>,
    content: Seq<char>,
    path: Seq<char>,
) -> bool {
    &&& row.node_id@ == nid
    &&& row.project_id@ == pid
    &&& row.name@ == name
    &&& row.content@ == content
    &&& (match row.file_path {
        Some(p) => p@ == path,
        None => false,
    })
}

/// Whether the graph holds a mirror row for this node id with this text.
pub open spec fn has_fts_row(
    g: KnowledgeGraph,
    nid: Seq<char>,
    pid: Seq<char>,
    name: Seq<char>,
    content: Seq<char>,
    path: Seq<char>,
) -> bool {
    exists|j: int|
        0 <= j < g.fts@.len() && fts_row_ok(#[trigger] g.fts@[j], nid, pid, name, content, path)
}

/// Whether the graph holds a containment edge from `fid` to `cid`.
pub open spec fn has_contains_edge(
    g: KnowledgeGraph,
    fid: Seq<char>,
    cid: Seq<char>,
    pid: Seq<char>,
) -> bool {
    exists|j: int|
        0 <= j < g.edges@.len() && (#[trigger] g.edges@[j]).source_id@ == fid
            && g.edges@[j].target_id@ == cid && g.edges@[j].edge_type == EdgeType::Contains
            && g.edges@[j].project_id@ == pid
}

/// All rows one written chunk owns: its node, the node's mirror row, and
/// the containment edge from the file node.
pub open spec fn chunk_present(
    g: KnowledgeGraph,
    pid: Seq<char>,
    path: Seq<char>,
    c: chunker::ChunkView,
    fid: Seq<char>,
) -> bool {
    exists|j: int|
        0 <= j < g.nodes@.len() && chunk_node_ok(#[trigger] g.nodes@[j], pid, path, c)
            && has_fts_row(g, g.nodes@[j].id@, pid, c.name, c.content, path) && has_contains_edge(
            g,
            fid,
            g.nodes@[j].id@,
            pid,
        )
}

/// Everything one ingested file owns in a graph: its file node under id
/// `fid`, mirrored and with its text stored, and for every chunk written
/// against the starting hash environment `e0` the chunk's rows.
pub open spec fn file_ingested(
    g: KnowledgeGraph,
    pid: Seq<char>,
    path: Seq<char>,
    content: Seq<char>,
    e0: spec_fn(Seq<char>) -> Option<Seq<char>>,
    fid: Seq<char>,
) -> bool {
    let chunks = chunker::chunk_file_spec(path, content);
    &&& exists|j: int|
        0 <= j < g.nodes@.len() && (#[trigger] g.nodes@[j]).id@ == fid && file_node_ok(
            g.nodes@[j],
            pid,
            path,
            content,
        )
    &&& has_fts_row(g, fid, pid, path, content, path)
    &&& g.spec_file_text(path) == Some(content)
    &&& forall|ci: int|
        0 <= ci < chunks.len() && chunk_written(chunks, path, e0, ci) ==> chunk_present(
            g,
            pid,
            path,
            #[trigger] chunks[ci],
            fid,
        )
}

/// A filter that keeps everything is the identity.
pub proof fn lemma_filter_keeps_all_fts(
    s: Seq<crate::graph::FtsRow>,
    pred: spec_fn(crate::graph::FtsRow) -> bool,
)
    requires
        forall|j: int| 0 <= j < s.len() ==> pred(#[trigger] s[j]),
    ensures
        s.filter(pred) == s,
    decreases s.len(),
{
    reveal(Seq::filter);
    if s.len() > 0 {
        let head = s.drop_last();
        assert forall|j: int| 0 <= j < head.len() implies pred(#[trigger] head[j]) by {
            assert(head[j] == s[j]);
        }
        lemma_filter_keeps_all_fts(head, pred);
        assert(s.filter(pred) =~= s);
    }
}

/// The hash environment after the first `j` files of a run: the skip
/// decisions are made against the starting rows; an ingested file folds its
/// chunks and then records its own content hash.
pub open spec fn run_env(
    files: Seq<SourceFile>,
    rows0: Seq<hash_tracker::HashRow>,
    j: int,
) -> spec_fn(Seq<char>) -> Option<Seq<char>>
    decreases j,
{
    if j <= 0 {
        env_of(rows0)
    } else {
        let e = run_env(files, rows0, j - 1);
        if file_hash_matches(rows0, files[j - 1]) {
            e
        } else {
            let chunks = chunker::chunk_file_spec(files[j - 1].path@, files[j - 1].content@);
            let e2 = chunk_env(chunks, files[j - 1].path@, e, chunks.len() as int);
            |k: Seq<char>|
                if k == files[j - 1].path@ {
                    Some(content_hash_of(files[j - 1].content@))
                } else {
                    e2(k)
                }
        }
    }
}

/// Nodes created by the first `j` files, with the run's saturations: one
/// per ingested file plus one per chunk written at that file's turn.
pub open spec fn run_created(
    files: Seq<SourceFile>,
    rows0: Seq<hash_tracker::HashRow>,
    j: int,
) -> int
    decreases j,
{
    if j <= 0 {
        0
    } else {
        let prev = run_created(files, rows0, j - 1);
        if file_hash_matches(rows0, files[j - 1]) {
            prev
        } else {
            let chunks = chunker::chunk_file_spec(files[j - 1].path@, files[j - 1].content@);
            let wc = 1 + written_count(
                chunks,
                files[j - 1].path@,
                run_env(files, rows0, j - 1),
                chunks.len() as int,
            );
            let added = if wc > usize::MAX {
                usize::MAX as int
            } else {
                wc
            };
            if prev + added > usize::MAX {
                usize::MAX as int
            } else {
                prev + added
            }
        }
    }
}

/// The rows of the `t`-th listed file stand in the graph, under some id.
pub open spec fn file_work_at(
    g: KnowledgeGraph,
    pid: Seq<char>,
    files: Seq<SourceFile>,
    rows0: Seq<hash_tracker::HashRow>,
    to_ingest: Seq<usize>,
    t: int,
) -> bool {
    exists|fid: Seq<char>|
        #[trigger] file_ingested(
            g,
            pid,
            files[to_ingest[t] as int].path@,
            files[to_ingest[t] as int].content@,
            run_env(files, rows0, to_ingest[t] as int),
            fid,
        )
}

/// Every one of the first `k` listed files' rows stands in the graph.
pub open spec fn processed_work(
    g: KnowledgeGraph,
    pid: Seq<char>,
    files: Seq<SourceFile>,
    rows0: Seq<hash_tracker::HashRow>,
    to_ingest: Seq<usize>,
    k: int,
) -> bool {
    forall|t: int|
        0 <= t < k ==> #[trigger] file_work_at(g, pid, files, rows0, to_ingest, t)
}

/// One processed file extends the standing work: the new file's rows are
/// there, and the earlier files' rows ride through on the frames.
proof fn lemma_processed_work_step(
    gpre: KnowledgeGraph,
    gpost: KnowledgeGraph,
    pid: Seq<char>,
    files: Seq<SourceFile>,
    rows0: Seq<hash_tracker::HashRow>,
    to_ingest: Seq<usize>,
    k: int,
    fid0: Seq<char>,
)
    requires
        0 < k <= to_ingest.len(),
        forall|t: int| 0 <= t < to_ingest.len() ==> (#[trigger] to_ingest[t]) < files.len(),
        forall|a: int, b: int|
            0 <= a < b < to_ingest.len() ==> (#[trigger] to_ingest[a]) < (#[trigger] to_ingest[b]),
        forall|i2: int, j2: int|
            0 <= i2 < j2 < files.len() ==> (#[trigger] files[i2]).path@ != (
            #[trigger] files[j2]).path@,
        processed_work(gpre, pid, files, rows0, to_ingest, k - 1),
        gpost.nodes@.len() >= gpre.nodes@.len(),
        forall|j: int| 0 <= j < gpre.nodes@.len() ==> #[trigger] gpost.nodes@[j] == gpre.nodes@[j],
        gpost.fts@.len() >= gpre.fts@.len(),
        forall|j: int| 0 <= j < gpre.fts@.len() ==> #[trigger] gpost.fts@[j] == gpre.fts@[j],
        gpost.edges@.len() >= gpre.edges@.len(),
        forall|j: int| 0 <= j < gpre.edges@.len() ==> #[trigger] gpost.edges@[j] == gpre.edges@[j],
        forall|kk: Seq<char>|
            kk != files[to_ingest[k - 1] as int].path@ ==> #[trigger] gpost.spec_file_text(kk)
                == gpre.spec_file_text(kk),
        file_ingested(
            gpost,
            pid,
            files[to_ingest[k - 1] as int].path@,
            files[to_ingest[k - 1] as int].content@,
            run_env(files, rows0, to_ingest[k - 1] as int),
            fid0,
        ),
    ensures
        processed_work(gpost, pid, files, rows0, to_ingest, k),
{
    assert forall|t: int| 0 <= t < k implies #[trigger] file_work_at(
        gpost,
        pid,
        files,
        rows0,
        to_ingest,
        t,
    ) by {
        if t == k - 1 {
        } else {
            assert(file_work_at(gpre, pid, files, rows0, to_ingest, t));
            let old_idx = to_ingest[t] as int;
            let fidt = choose|fid: Seq<char>|
                #[trigger] file_ingested(
                    gpre,
                    pid,
                    files[old_idx].path@,
                    files[old_idx].content@,
                    run_env(files, rows0, old_idx),
                    fid,
                );
            assert(to_ingest[t] < to_ingest[k - 1]);
            assert(files[old_idx].path@ != files[to_ingest[k - 1] as int].path@);
            lemma_file_ingested_stable(
                gpre,
                gpost,
                pid,
                files[old_idx].path@,
                files[old_idx].content@,
                run_env(files, rows0, old_idx),
                fidt,
            );
        }
    }
}

/// Where the run stands after `k` entries of the ingest list: just past the
/// last one processed.
pub open spec fn run_bound(to_ingest: Seq<usize>, k: int) -> int {
    if k <= 0 {
        0
    } else {
        to_ingest[k - 1] + 1
    }
}

/// The chunk fold only reads its starting environment pointwise.
proof fn lemma_chunk_env_pointwise(
    chunks: Seq<chunker::ChunkView>,
    path: Seq<char>,
    e1: spec_fn(Seq<char>) -> Option<Seq<char>>,
    e2: spec_fn(Seq<char>) -> Option<Seq<char>>,
    i: int,
)
    requires
        forall|k: Seq<char>| #[trigger] e1(k) == e2(k),
    ensures
        forall|k: Seq<char>|
            #[trigger] chunk_env(chunks, path, e1, i)(k) == chunk_env(chunks, path, e2, i)(k),
        forall|ci: int|
            0 <= ci < i ==> #[trigger] chunk_written(chunks, path, e1, ci) == chunk_written(
                chunks,
                path,
                e2,
                ci,
            ),
        written_count(chunks, path, e1, i) == written_count(chunks, path, e2, i),
    decreases i,
{
    if i > 0 {
        lemma_chunk_env_pointwise(chunks, path, e1, e2, i - 1);
        let f1 = chunk_env(chunks, path, e1, i - 1);
        let f2 = chunk_env(chunks, path, e2, i - 1);
        let key = chunk_key_of(path, chunks[i - 1].name);
        let h = content_hash_of(chunks[i - 1].content);
        assert(f1(key) == f2(key));
        assert forall|k: Seq<char>| true implies #[trigger] chunk_env(chunks, path, e1, i)(k)
            == chunk_env(chunks, path, e2, i)(k) by {
            assert(f1(k) == f2(k));
        }
        assert forall|ci: int| 0 <= ci < i implies #[trigger] chunk_written(chunks, path, e1, ci)
            == chunk_written(chunks, path, e2, ci) by {
            if ci == i - 1 {
                assert(f1(chunk_key_of(path, chunks[ci].name)) == f2(
                    chunk_key_of(path, chunks[ci].name),
                ));
            }
        }
    }
}

/// A file's recorded work only reads the starting environment pointwise.
proof fn lemma_file_ingested_env(
    g: KnowledgeGraph,
    pid: Seq<char>,
    path: Seq<char>,
    content: Seq<char>,
    e1: spec_fn(Seq<char>) -> Option<Seq<char>>,
    e2: spec_fn(Seq<char>) -> Option<Seq<char>>,
    fid: Seq<char>,
)
    requires
        forall|k: Seq<char>| #[trigger] e1(k) == e2(k),
        file_ingested(g, pid, path, content, e1, fid),
    ensures
        file_ingested(g, pid, path, content, e2, fid),
{
    let chunks = chunker::chunk_file_spec(path, content);
    lemma_chunk_env_pointwise(chunks, path, e1, e2, chunks.len() as int);
    assert forall|ci: int|
        0 <= ci < chunks.len() && chunk_written(chunks, path, e2, ci) implies chunk_present(
        g,
        pid,
        path,
        #[trigger] chunks[ci],
        fid,
    ) by {
        assert(chunk_written(chunks, path, e1, ci));
    }
}

/// The run environment and count are constant over a stretch of skipped
/// files.
proof fn lemma_run_skip_stretch(
    files: Seq<SourceFile>,
    rows0: Seq<hash_tracker::HashRow>,
    a: int,
    b: int,
)
    requires
        0 <= a <= b <= files.len(),
        forall|j: int| a <= j < b ==> file_hash_matches(rows0, #[trigger] files[j]),
    ensures
        run_env(files, rows0, b) == run_env(files, rows0, a),
        run_created(files, rows0, b) == run_created(files, rows0, a),
    decreases b - a,
{
    if a < b {
        lemma_run_skip_stretch(files, rows0, a, b - 1);
    }
}

proof fn lemma_run_created_nonneg(
    files: Seq<SourceFile>,
    rows0: Seq<hash_tracker::HashRow>,
    j: int,
)
    ensures
        0 <= run_created(files, rows0, j) <= usize::MAX,
    decreases j,
{
    if j > 0 {
        lemma_run_created_nonneg(files, rows0, j - 1);
        if !file_hash_matches(rows0, files[j - 1]) {
            let chunks = chunker::chunk_file_spec(files[j - 1].path@, files[j - 1].content@);
            lemma_written_count_nonneg(
                chunks,
                files[j - 1].path@,
                run_env(files, rows0, j - 1),
                chunks.len() as int,
            );
        }
    }
}

proof fn lemma_written_count_nonneg(
    chunks: Seq<chunker::ChunkView>,
    path: Seq<char>,
    e0: spec_fn(Seq<char>) -> Option<Seq<char>>,
    i: int,
)
    ensures
        0 <= written_count(chunks, path, e0, i),
    decreases i,
{
    if i > 0 {
        lemma_written_count_nonneg(chunks, path, e0, i - 1);
    }
}

/// One ingested file's rows stay present when the tables only grow at the
/// end and its stored text is untouched.
proof fn lemma_file_ingested_stable(
    pre: KnowledgeGraph,
    post: KnowledgeGraph,
    pid: Seq<char>,
    path: Seq<char>,
    content: Seq<char>,
    e0: spec_fn(Seq<char>) -> Option<Seq<char>>,
    fid: Seq<char>,
)
    requires
        file_ingested(pre, pid, path, content, e0, fid),
        post.nodes@.len() >= pre.nodes@.len(),
        forall|j: int| 0 <= j < pre.nodes@.len() ==> #[trigger] post.nodes@[j] == pre.nodes@[j],
        post.fts@.len() >= pre.fts@.len(),
        forall|j: int| 0 <= j < pre.fts@.len() ==> #[trigger] post.fts@[j] == pre.fts@[j],
        post.edges@.len() >= pre.edges@.len(),
        forall|j: int| 0 <= j < pre.edges@.len() ==> #[trigger] post.edges@[j] == pre.edges@[j],
        post.spec_file_text(path) == pre.spec_file_text(path),
    ensures
        file_ingested(post, pid, path, content, e0, fid),
{
    let chunks = chunker::chunk_file_spec(path, content);
    let j = choose|j: int|
        0 <= j < pre.nodes@.len() && (#[trigger] pre.nodes@[j]).id@ == fid && file_node_ok(
            pre.nodes@[j],
            pid,
            path,
            content,
        );
    assert(post.nodes@[j] == pre.nodes@[j]);
    let f = choose|f: int|
        0 <= f < pre.fts@.len() && fts_row_ok(#[trigger] pre.fts@[f], fid, pid, path, content, path);
    assert(post.fts@[f] == pre.fts@[f]);
    assert forall|ci: int|
        0 <= ci < chunks.len() && chunk_written(chunks, path, e0, ci) implies chunk_present(
        post,
        pid,
        path,
        #[trigger] chunks[ci],
        fid,
    ) by {
        lemma_chunk_present_stable(pre, post, pid, path, chunks[ci], fid);
    }
}

/// One ingested file's rows survive the stale sweep: its path was crawled,
/// its ids are unique, so nothing of it hangs off an uncrawled path.
proof fn lemma_file_ingested_survives_sweep(
    gw: KnowledgeGraph,
    gf: KnowledgeGraph,
    crawled: Seq<String>,
    pid: Seq<char>,
    path: Seq<char>,
    content: Seq<char>,
    e0: spec_fn(Seq<char>) -> Option<Seq<char>>,
    fid: Seq<char>,
)
    requires
        gw.wf(),
        gw.spec_project_id() == pid,
        file_ingested(gw, pid, path, content, e0, fid),
        seq_has_string(crawled, path),
        // The sweep's survival guarantees.
        forall|m: int|
            0 <= m < gw.nodes@.len() ==> node_in(gf.nodes@, #[trigger] gw.nodes@[m]) || (
            gw.nodes@[m].project_id@ == pid && gw.nodes@[m].file_path is Some && !seq_has_string(
                crawled,
                gw.nodes@[m].file_path->0@,
            )),
        forall|m: int|
            0 <= m < gw.edges@.len() ==> edge_in(gf.edges@, #[trigger] gw.edges@[m]) || exists|
                p: Seq<char>,
            |
                !seq_has_string(crawled, p) && #[trigger] crate::graph_queries::edge_touches_file(
                    gw.edges@[m],
                    gw.nodes@,
                    p,
                    pid,
                ),
        forall|m: int|
            0 <= m < gw.fts@.len() ==> fts_in(gf.fts@, #[trigger] gw.fts@[m]) || exists|
                p: Seq<char>,
            |
                !seq_has_string(crawled, p) && #[trigger] crate::graph_queries::id_owned(
                    gw.nodes@,
                    gw.fts@[m].node_id@,
                    p,
                    pid,
                ),
        gf.file_texts@ == gw.file_texts@,
    ensures
        file_ingested(gf, pid, path, content, e0, fid),
{
    let chunks = chunker::chunk_file_spec(path, content);
    let j = choose|j: int|
        0 <= j < gw.nodes@.len() && (#[trigger] gw.nodes@[j]).id@ == fid && file_node_ok(
            gw.nodes@[j],
            pid,
            path,
            content,
        );
    assert(node_in(gf.nodes@, gw.nodes@[j]));
    let j2 = choose|j2: int| 0 <= j2 < gf.nodes@.len() && #[trigger] gf.nodes@[j2] == gw.nodes@[j];
    let f = choose|f: int|
        0 <= f < gw.fts@.len() && fts_row_ok(#[trigger] gw.fts@[f], fid, pid, path, content, path);
    assert(fts_in(gf.fts@, gw.fts@[f])) by {
        if !fts_in(gf.fts@, gw.fts@[f]) {
            let p = choose|p: Seq<char>|
                !seq_has_string(crawled, p) && #[trigger] crate::graph_queries::id_owned(
                    gw.nodes@,
                    gw.fts@[f].node_id@,
                    p,
                    pid,
                );
            lemma_unique_owner(gw, fid, p, pid, j);
        }
    }
    let f2 = choose|f2: int| 0 <= f2 < gf.fts@.len() && #[trigger] gf.fts@[f2] == gw.fts@[f];
    assert(fts_row_ok(gf.fts@[f2], fid, pid, path, content, path));
    assert(gf.spec_file_text(path) == gw.spec_file_text(path));
    assert forall|ci: int|
        0 <= ci < chunks.len() && chunk_written(chunks, path, e0, ci) implies chunk_present(
        gf,
        pid,
        path,
        #[trigger] chunks[ci],
        fid,
    ) by {
        let cj = choose|cj: int|
            0 <= cj < gw.nodes@.len() && chunk_node_ok(#[trigger] gw.nodes@[cj], pid, path, chunks[ci])
                && has_fts_row(gw, gw.nodes@[cj].id@, pid, chunks[ci].name, chunks[ci].content, path)
                && has_contains_edge(gw, fid, gw.nodes@[cj].id@, pid);
        let cid = gw.nodes@[cj].id@;
        assert(node_in(gf.nodes@, gw.nodes@[cj]));
        let cj2 = choose|cj2: int|
            0 <= cj2 < gf.nodes@.len() && #[trigger] gf.nodes@[cj2] == gw.nodes@[cj];
        let cf = choose|cf: int|
            0 <= cf < gw.fts@.len() && fts_row_ok(
                #[trigger] gw.fts@[cf],
                cid,
                pid,
                chunks[ci].name,
                chunks[ci].content,
                path,
            );
        assert(fts_in(gf.fts@, gw.fts@[cf])) by {
            if !fts_in(gf.fts@, gw.fts@[cf]) {
                let p = choose|p: Seq<char>|
                    !seq_has_string(crawled, p) && #[trigger] crate::graph_queries::id_owned(
                        gw.nodes@,
                        gw.fts@[cf].node_id@,
                        p,
                        pid,
                    );
                lemma_unique_owner(gw, cid, p, pid, cj);
            }
        }
        let cf2 = choose|cf2: int| 0 <= cf2 < gf.fts@.len() && #[trigger] gf.fts@[cf2] == gw.fts@[cf];
        let ce = choose|ce: int|
            0 <= ce < gw.edges@.len() && (#[trigger] gw.edges@[ce]).source_id@ == fid
                && gw.edges@[ce].target_id@ == cid && gw.edges@[ce].edge_type == EdgeType::Contains
                && gw.edges@[ce].project_id@ == pid;
        assert(edge_in(gf.edges@, gw.edges@[ce])) by {
            if !edge_in(gf.edges@, gw.edges@[ce]) {
                let p = choose|p: Seq<char>|
                    !seq_has_string(crawled, p) && #[trigger] crate::graph_queries::edge_touches_file(
                        gw.edges@[ce],
                        gw.nodes@,
                        p,
                        pid,
                    );
                if crate::graph_queries::id_owned(gw.nodes@, fid, p, pid) {
                    lemma_unique_owner(gw, fid, p, pid, j);
                } else {
                    lemma_unique_owner(gw, cid, p, pid, cj);
                }
            }
        }
        let ce2 = choose|ce2: int|
            0 <= ce2 < gf.edges@.len() && #[trigger] gf.edges@[ce2] == gw.edges@[ce];
        assert(chunk_node_ok(gf.nodes@[cj2], pid, path, chunks[ci]));
        assert(fts_row_ok(gf.fts@[cf2], gf.nodes@[cj2].id@, pid, chunks[ci].name, chunks[ci].content, path));
        assert((gf.edges@[ce2]).source_id@ == fid && gf.edges@[ce2].target_id@
            == gf.nodes@[cj2].id@ && gf.edges@[ce2].edge_type == EdgeType::Contains
            && gf.edges@[ce2].project_id@ == pid);
    }
}

/// With unique node ids, an id held by a node of one path is not owned by
/// any other path.
proof fn lemma_unique_owner(
    gw: KnowledgeGraph,
    id: Seq<char>,
    p: Seq<char>,
    pid: Seq<char>,
    holder: int,
)
    requires
        gw.wf(),
        0 <= holder < gw.nodes@.len(),
        gw.nodes@[holder].id@ == id,
        gw.nodes@[holder].file_path is Some,
        gw.nodes@[holder].file_path->0@ != p,
    ensures
        !crate::graph_queries::id_owned(gw.nodes@, id, p, pid),
{
    if crate::graph_queries::id_owned(gw.nodes@, id, p, pid) {
        let w = choose|w: int|
            0 <= w < gw.nodes@.len() && (#[trigger] gw.nodes@[w]).id@ == id
                && crate::graph_queries::node_owned_by(gw.nodes@[w], p, pid);
        if w != holder {
            if w < holder {
                assert(gw.nodes@[w].id@ != gw.nodes@[holder].id@);
            } else {
                assert(gw.nodes@[holder].id@ != gw.nodes@[w].id@);
            }
        }
    }
}

/// Ownership of an id lifts from a shrunken node table to the one it came
/// from: every witness node still has its counterpart there.
proof fn lemma_owned_lifts(
    g0: KnowledgeGraph,
    gpre: KnowledgeGraph,
    id: Seq<char>,
    p: Seq<char>,
    pid: Seq<char>,
)
    requires
        crate::graph_queries::id_owned(gpre.nodes@, id, p, pid),
        forall|j: int|
            0 <= j < gpre.nodes@.len() ==> node_in(g0.nodes@, #[trigger] gpre.nodes@[j]),
    ensures
        crate::graph_queries::id_owned(g0.nodes@, id, p, pid),
{
    let w = choose|w: int|
        0 <= w < gpre.nodes@.len() && (#[trigger] gpre.nodes@[w]).id@ == id
            && crate::graph_queries::node_owned_by(gpre.nodes@[w], p, pid);
    let w0 = choose|w0: int|
        0 <= w0 < g0.nodes@.len() && #[trigger] g0.nodes@[w0] == gpre.nodes@[w];
    assert(g0.nodes@[w0].id@ == id && crate::graph_queries::node_owned_by(
        g0.nodes@[w0],
        p,
        pid,
    ));
}

/// The same lifting for an edge's stale-path contact.
proof fn lemma_touches_lifts(
    g0: KnowledgeGraph,
    gpre: KnowledgeGraph,
    e: crate::graph::Edge,
    p: Seq<char>,
    pid: Seq<char>,
)
    requires
        crate::graph_queries::edge_touches_file(e, gpre.nodes@, p, pid),
        forall|j: int|
            0 <= j < gpre.nodes@.len() ==> node_in(g0.nodes@, #[trigger] gpre.nodes@[j]),
    ensures
        crate::graph_queries::edge_touches_file(e, g0.nodes@, p, pid),
{
    if crate::graph_queries::id_owned(gpre.nodes@, e.source_id@, p, pid) {
        lemma_owned_lifts(g0, gpre, e.source_id@, p, pid);
    } else {
        lemma_owned_lifts(g0, gpre, e.target_id@, p, pid);
    }
}

/// A chunk's rows stay present when the tables only grow at the end.
proof fn lemma_chunk_present_stable(
    pre: KnowledgeGraph,
    post: KnowledgeGraph,
    pid: Seq<char>,
    path: Seq<char>,
    c: chunker::ChunkView,
    fid: Seq<char>,
)
    requires
        chunk_present(pre, pid, path, c, fid),
        post.nodes@.len() >= pre.nodes@.len(),
        forall|j: int| 0 <= j < pre.nodes@.len() ==> #[trigger] post.nodes@[j] == pre.nodes@[j],
        post.fts@.len() >= pre.fts@.len(),
        forall|j: int| 0 <= j < pre.fts@.len() ==> #[trigger] post.fts@[j] == pre.fts@[j],
        post.edges@.len() >= pre.edges@.len(),
        forall|j: int| 0 <= j < pre.edges@.len() ==> #[trigger] post.edges@[j] == pre.edges@[j],
    ensures
        chunk_present(post, pid, path, c, fid),
{
    let j = choose|j: int|
        0 <= j < pre.nodes@.len() && chunk_node_ok(#[trigger] pre.nodes@[j], pid, path, c)
            && has_fts_row(pre, pre.nodes@[j].id@, pid, c.name, c.content, path)
            && has_contains_edge(pre, fid, pre.nodes@[j].id@, pid);
    assert(post.nodes@[j] == pre.nodes@[j]);
    let f = choose|f: int|
        0 <= f < pre.fts@.len() && fts_row_ok(
            #[trigger] pre.fts@[f],
            pre.nodes@[j].id@,
            pid,
            c.name,
            c.content,
            path,
        );
    assert(post.fts@[f] == pre.fts@[f]);
    let e = choose|e: int|
        0 <= e < pre.edges@.len() && (#[trigger] pre.edges@[e]).source_id@ == fid
            && pre.edges@[e].target_id@ == pre.nodes@[j].id@ && pre.edges@[e].edge_type
            == EdgeType::Contains && pre.edges@[e].project_id@ == pid;
    assert(post.edges@[e] == pre.edges@[e]);
    assert(chunk_node_ok(post.nodes@[j], pid, path, c));
    assert(fts_row_ok(post.fts@[f], post.nodes@[j].id@, pid, c.name, c.content, path));
}

/// The incremental ingestion pipeline: skips unchanged files by stored
/// hash, writes nodes, mirror rows and containment edges for the rest, and
/// sweeps out rows of files that the crawl no longer found.
pub struct IngestionPipeline {
    pub hash_tracker: HashTracker,
}

impl IngestionPipeline {
    pub fn new(project_id: &str) -> (r: IngestionPipeline)
        ensures
            r.hash_tracker.wf(),
            r.hash_tracker.rows@.len() == 0,
    {
        IngestionPipeline { hash_tracker: HashTracker::new(project_id) }
    }

    /// Writes one file's rows: a file node with the whole text mirrored and
    /// stored, then one node, mirror row and containment edge per chunk
    /// whose stored hash does not match, recording each such chunk's hash.
    /// Row ids are drawn fresh against the whole store, so nothing that was
    /// there before moves: every prior row keeps its place, and only this
    /// file's rows are appended. Returns one plus the number of written
    /// chunks.
    pub fn ingest_file(&mut self, graph: &mut KnowledgeGraph, path: &str, content: &str) -> (r:
        usize)
        requires
            old(graph).wf(),
            old(self).hash_tracker.wf(),
        ensures
            final(graph).wf(),
            final(self).hash_tracker.wf(),
            final(graph).spec_project_id() == old(graph).spec_project_id(),
            // Frames: prior rows keep their places and values.
            final(graph).nodes@.len() >= old(graph).nodes@.len(),
            forall|j: int|
                0 <= j < old(graph).nodes@.len() ==> #[trigger] final(graph).nodes@[j] == old(graph).nodes@[j],
            final(graph).edges@.len() >= old(graph).edges@.len(),
            forall|j: int|
                0 <= j < old(graph).edges@.len() ==> #[trigger] final(graph).edges@[j] == old(graph).edges@[j],
            final(graph).fts@.len() >= old(graph).fts@.len(),
            forall|j: int|
                0 <= j < old(graph).fts@.len() ==> #[trigger] final(graph).fts@[j] == old(graph).fts@[j],
            forall|k: Seq<char>|
                k != path@ ==> #[trigger] final(graph).spec_file_text(k) == old(graph).spec_file_text(k),
            // Appended nodes all belong to this file.
            forall|j: int|
                old(graph).nodes@.len() <= j < final(graph).nodes@.len() ==> (#[trigger] final(graph).nodes@[j]).project_id@ == old(graph).spec_project_id() && final(graph).nodes@[j].file_path is Some && final(graph).nodes@[j].file_path->0@ == path@,
            // The work: the file node, its mirror row and text, and every
            // written chunk's rows stand in the graph afterwards.
            exists|fid: Seq<char>|
                #[trigger] file_ingested(
                    *final(graph),
                    old(graph).spec_project_id(),
                    path@,
                    content@,
                    env_of(old(self).hash_tracker.rows@),
                    fid,
                ),
            // The tracker answers per the chunk fold; keys without the
            // chunk separator are untouched.
            forall|k: Seq<char>|
                #[trigger] find_hash(final(self).hash_tracker.rows@, k) == chunk_env(
                    chunker::chunk_file_spec(path@, content@),
                    path@,
                    env_of(old(self).hash_tracker.rows@),
                    chunker::chunk_file_spec(path@, content@).len() as int,
                )(k),
            forall|k: Seq<char>|
                !contains_seq(k, "::"@) ==> #[trigger] find_hash(
                    final(self).hash_tracker.rows@,
                    k,
                ) == find_hash(old(self).hash_tracker.rows@, k),
            // One node for the file plus one per written chunk.
            r as int == ({
                let wc = 1 + written_count(
                    chunker::chunk_file_spec(path@, content@),
                    path@,
                    env_of(old(self).hash_tracker.rows@),
                    chunker::chunk_file_spec(path@, content@).len() as int,
                );
                if wc > usize::MAX {
                    usize::MAX as int
                } else {
                    wc
                }
            }),
    {
        let ghost pid = graph.spec_project_id();
        let ghost rows0 = self.hash_tracker.rows@;
        let ghost e0 = env_of(rows0);
        let chunks = chunker::chunk_file(path, content);
        let ghost chunksv = chunker::chunk_file_spec(path@, content@);
        proof {
            assert(chunker::views_of(chunks@) == chunksv);
            assert(chunks@.len() == chunksv.len());
        }
        let file_hash = crate::hashing::compute_hash(content);
        let text = crate::text::chars_of(content);
        let lines = crate::text::split_lines(&text);
        let lc: i64 = if lines.len() as u64 > 0x7fff_ffff_ffff_ffff_u64 {
            0x7fff_ffff_ffff_ffff_i64
        } else {
            lines.len() as i64
        };
        proof {
            assert(lines.deep_view().len() == lines@.len());
            assert(lc as int == clamp_line(crate::text::lines_of(content@).len() as int));
        }
        let fid = graph.fresh_row_id();
        let file_node = crate::graph::Node {
            id: fid.clone(),
            project_id: graph.project_id().to_owned(),
            name: path.to_owned(),
            node_type: NodeType::File,
            file_path: Some(path.to_owned()),
            start_line: Some(1),
            end_line: Some(lc),
            summary: None,
            content_hash: Some(file_hash),
        };
        let ghost g0 = *graph;
        graph.add_node(&file_node);
        proof {
            if exists|i: int|
                0 <= i < g0.nodes@.len() && (#[trigger] g0.nodes@[i]).id@ == file_node.id@ {
                let w = choose|i: int|
                    0 <= i < g0.nodes@.len() && (#[trigger] g0.nodes@[i]).id@ == file_node.id@;
                assert(false);
            }
            assert(graph.nodes@ == g0.nodes@.push(file_node));
        }
        graph.index_fts(&file_node, content);
        proof {
            let pred = |row: crate::graph::FtsRow| row.node_id@ != file_node.id@;
            assert forall|j: int| 0 <= j < g0.fts@.len() implies pred(#[trigger] g0.fts@[j]) by {}
            lemma_filter_keeps_all_fts(g0.fts@, pred);
            assert(graph.fts@.drop_last() == g0.fts@);
            assert(graph.fts@.len() == g0.fts@.len() + 1);
            assert forall|j: int| 0 <= j < g0.fts@.len() implies #[trigger] graph.fts@[j]
                == g0.fts@[j] by {
                assert(graph.fts@.drop_last()[j] == graph.fts@[j]);
            }
            assert(fts_row_ok(
                graph.fts@[g0.fts@.len() as int],
                fid@,
                pid,
                path@,
                content@,
                path@,
            ));
        }
        graph.store_file_text(path, content);
        let ghost nfix = g0.nodes@.len() as int;
        let ghost ffix = g0.fts@.len() as int;
        proof {
            assert(file_node_ok(graph.nodes@[nfix], pid, path@, content@));
        }
        let mut created: usize = 1;
        let mut ci: usize = 0;
        proof {
            reveal_strlit("::");
        }
        while ci < chunks.len()
            invariant
                graph.wf(),
                self.hash_tracker.wf(),
                graph.spec_project_id() == pid,
                pid == old(graph).spec_project_id(),
                rows0 == old(self).hash_tracker.rows@,
                e0 == env_of(rows0),
                chunksv == chunker::chunk_file_spec(path@, content@),
                chunker::views_of(chunks@) == chunksv,
                chunks@.len() == chunksv.len(),
                "::"@.len() == 2,
                ci <= chunks@.len(),
                nfix == old(graph).nodes@.len(),
                ffix == old(graph).fts@.len(),
                // Frames against the state at entry.
                graph.nodes@.len() > nfix,
                forall|j: int|
                    0 <= j < nfix ==> #[trigger] graph.nodes@[j] == old(graph).nodes@[j],
                graph.edges@.len() >= old(graph).edges@.len(),
                forall|j: int|
                    0 <= j < old(graph).edges@.len() ==> #[trigger] graph.edges@[j] == old(graph).edges@[j],
                graph.fts@.len() > ffix,
                forall|j: int|
                    0 <= j < ffix ==> #[trigger] graph.fts@[j] == old(graph).fts@[j],
                forall|k: Seq<char>|
                    k != path@ ==> #[trigger] graph.spec_file_text(k) == old(graph).spec_file_text(k),
                forall|j: int|
                    nfix <= j < graph.nodes@.len() ==> (#[trigger] graph.nodes@[j]).project_id@
                        == pid && graph.nodes@[j].file_path is Some
                        && graph.nodes@[j].file_path->0@ == path@,
                // The file node and its rows stand.
                graph.nodes@[nfix].id@ == fid@,
                file_node_ok(graph.nodes@[nfix], pid, path@, content@),
                fts_row_ok(graph.fts@[ffix], fid@, pid, path@, content@, path@),
                graph.spec_file_text(path@) == Some(content@),
                // Chunk work so far.
                forall|cj: int|
                    0 <= cj < ci && chunk_written(chunksv, path@, e0, cj) ==> chunk_present(
                        *graph,
                        pid,
                        path@,
                        #[trigger] chunksv[cj],
                        fid@,
                    ),
                forall|k: Seq<char>|
                    #[trigger] find_hash(self.hash_tracker.rows@, k) == chunk_env(
                        chunksv,
                        path@,
                        e0,
                        ci as int,
                    )(k),
                created as int == ({
                    let wc = 1 + written_count(chunksv, path@, e0, ci as int);
                    if wc > usize::MAX {
                        usize::MAX as int
                    } else {
                        wc
                    }
                }),
            decreases chunks@.len() - ci,
        {
            let chunk = &chunks[ci];
            proof {
                assert(chunker::views_of(chunks@)[ci as int] == chunker::chunk_view(
                    chunks@[ci as int],
                ));
            }
            let mut keyv = crate::text::chars_of(path);
            crate::text::append_chars(&mut keyv, &crate::text::chars_of("::"));
            crate::text::append_chars(&mut keyv, &crate::text::chars_of(chunk.name.as_str()));
            let chunk_key = crate::text::string_of(&keyv);
            proof {
                assert(chunk_key@ =~= chunk_key_of(path@, chunksv[ci as int].name));
            }
            let chunk_hash = crate::hashing::compute_hash(chunk.content.as_str());
            let ghost key = chunk_key_of(path@, chunksv[ci as int].name);
            let ghost h = content_hash_of(chunksv[ci as int].content);
            let unchanged = self.hash_tracker.is_chunk_unchanged(
                chunk_key.as_str(),
                chunk_hash.as_str(),
            );
            proof {
                assert(unchanged == (chunk_env(chunksv, path@, e0, ci as int)(key) == Some(h)));
                assert(unchanged == !chunk_written(chunksv, path@, e0, ci as int));
            }
            if !unchanged {
                let sl: i64 = if chunk.start_line as u64 > 0x7fff_ffff_ffff_ffff_u64 {
                    0x7fff_ffff_ffff_ffff_i64
                } else {
                    chunk.start_line as i64
                };
                let el: i64 = if chunk.end_line as u64 > 0x7fff_ffff_ffff_ffff_u64 {
                    0x7fff_ffff_ffff_ffff_i64
                } else {
                    chunk.end_line as i64
                };
                let cid = graph.fresh_row_id();
                let chunk_node = crate::graph::Node {
                    id: cid.clone(),
                    project_id: graph.project_id().to_owned(),
                    name: chunk.name.clone(),
                    node_type: chunk.node_type,
                    file_path: Some(path.to_owned()),
                    start_line: Some(sl),
                    end_line: Some(el),
                    summary: Some(chunk.summary.clone()),
                    content_hash: None,
                };
                let ghost g1 = *graph;
                graph.add_node(&chunk_node);
                proof {
                    if exists|i: int|
                        0 <= i < g1.nodes@.len() && (#[trigger] g1.nodes@[i]).id@
                            == chunk_node.id@ {
                        let w = choose|i: int|
                            0 <= i < g1.nodes@.len() && (#[trigger] g1.nodes@[i]).id@
                                == chunk_node.id@;
                        assert(false);
                    }
                    assert(graph.nodes@ == g1.nodes@.push(chunk_node));
                    assert(chunk_node_ok(
                        graph.nodes@[g1.nodes@.len() as int],
                        pid,
                        path@,
                        chunksv[ci as int],
                    ));
                }
                graph.index_fts(&chunk_node, chunk.content.as_str());
                proof {
                    let pred = |row: crate::graph::FtsRow| row.node_id@ != chunk_node.id@;
                    assert forall|j: int| 0 <= j < g1.fts@.len() implies pred(
                        #[trigger] g1.fts@[j],
                    ) by {}
                    lemma_filter_keeps_all_fts(g1.fts@, pred);
                    assert(graph.fts@.drop_last() == g1.fts@);
                    assert forall|j: int| 0 <= j < g1.fts@.len() implies #[trigger] graph.fts@[j]
                        == g1.fts@[j] by {
                        assert(graph.fts@.drop_last()[j] == graph.fts@[j]);
                    }
                    assert(fts_row_ok(
                        graph.fts@[g1.fts@.len() as int],
                        cid@,
                        pid,
                        chunksv[ci as int].name,
                        chunksv[ci as int].content,
                        path@,
                    ));
                }
                let eid = graph.fresh_row_id();
                let edge = crate::graph::Edge {
                    id: eid,
                    project_id: graph.project_id().to_owned(),
                    source_id: fid.clone(),
                    target_id: chunk_node.id.clone(),
                    edge_type: EdgeType::Contains,
                    weight: 1000,
                };
                let ghost g2 = *graph;
                graph.add_edge(&edge);
                proof {
                    if exists|i: int|
                        0 <= i < g2.edges@.len() && ((#[trigger] g2.edges@[i]).id@ == edge.id@
                            || crate::graph::edge_triple_match(g2.edges@[i], edge)) {
                        let w = choose|i: int|
                            0 <= i < g2.edges@.len() && ((#[trigger] g2.edges@[i]).id@
                                == edge.id@ || crate::graph::edge_triple_match(
                                g2.edges@[i],
                                edge,
                            ));
                        assert(g2.edges@[w].target_id@ != cid@);
                        assert(false);
                    }
                    assert(graph.edges@ == g2.edges@.push(edge));
                    assert((graph.edges@[g2.edges@.len() as int]).source_id@ == fid@);
                }
                self.hash_tracker.update_chunk_hash(chunk_key.as_str(), chunk_hash.as_str());
                if created < usize::MAX {
                    created = created + 1;
                }
                proof {
                    assert(chunk_present(*graph, pid, path@, chunksv[ci as int], fid@)) by {
                        let j = g1.nodes@.len() as int;
                        assert(chunk_node_ok(graph.nodes@[j], pid, path@, chunksv[ci as int]));
                        assert(graph.nodes@[j].id@ == cid@);
                        assert(fts_row_ok(
                            graph.fts@[g1.fts@.len() as int],
                            cid@,
                            pid,
                            chunksv[ci as int].name,
                            chunksv[ci as int].content,
                            path@,
                        ));
                        assert((graph.edges@[g2.edges@.len() as int]).source_id@ == fid@
                            && graph.edges@[g2.edges@.len() as int].target_id@ == cid@
                            && graph.edges@[g2.edges@.len() as int].edge_type
                            == EdgeType::Contains && graph.edges@[
                            g2.edges@.len() as int
                        ].project_id@ == pid);
                    }
                    // Earlier chunks' rows are untouched: witnesses keep
                    // their places through the appends.
                    assert forall|cj: int|
                        0 <= cj < ci && chunk_written(chunksv, path@, e0, cj) implies chunk_present(
                        *graph,
                        pid,
                        path@,
                        #[trigger] chunksv[cj],
                        fid@,
                    ) by {
                        lemma_chunk_present_stable(g1, *graph, pid, path@, chunksv[cj], fid@);
                    }
                    // The hash environment advances by one written chunk.
                    assert forall|k: Seq<char>| true implies #[trigger] find_hash(
                        self.hash_tracker.rows@,
                        k,
                    ) == chunk_env(chunksv, path@, e0, ci + 1)(k) by {
                        if k != key {
                            assert(find_hash(self.hash_tracker.rows@, k) == chunk_env(
                                chunksv,
                                path@,
                                e0,
                                ci as int,
                            )(k));
                        }
                    }
                    // The stored texts are untouched by the chunk writes.
                    assert(graph.file_texts@ == g1.file_texts@);
                    assert forall|k: Seq<char>| k != path@ implies #[trigger] graph.spec_file_text(
                        k,
                    ) == old(graph).spec_file_text(k) by {
                        assert(graph.spec_file_text(k) == g1.spec_file_text(k));
                    }
                }
            } else {
                proof {
                    assert(chunk_env(chunksv, path@, e0, ci + 1) == chunk_env(
                        chunksv,
                        path@,
                        e0,
                        ci as int,
                    ));
                }
            }
            ci = ci + 1;
        }
        proof {
            assert(file_ingested(*graph, pid, path@, content@, e0, fid@)) by {
                assert(graph.nodes@[nfix].id@ == fid@ && file_node_ok(
                    graph.nodes@[nfix],
                    pid,
                    path@,
                    content@,
                ));
                assert(fts_row_ok(graph.fts@[ffix], fid@, pid, path@, content@, path@));
            }
            assert forall|k: Seq<char>| !contains_seq(k, "::"@) implies #[trigger] find_hash(
                self.hash_tracker.rows@,
                k,
            ) == find_hash(rows0, k) by {
                lemma_chunk_env_nonchunk(chunksv, path@, e0, chunksv.len() as int, k);
            }
        }
        created
    }


    /// Removes the rows of every file the store knows but the crawl did not
    /// find. When every known file path was crawled, nothing changes.
    pub fn cleanup_stale_nodes(&self, graph: &mut KnowledgeGraph, crawled: &Vec<String>)
        requires
            old(graph).wf(),
        ensures
            final(graph).wf(),
            final(graph).spec_project_id() == old(graph).spec_project_id(),
            // No file-typed node of an uncrawled path survives.
            forall|p: Seq<char>|
                !#[trigger] seq_has_string(crawled@, p) ==> !is_file_path_entry(
                    final(graph).nodes@,
                    old(graph).spec_project_id(),
                    p,
                ),
            // When nothing is stale, the graph is untouched.
            (forall|p: Seq<char>|
                #[trigger] is_file_path_entry(old(graph).nodes@, old(graph).spec_project_id(), p)
                    ==> seq_has_string(crawled@, p)) ==> *final(graph) == *old(graph),
            // For every stale path: no node of it remains, and no edge
            // references a node that carried it.
            forall|p: Seq<char>|
                !#[trigger] seq_has_string(crawled@, p) && is_file_path_entry(
                    old(graph).nodes@,
                    old(graph).spec_project_id(),
                    p,
                ) ==> stale_swept(*old(graph), *final(graph), p),
            // Rows of crawled files survive: a node survives unless its own
            // path is uncrawled; an edge or mirror row survives unless it
            // hangs off a node id owned by an uncrawled path.
            forall|m: int|
                0 <= m < old(graph).nodes@.len() ==> node_in(
                    final(graph).nodes@,
                    #[trigger] old(graph).nodes@[m],
                ) || (old(graph).nodes@[m].project_id@ == old(graph).spec_project_id() && old(graph).nodes@[m].file_path is Some && !seq_has_string(
                    crawled@,
                    old(graph).nodes@[m].file_path->0@,
                )),
            forall|m: int|
                0 <= m < old(graph).edges@.len() ==> edge_in(
                    final(graph).edges@,
                    #[trigger] old(graph).edges@[m],
                ) || exists|p: Seq<char>|
                    !seq_has_string(crawled@, p) && #[trigger] crate::graph_queries::edge_touches_file(
                        old(graph).edges@[m],
                        old(graph).nodes@,
                        p,
                        old(graph).spec_project_id(),
                    ),
            forall|m: int|
                0 <= m < old(graph).fts@.len() ==> fts_in(
                    final(graph).fts@,
                    #[trigger] old(graph).fts@[m],
                ) || exists|p: Seq<char>|
                    !seq_has_string(crawled@, p) && #[trigger] crate::graph_queries::id_owned(
                        old(graph).nodes@,
                        old(graph).fts@[m].node_id@,
                        p,
                        old(graph).spec_project_id(),
                    ),
            final(graph).file_texts@ == old(graph).file_texts@,
    {
        let ghost pid = graph.spec_project_id();
        let ghost g0 = *graph;
        let db_paths = graph.get_all_file_paths();
        let mut i: usize = 0;
        while i < db_paths.len()
            invariant
                graph.wf(),
                graph.spec_project_id() == pid,
                pid == g0.spec_project_id(),
                g0 == *old(graph),
                i <= db_paths@.len(),
                forall|a: int, b: int|
                    0 <= a < b < db_paths@.len() ==> (#[trigger] db_paths@[a])@ != (
                    #[trigger] db_paths@[b])@,
                forall|t: int|
                    0 <= t < db_paths@.len() ==> is_file_path_entry(
                        g0.nodes@,
                        pid,
                        (#[trigger] db_paths@[t])@,
                    ),
                seq_covers_file_paths(db_paths@, g0.nodes@, pid),
                // Nodes never grow.
                forall|j: int|
                    0 <= j < graph.nodes@.len() ==> node_in(
                        g0.nodes@,
                        #[trigger] graph.nodes@[j],
                    ),
                forall|j: int|
                    0 <= j < graph.edges@.len() ==> edge_in(
                        g0.edges@,
                        #[trigger] graph.edges@[j],
                    ),
                // Processed stale paths are swept.
                forall|t: int|
                    0 <= t < i && !seq_has_string(crawled@, (#[trigger] db_paths@[t])@)
                        ==> stale_swept(g0, *graph, db_paths@[t]@),
                // A starting node is still there unless a processed stale
                // path owned it.
                forall|m: int|
                    0 <= m < g0.nodes@.len() ==> node_in(
                        graph.nodes@,
                        #[trigger] g0.nodes@[m],
                    ) || exists|t: int|
                        0 <= t < i && !seq_has_string(crawled@, (#[trigger] db_paths@[t])@)
                            && crate::graph_queries::node_owned_by(
                            g0.nodes@[m],
                            db_paths@[t]@,
                            pid,
                        ),
                // A starting edge or mirror row is still there unless it
                // hangs off a node of a processed stale path.
                forall|m: int|
                    0 <= m < g0.edges@.len() ==> edge_in(
                        graph.edges@,
                        #[trigger] g0.edges@[m],
                    ) || exists|t: int|
                        0 <= t < i && !seq_has_string(crawled@, (#[trigger] db_paths@[t])@)
                            && crate::graph_queries::edge_touches_file(
                            g0.edges@[m],
                            g0.nodes@,
                            db_paths@[t]@,
                            pid,
                        ),
                forall|m: int|
                    0 <= m < g0.fts@.len() ==> fts_in(graph.fts@, #[trigger] g0.fts@[m])
                        || exists|t: int|
                        0 <= t < i && !seq_has_string(crawled@, (#[trigger] db_paths@[t])@)
                            && crate::graph_queries::id_owned(
                            g0.nodes@,
                            g0.fts@[m].node_id@,
                            db_paths@[t]@,
                            pid,
                        ),
                graph.file_texts@ == g0.file_texts@,
                // If nothing was deleted yet the graph is untouched.
                all_prefix_crawled(db_paths@, crawled@, i as int) ==> *graph == g0,
            decreases db_paths@.len() - i,
        {
            let ghost gpre = *graph;
            let stale = !Self::crawled_contains(crawled, &db_paths[i]);
            if stale {
                let ghost p_i = db_paths@[i as int]@;
                let ghost npred = |n: crate::graph::Node|
                    !crate::graph_queries::node_owned_by(n, p_i, pid);
                let ghost epred = |e: crate::graph::Edge|
                    !crate::graph_queries::edge_touches_file(e, gpre.nodes@, p_i, pid);
                graph.delete_nodes_for_file(db_paths[i].as_str());
                proof {
                    // Old nodes of path p_i all survived to this round.
                    assert forall|m: int|
                        0 <= m < g0.nodes@.len() && (#[trigger] g0.nodes@[m]).project_id@ == pid
                            && g0.nodes@[m].file_path is Some && g0.nodes@[m].file_path->0@
                            == p_i implies node_in(gpre.nodes@, g0.nodes@[m]) by {
                        if !node_in(gpre.nodes@, g0.nodes@[m]) {
                            let t = choose|t: int|
                                0 <= t < i && !seq_has_string(
                                    crawled@,
                                    (#[trigger] db_paths@[t])@,
                                ) && crate::graph_queries::node_owned_by(
                                    g0.nodes@[m],
                                    db_paths@[t]@,
                                    pid,
                                );
                            assert(db_paths@[t]@ == p_i);
                            assert((db_paths@[t])@ != (db_paths@[i as int])@);
                        }
                    }
                    lemma_sweep_step(g0, gpre, *graph, p_i, pid);
                    let ghost fpred2 = |row: crate::graph::FtsRow|
                        !crate::graph_queries::id_owned(gpre.nodes@, row.node_id@, p_i, pid);
                    // Edge and mirror-row survival bookkeeping.
                    assert forall|m: int| 0 <= m < g0.edges@.len() implies edge_in(
                        graph.edges@,
                        #[trigger] g0.edges@[m],
                    ) || exists|t: int|
                        0 <= t < i + 1 && !seq_has_string(crawled@, (#[trigger] db_paths@[t])@)
                            && crate::graph_queries::edge_touches_file(
                            g0.edges@[m],
                            g0.nodes@,
                            db_paths@[t]@,
                            pid,
                        ) by {
                        if edge_in(gpre.edges@, g0.edges@[m]) {
                            let w = choose|w: int|
                                0 <= w < gpre.edges@.len() && #[trigger] gpre.edges@[w]
                                    == g0.edges@[m];
                            if epred(g0.edges@[m]) {
                                gpre.edges@.lemma_filter_contains(epred, w);
                                let q = choose|q: int|
                                    0 <= q < gpre.edges@.filter(epred).len()
                                        && gpre.edges@.filter(epred)[q] == gpre.edges@[w];
                                assert(graph.edges@[q] == g0.edges@[m]);
                            } else {
                                // Touches the stale path, measured in the
                                // starting node table.
                                assert(crate::graph_queries::edge_touches_file(
                                    g0.edges@[m],
                                    gpre.nodes@,
                                    p_i,
                                    pid,
                                ));
                                assert(crate::graph_queries::edge_touches_file(
                                    g0.edges@[m],
                                    g0.nodes@,
                                    p_i,
                                    pid,
                                )) by {
                                    lemma_touches_lifts(g0, gpre, g0.edges@[m], p_i, pid);
                                }
                                assert(0 <= i < i + 1 && !seq_has_string(
                                    crawled@,
                                    (db_paths@[i as int])@,
                                ) && crate::graph_queries::edge_touches_file(
                                    g0.edges@[m],
                                    g0.nodes@,
                                    db_paths@[i as int]@,
                                    pid,
                                ));
                            }
                        } else {
                            let t = choose|t: int|
                                0 <= t < i && !seq_has_string(
                                    crawled@,
                                    (#[trigger] db_paths@[t])@,
                                ) && crate::graph_queries::edge_touches_file(
                                    g0.edges@[m],
                                    g0.nodes@,
                                    db_paths@[t]@,
                                    pid,
                                );
                        }
                    }
                    assert forall|m: int| 0 <= m < g0.fts@.len() implies fts_in(
                        graph.fts@,
                        #[trigger] g0.fts@[m],
                    ) || exists|t: int|
                        0 <= t < i + 1 && !seq_has_string(crawled@, (#[trigger] db_paths@[t])@)
                            && crate::graph_queries::id_owned(
                            g0.nodes@,
                            g0.fts@[m].node_id@,
                            db_paths@[t]@,
                            pid,
                        ) by {
                        if fts_in(gpre.fts@, g0.fts@[m]) {
                            let w = choose|w: int|
                                0 <= w < gpre.fts@.len() && #[trigger] gpre.fts@[w]
                                    == g0.fts@[m];
                            if fpred2(g0.fts@[m]) {
                                gpre.fts@.lemma_filter_contains(fpred2, w);
                                let q = choose|q: int|
                                    0 <= q < gpre.fts@.filter(fpred2).len()
                                        && gpre.fts@.filter(fpred2)[q] == gpre.fts@[w];
                                assert(graph.fts@[q] == g0.fts@[m]);
                            } else {
                                assert(crate::graph_queries::id_owned(
                                    gpre.nodes@,
                                    g0.fts@[m].node_id@,
                                    p_i,
                                    pid,
                                ));
                                assert(crate::graph_queries::id_owned(
                                    g0.nodes@,
                                    g0.fts@[m].node_id@,
                                    p_i,
                                    pid,
                                )) by {
                                    lemma_owned_lifts(g0, gpre, g0.fts@[m].node_id@, p_i, pid);
                                }
                                assert(0 <= i < i + 1 && !seq_has_string(
                                    crawled@,
                                    (db_paths@[i as int])@,
                                ) && crate::graph_queries::id_owned(
                                    g0.nodes@,
                                    g0.fts@[m].node_id@,
                                    db_paths@[i as int]@,
                                    pid,
                                ));
                            }
                        } else {
                            let t = choose|t: int|
                                0 <= t < i && !seq_has_string(
                                    crawled@,
                                    (#[trigger] db_paths@[t])@,
                                ) && crate::graph_queries::id_owned(
                                    g0.nodes@,
                                    g0.fts@[m].node_id@,
                                    db_paths@[t]@,
                                    pid,
                                );
                        }
                    }
                    assert forall|j: int| 0 <= j < graph.nodes@.len() implies node_in(
                        gpre.nodes@,
                        #[trigger] graph.nodes@[j],
                    ) by {
                        lemma_filter_elem_in(gpre.nodes@, graph.nodes@[j], npred);
                    }
                    assert forall|j: int| 0 <= j < graph.edges@.len() implies edge_in(
                        gpre.edges@,
                        #[trigger] graph.edges@[j],
                    ) by {
                        lemma_filter_edge_in(gpre.edges@, graph.edges@[j], epred);
                    }
                    assert forall|t: int|
                        0 <= t < i + 1 && !seq_has_string(
                            crawled@,
                            (#[trigger] db_paths@[t])@,
                        ) implies stale_swept(g0, *graph, db_paths@[t]@) by {
                        if t < i {
                            lemma_swept_monotone(g0, gpre, *graph, db_paths@[t]@);
                        }
                    }
                    assert forall|j: int| 0 <= j < graph.nodes@.len() implies node_in(
                        g0.nodes@,
                        #[trigger] graph.nodes@[j],
                    ) by {
                        lemma_filter_elem_in(gpre.nodes@, graph.nodes@[j], npred);
                        let w = choose|w: int|
                            0 <= w < gpre.nodes@.len() && #[trigger] gpre.nodes@[w]
                                == graph.nodes@[j];
                    }
                    assert forall|j: int| 0 <= j < graph.edges@.len() implies edge_in(
                        g0.edges@,
                        #[trigger] graph.edges@[j],
                    ) by {
                        lemma_filter_edge_in(gpre.edges@, graph.edges@[j], epred);
                        let w = choose|w: int|
                            0 <= w < gpre.edges@.len() && #[trigger] gpre.edges@[w]
                                == graph.edges@[j];
                    }
                    // Survival bookkeeping for old nodes.
                    assert forall|m: int| 0 <= m < g0.nodes@.len() implies node_in(
                        graph.nodes@,
                        #[trigger] g0.nodes@[m],
                    ) || exists|t: int|
                        0 <= t < i + 1 && !seq_has_string(crawled@, (#[trigger] db_paths@[t])@)
                            && crate::graph_queries::node_owned_by(
                            g0.nodes@[m],
                            db_paths@[t]@,
                            pid,
                        ) by {
                        if node_in(gpre.nodes@, g0.nodes@[m]) {
                            let w = choose|w: int|
                                0 <= w < gpre.nodes@.len() && #[trigger] gpre.nodes@[w]
                                    == g0.nodes@[m];
                            if npred(g0.nodes@[m]) {
                                gpre.nodes@.lemma_filter_contains(npred, w);
                                let q = choose|q: int|
                                    0 <= q < gpre.nodes@.filter(npred).len()
                                        && gpre.nodes@.filter(npred)[q] == gpre.nodes@[w];
                                assert(graph.nodes@[q] == g0.nodes@[m]);
                            } else {
                                assert(crate::graph_queries::node_owned_by(
                                    g0.nodes@[m],
                                    p_i,
                                    pid,
                                ));
                                assert(0 <= i < i + 1 && !seq_has_string(
                                    crawled@,
                                    (db_paths@[i as int])@,
                                ) && crate::graph_queries::node_owned_by(
                                    g0.nodes@[m],
                                    db_paths@[i as int]@,
                                    pid,
                                ));
                            }
                        } else {
                            let t = choose|t: int|
                                0 <= t < i && !seq_has_string(
                                    crawled@,
                                    (#[trigger] db_paths@[t])@,
                                ) && crate::graph_queries::node_owned_by(
                                    g0.nodes@[m],
                                    db_paths@[t]@,
                                    pid,
                                );
                        }
                    }
                }
            } else {
                proof {
                    assert(seq_has_string(crawled@, db_paths@[i as int]@));
                }
            }
            i = i + 1;
        }
        proof {
            assert forall|p: Seq<char>| !#[trigger] seq_has_string(crawled@, p) implies !is_file_path_entry(
                graph.nodes@,
                pid,
                p,
            ) by {
                if is_file_path_entry(graph.nodes@, pid, p) {
                    let w = choose|w: int|
                        0 <= w < graph.nodes@.len() && (#[trigger] graph.nodes@[w]).node_type
                            == NodeType::File && graph.nodes@[w].project_id@ == pid
                            && graph.nodes@[w].file_path is Some
                            && graph.nodes@[w].file_path->0@ == p;
                    assert(node_in(g0.nodes@, graph.nodes@[w]));
                    let w0 = choose|w0: int|
                        0 <= w0 < g0.nodes@.len() && #[trigger] g0.nodes@[w0]
                            == graph.nodes@[w];
                    assert(is_file_path_entry(g0.nodes@, pid, p)) by {
                        assert(g0.nodes@[w0].node_type == NodeType::File && g0.nodes@[
                            w0
                        ].project_id@ == pid && g0.nodes@[w0].file_path is Some && g0.nodes@[
                            w0
                        ].file_path->0@ == p);
                    }
                    // The path was listed at the start, so it was processed.
                    assert(seq_has_string(db_paths@, p)) by {
                        assert(g0.nodes@[w0].file_path->0@ == p);
                    }
                    let t = choose|t: int|
                        0 <= t < db_paths@.len() && ((#[trigger] db_paths@[t])@) == p;
                    assert(stale_swept(g0, *graph, p));
                    assert(!(graph.nodes@[w].project_id@ == pid && graph.nodes@[w].file_path
                        is Some && graph.nodes@[w].file_path->0@ == p));
                }
            }
            assert forall|m: int| 0 <= m < g0.nodes@.len() implies node_in(
                graph.nodes@,
                #[trigger] g0.nodes@[m],
            ) || (g0.nodes@[m].project_id@ == pid && g0.nodes@[m].file_path is Some
                && !seq_has_string(crawled@, g0.nodes@[m].file_path->0@)) by {
                if !node_in(graph.nodes@, g0.nodes@[m]) {
                    let t = choose|t: int|
                        0 <= t < i && !seq_has_string(crawled@, (#[trigger] db_paths@[t])@)
                            && crate::graph_queries::node_owned_by(
                            g0.nodes@[m],
                            db_paths@[t]@,
                            pid,
                        );
                }
            }
            assert forall|m: int| 0 <= m < g0.edges@.len() implies edge_in(
                graph.edges@,
                #[trigger] g0.edges@[m],
            ) || exists|p: Seq<char>|
                !seq_has_string(crawled@, p) && #[trigger] crate::graph_queries::edge_touches_file(
                    g0.edges@[m],
                    g0.nodes@,
                    p,
                    pid,
                ) by {
                if !edge_in(graph.edges@, g0.edges@[m]) {
                    let t = choose|t: int|
                        0 <= t < i && !seq_has_string(crawled@, (#[trigger] db_paths@[t])@)
                            && crate::graph_queries::edge_touches_file(
                            g0.edges@[m],
                            g0.nodes@,
                            db_paths@[t]@,
                            pid,
                        );
                    assert(!seq_has_string(crawled@, db_paths@[t]@)
                        && crate::graph_queries::edge_touches_file(
                        g0.edges@[m],
                        g0.nodes@,
                        db_paths@[t]@,
                        pid,
                    ));
                }
            }
            assert forall|m: int| 0 <= m < g0.fts@.len() implies fts_in(
                graph.fts@,
                #[trigger] g0.fts@[m],
            ) || exists|p: Seq<char>|
                !seq_has_string(crawled@, p) && #[trigger] crate::graph_queries::id_owned(
                    g0.nodes@,
                    g0.fts@[m].node_id@,
                    p,
                    pid,
                ) by {
                if !fts_in(graph.fts@, g0.fts@[m]) {
                    let t = choose|t: int|
                        0 <= t < i && !seq_has_string(crawled@, (#[trigger] db_paths@[t])@)
                            && crate::graph_queries::id_owned(
                            g0.nodes@,
                            g0.fts@[m].node_id@,
                            db_paths@[t]@,
                            pid,
                        );
                    assert(!seq_has_string(crawled@, db_paths@[t]@)
                        && crate::graph_queries::id_owned(
                        g0.nodes@,
                        g0.fts@[m].node_id@,
                        db_paths@[t]@,
                        pid,
                    ));
                }
            }
            if forall|p: Seq<char>|
                #[trigger] is_file_path_entry(g0.nodes@, pid, p) ==> seq_has_string(crawled@, p) {
                assert(all_prefix_crawled(db_paths@, crawled@, db_paths@.len() as int)) by {
                    assert forall|t: int| 0 <= t < db_paths@.len() implies seq_has_string(
                        crawled@,
                        (#[trigger] db_paths@[t])@,
                    ) by {
                        assert(is_file_path_entry(g0.nodes@, pid, db_paths@[t]@));
                    }
                }
            }
        }
    }

    /// One incremental run: a serial skip pass against the stored hashes, a
    /// write pass over the changed files, hash updates, and the stale sweep.
    /// The counts report exactly what happened: every file is either skipped
    /// (its stored hash matched) or indexed, and nothing fails.
    #[verifier::rlimit(80)]
    pub fn ingest_directory(&mut self, graph: &mut KnowledgeGraph, files: &Vec<SourceFile>) -> (r:
        IngestionReport)
        requires
            old(graph).wf(),
            old(self).hash_tracker.wf(),
            forall|i: int, j: int|
                0 <= i < j < files@.len() ==> (#[trigger] files@[i]).path@ != (
                #[trigger] files@[j]).path@,
            forall|i: int|
                0 <= i < files@.len() ==> !contains_seq((#[trigger] files@[i]).path@, "::"@),
        ensures
            final(graph).wf(),
            final(self).hash_tracker.wf(),
            final(graph).spec_project_id() == old(graph).spec_project_id(),
            r.total_files == files@.len(),
            r.errors == 0,
            r.skipped == count_matched(old(self).hash_tracker.rows@, files@, files@.len() as int),
            r.indexed + r.skipped == r.total_files,
            // Afterwards every given file's stored hash matches its content.
            forall|i: int|
                0 <= i < files@.len() ==> #[trigger] find_hash(
                    final(self).hash_tracker.rows@,
                    files@[i].path@,
                ) == Some(content_hash_of(files@[i].content@)),
            // No file-typed node of a path outside this file set survives.
            forall|p: Seq<char>|
                !#[trigger] files_have_path(files@, p) ==> !is_file_path_entry(
                    final(graph).nodes@,
                    old(graph).spec_project_id(),
                    p,
                ),
            // A run that indexes nothing, over a store whose file paths were
            // all crawled, leaves the graph exactly as it was.
            (r.indexed == 0 && (forall|p: Seq<char>|
                #[trigger] is_file_path_entry(old(graph).nodes@, old(graph).spec_project_id(), p)
                    ==> files_have_path(files@, p))) ==> *final(graph) == *old(graph),
            // Every ingested file's rows stand in the final graph: its file
            // node, mirror row and text, and the rows of every chunk written
            // at its turn.
            forall|i: int|
                0 <= i < files@.len() && !#[trigger] file_hash_matches(
                    old(self).hash_tracker.rows@,
                    files@[i],
                ) ==> exists|fid: Seq<char>|
                    #[trigger] file_ingested(
                        *final(graph),
                        old(graph).spec_project_id(),
                        files@[i].path@,
                        files@[i].content@,
                        run_env(files@, old(self).hash_tracker.rows@, i),
                        fid,
                    ),
            // The node count is the run's fold: one per ingested file plus
            // one per chunk written at its turn, saturating.
            r.nodes_created as int == run_created(
                files@,
                old(self).hash_tracker.rows@,
                files@.len() as int,
            ),
            // The tracker answers per the run's fold.
            forall|kk: Seq<char>|
                #[trigger] find_hash(final(self).hash_tracker.rows@, kk) == run_env(
                    files@,
                    old(self).hash_tracker.rows@,
                    files@.len() as int,
                )(kk),
            // A known file that the crawl no longer found is fully swept:
            // no node of its path remains, of any type, and no edge
            // references a node that carried it.
            forall|p: Seq<char>|
                !#[trigger] files_have_path(files@, p) && is_file_path_entry(
                    old(graph).nodes@,
                    old(graph).spec_project_id(),
                    p,
                ) ==> stale_swept(*old(graph), *final(graph), p),
    {
        let ghost pid = graph.spec_project_id();
        let ghost rows0 = self.hash_tracker.rows@;
        let n = files.len();
        let mut skipped: usize = 0;
        let mut to_ingest: Vec<usize> = Vec::new();
        let mut i: usize = 0;
        while i < n
            invariant
                *self == *old(self),
                *graph == *old(graph),
                self.hash_tracker.wf(),
                rows0 == self.hash_tracker.rows@,
                n == files@.len(),
                i <= n,
                skipped == count_matched(rows0, files@, i as int),
                skipped <= i,
                forall|t: int|
                    0 <= t < to_ingest@.len() ==> (#[trigger] to_ingest@[t]) < i
                        && !file_hash_matches(rows0, files@[to_ingest@[t] as int]),
                forall|j: int|
                    0 <= j < i ==> file_hash_matches(rows0, #[trigger] files@[j]) || (exists|
                        t: int,
                    |
                        0 <= t < to_ingest@.len() && (#[trigger] to_ingest@[t]) == j),
                forall|a: int, b: int|
                    0 <= a < b < to_ingest@.len() ==> (#[trigger] to_ingest@[a]) < (
                    #[trigger] to_ingest@[b]),
                skipped + to_ingest@.len() == i,
            decreases n - i,
        {
            if self.hash_tracker.is_unchanged(files[i].path.as_str(), files[i].content.as_str()) {
                skipped = skipped + 1;
            } else {
                let ghost prev = to_ingest@;
                to_ingest.push(i);
                proof {
                    assert forall|a: int, b: int|
                        0 <= a < b < to_ingest@.len() implies (#[trigger] to_ingest@[a]) < (
                    #[trigger] to_ingest@[b]) by {
                        if b == prev.len() {
                            assert(to_ingest@[a] == prev[a]);
                        } else {
                            assert(to_ingest@[a] == prev[a] && to_ingest@[b] == prev[b]);
                        }
                    }
                    assert forall|j: int|
                        0 <= j < i + 1 implies file_hash_matches(rows0, #[trigger] files@[j]) || (
                    exists|t: int|
                        0 <= t < to_ingest@.len() && (#[trigger] to_ingest@[t]) == j) by {
                        if j == i {
                            assert(to_ingest@[prev.len() as int] == j);
                        } else if !file_hash_matches(rows0, files@[j]) {
                            let t = choose|t: int|
                                0 <= t < prev.len() && (#[trigger] prev[t]) == j;
                            assert(to_ingest@[t] == j);
                        }
                    }
                }
            }
            i = i + 1;
        }
        let mut indexed: usize = 0;
        let mut nodes_created: usize = 0;
        let mut k: usize = 0;
        let ghost graph1 = *graph;
        proof {
            assert forall|kk: Seq<char>| true implies #[trigger] find_hash(
                self.hash_tracker.rows@,
                kk,
            ) == run_env(files@, rows0, run_bound(to_ingest@, 0))(kk) by {}
        }
        while k < to_ingest.len()
            invariant
                graph.wf(),
                self.hash_tracker.wf(),
                graph.spec_project_id() == pid,
                pid == old(graph).spec_project_id(),
                graph1 == *old(graph),
                rows0 == old(self).hash_tracker.rows@,
                n == files@.len(),
                k <= to_ingest@.len(),
                indexed == k,
                to_ingest@.len() == 0 ==> *graph == graph1,
                forall|t: int|
                    0 <= t < to_ingest@.len() ==> (#[trigger] to_ingest@[t]) < n
                        && !file_hash_matches(rows0, files@[to_ingest@[t] as int]),
                forall|a: int, b: int|
                    0 <= a < b < to_ingest@.len() ==> (#[trigger] to_ingest@[a]) < (
                    #[trigger] to_ingest@[b]),
                forall|j: int|
                    0 <= j < n ==> file_hash_matches(rows0, #[trigger] files@[j]) || (exists|
                        t: int,
                    |
                        0 <= t < to_ingest@.len() && (#[trigger] to_ingest@[t]) == j),
                run_bound(to_ingest@, k as int) <= n,
                // Prior rows keep their places through the write phase.
                graph.nodes@.len() >= graph1.nodes@.len(),
                forall|j: int|
                    0 <= j < graph1.nodes@.len() ==> #[trigger] graph.nodes@[j]
                        == graph1.nodes@[j],
                graph.edges@.len() >= graph1.edges@.len(),
                forall|j: int|
                    0 <= j < graph1.edges@.len() ==> #[trigger] graph.edges@[j]
                        == graph1.edges@[j],
                // The tracker tracks the run fold.
                forall|kk: Seq<char>|
                    #[trigger] find_hash(self.hash_tracker.rows@, kk) == run_env(
                        files@,
                        rows0,
                        run_bound(to_ingest@, k as int),
                    )(kk),
                // Processed files' rows stand in the current graph.
                processed_work(*graph, pid, files@, rows0, to_ingest@, k as int),
                nodes_created as int == run_created(
                    files@,
                    rows0,
                    run_bound(to_ingest@, k as int),
                ),
                forall|i2: int, j2: int|
                    0 <= i2 < j2 < files@.len() ==> (#[trigger] files@[i2]).path@ != (
                    #[trigger] files@[j2]).path@,
                forall|i2: int|
                    0 <= i2 < files@.len() ==> !contains_seq(
                        (#[trigger] files@[i2]).path@,
                        "::"@,
                    ),
                // Hash rows: processed files match; everything else without a
                // chunk separator is as before.
                forall|j: int|
                    0 <= j < n ==> #[trigger] find_hash(
                        self.hash_tracker.rows@,
                        files@[j].path@,
                    ) == if (exists|t: int|
                        0 <= t < k && (#[trigger] to_ingest@[t]) == j) {
                        Some(content_hash_of(files@[j].content@))
                    } else {
                        find_hash(rows0, files@[j].path@)
                    },
            decreases to_ingest@.len() - k,
        {
            let idx = to_ingest[k];
            let ghost rows_pre = self.hash_tracker.rows@;
            let ghost gpre = *graph;
            let ghost b_pre = run_bound(to_ingest@, k as int);
            let ghost fpath = files@[idx as int].path@;
            let ghost fcontent = files@[idx as int].content@;
            let ghost fchunks = chunker::chunk_file_spec(fpath, fcontent);
            proof {
                // Every file between the last processed one and this one was
                // skipped, so the run fold stands still across them.
                assert forall|j: int| b_pre <= j < idx implies file_hash_matches(
                    rows0,
                    #[trigger] files@[j],
                ) by {
                    if !file_hash_matches(rows0, files@[j]) {
                        let t = choose|t: int|
                            0 <= t < to_ingest@.len() && (#[trigger] to_ingest@[t]) == j;
                        if t < k {
                            if k > 0 {
                                if t < k - 1 {
                                    assert(to_ingest@[t] < to_ingest@[k - 1]);
                                }
                                assert(to_ingest@[t] < b_pre);
                            }
                        } else {
                            if t > k {
                                assert(to_ingest@[k as int] < to_ingest@[t]);
                            }
                            assert(to_ingest@[t] >= idx);
                        }
                    }
                }
                lemma_run_skip_stretch(files@, rows0, b_pre, idx as int);
                assert forall|kk: Seq<char>| true implies #[trigger] env_of(rows_pre)(kk)
                    == run_env(files@, rows0, idx as int)(kk) by {
                    assert(find_hash(rows_pre, kk) == run_env(files@, rows0, b_pre)(kk));
                }
            }
            let c = self.ingest_file(
                graph,
                files[idx].path.as_str(),
                files[idx].content.as_str(),
            );
            let ghost rows_mid = self.hash_tracker.rows@;
            self.hash_tracker.update_hash(files[idx].path.as_str(), files[idx].content.as_str());
            indexed = indexed + 1;
            if nodes_created <= usize::MAX - c {
                nodes_created = nodes_created + c;
            } else {
                nodes_created = usize::MAX;
            }
            k = k + 1;
            proof {
                lemma_chunk_env_pointwise(
                    fchunks,
                    fpath,
                    env_of(rows_pre),
                    run_env(files@, rows0, idx as int),
                    fchunks.len() as int,
                );
                assert(run_bound(to_ingest@, k as int) == idx + 1);
                // The tracker now answers per the fold advanced by this file.
                assert forall|kk: Seq<char>| true implies #[trigger] find_hash(
                    self.hash_tracker.rows@,
                    kk,
                ) == run_env(files@, rows0, idx + 1)(kk) by {
                    if kk == fpath {
                    } else {
                        assert(find_hash(self.hash_tracker.rows@, kk) == find_hash(
                            rows_mid,
                            kk,
                        ));
                        assert(find_hash(rows_mid, kk) == chunk_env(
                            fchunks,
                            fpath,
                            env_of(rows_pre),
                            fchunks.len() as int,
                        )(kk));
                    }
                }
                // The node count advances by this file's written rows.
                lemma_run_created_nonneg(files@, rows0, idx as int);
                lemma_written_count_nonneg(
                    fchunks,
                    fpath,
                    run_env(files@, rows0, idx as int),
                    fchunks.len() as int,
                );
                assert(nodes_created as int == run_created(files@, rows0, idx + 1));
                // This file's rows, and every earlier file's, stand in the
                // graph.
                let fid0 = choose|fid: Seq<char>|
                    #[trigger] file_ingested(
                        *graph,
                        pid,
                        fpath,
                        fcontent,
                        env_of(rows_pre),
                        fid,
                    );
                lemma_file_ingested_env(
                    *graph,
                    pid,
                    fpath,
                    fcontent,
                    env_of(rows_pre),
                    run_env(files@, rows0, idx as int),
                    fid0,
                );
                assert(file_ingested(
                    *graph,
                    pid,
                    files@[to_ingest@[k - 1] as int].path@,
                    files@[to_ingest@[k - 1] as int].content@,
                    run_env(files@, rows0, to_ingest@[k - 1] as int),
                    fid0,
                )) by {
                    assert(to_ingest@[k - 1] == idx);
                }
                lemma_processed_work_step(
                    gpre,
                    *graph,
                    pid,
                    files@,
                    rows0,
                    to_ingest@,
                    k as int,
                    fid0,
                );
                // The per-path clause carried by the earlier form.
                assert forall|j: int| 0 <= j < n implies #[trigger] find_hash(
                    self.hash_tracker.rows@,
                    files@[j].path@,
                ) == if (exists|t: int|
                    0 <= t < k && (#[trigger] to_ingest@[t]) == j) {
                    Some(content_hash_of(files@[j].content@))
                } else {
                    find_hash(rows0, files@[j].path@)
                } by {
                    if j == idx {
                        assert(to_ingest@[k - 1] == j);
                    } else {
                        assert(files@[j].path@ != files@[idx as int].path@) by {
                            if j < idx {
                                assert(files@[j].path@ != files@[idx as int].path@);
                            }
                        }
                        assert(find_hash(self.hash_tracker.rows@, files@[j].path@) == find_hash(
                            rows_pre,
                            files@[j].path@,
                        ));
                        if exists|t: int| 0 <= t < k && (#[trigger] to_ingest@[t]) == j {
                            let t = choose|t: int|
                                0 <= t < k && (#[trigger] to_ingest@[t]) == j;
                            assert(t < k - 1);
                        }
                    }
                }
            }
        }
        let ghost bfin = run_bound(to_ingest@, to_ingest@.len() as int);
        proof {
            // Every file past the last processed one was skipped.
            assert forall|j: int| bfin <= j < n implies file_hash_matches(
                rows0,
                #[trigger] files@[j],
            ) by {
                if !file_hash_matches(rows0, files@[j]) {
                    let t = choose|t: int|
                        0 <= t < to_ingest@.len() && (#[trigger] to_ingest@[t]) == j;
                    if to_ingest@.len() > 0 {
                        if t < to_ingest@.len() - 1 {
                            assert(to_ingest@[t] < to_ingest@[to_ingest@.len() - 1]);
                        }
                        assert(to_ingest@[t] < bfin);
                    }
                }
            }
            lemma_run_skip_stretch(files@, rows0, bfin, n as int);
            assert(nodes_created as int == run_created(files@, rows0, n as int));
            assert forall|kk: Seq<char>| true implies #[trigger] find_hash(
                self.hash_tracker.rows@,
                kk,
            ) == run_env(files@, rows0, n as int)(kk) by {
                assert(find_hash(self.hash_tracker.rows@, kk) == run_env(
                    files@,
                    rows0,
                    bfin,
                )(kk));
            }
            // Every ingested file's rows stand in the pre-sweep graph.
            assert forall|i2: int|
                0 <= i2 < n && !#[trigger] file_hash_matches(rows0, files@[i2])
                    implies exists|fid: Seq<char>|
                #[trigger] file_ingested(
                    *graph,
                    pid,
                    files@[i2].path@,
                    files@[i2].content@,
                    run_env(files@, rows0, i2),
                    fid,
                ) by {
                let t = choose|t: int|
                    0 <= t < to_ingest@.len() && (#[trigger] to_ingest@[t]) == i2;
                assert(file_work_at(*graph, pid, files@, rows0, to_ingest@, t));
                let fid = choose|fid: Seq<char>|
                    #[trigger] file_ingested(
                        *graph,
                        pid,
                        files@[to_ingest@[t] as int].path@,
                        files@[to_ingest@[t] as int].content@,
                        run_env(files@, rows0, to_ingest@[t] as int),
                        fid,
                    );
                assert(file_ingested(
                    *graph,
                    pid,
                    files@[i2].path@,
                    files@[i2].content@,
                    run_env(files@, rows0, i2),
                    fid,
                ));
            }
        }
        // Stale sweep against the crawled path set.
        let mut crawled: Vec<String> = Vec::new();
        let mut ci: usize = 0;
        while ci < n
            invariant
                n == files@.len(),
                ci <= n,
                crawled@.len() == ci,
                forall|j: int| 0 <= j < ci ==> (#[trigger] crawled@[j])@ == files@[j].path@,
            decreases n - ci,
        {
            crawled.push(files[ci].path.clone());
            ci = ci + 1;
        }
        proof {
            assert forall|p: Seq<char>| true implies (#[trigger] seq_has_string(crawled@, p))
                == files_have_path(files@, p) by {
                if seq_has_string(crawled@, p) {
                    let w = choose|w: int|
                        0 <= w < crawled@.len() && (#[trigger] crawled@[w])@ == p;
                    assert(files@[w].path@ == p);
                }
                if files_have_path(files@, p) {
                    let w = choose|w: int|
                        0 <= w < files@.len() && (#[trigger] files@[w]).path@ == p;
                    assert((crawled@[w])@ == p);
                }
            }
        }
        let ghost graph2 = *graph;
        self.cleanup_stale_nodes(graph, &crawled);
        proof {
            assert forall|p: Seq<char>| !#[trigger] files_have_path(files@, p)
                implies !is_file_path_entry(graph.nodes@, pid, p) by {
                assert(!seq_has_string(crawled@, p));
            }
            if indexed == 0 && (forall|p: Seq<char>|
                #[trigger] is_file_path_entry(graph1.nodes@, pid, p) ==> files_have_path(
                    files@,
                    p,
                )) {
                assert(graph2 == graph1);
                assert(*graph == graph2);
            }
            // The run-level sweep: stale paths of the starting graph are
            // cleared, and their former nodes are unreferenced.
            assert forall|p: Seq<char>|
                !#[trigger] files_have_path(files@, p) && is_file_path_entry(
                    graph1.nodes@,
                    pid,
                    p,
                ) implies stale_swept(graph1, *graph, p) by {
                assert(is_file_path_entry(graph2.nodes@, pid, p)) by {
                    let w = choose|w: int|
                        0 <= w < graph1.nodes@.len() && (#[trigger] graph1.nodes@[w]).node_type
                            == NodeType::File && graph1.nodes@[w].project_id@ == pid
                            && graph1.nodes@[w].file_path is Some
                            && graph1.nodes@[w].file_path->0@ == p;
                    assert(graph2.nodes@[w] == graph1.nodes@[w]);
                }
                assert(!seq_has_string(crawled@, p));
                assert(stale_swept(graph2, *graph, p));
                assert forall|e: int, m: int|
                    0 <= e < graph.edges@.len() && 0 <= m < graph1.nodes@.len() && (
                #[trigger] graph1.nodes@[m]).project_id@ == pid && graph1.nodes@[m].file_path
                    is Some && graph1.nodes@[m].file_path->0@ == p implies ((
                #[trigger] graph.edges@[e]).source_id@ != graph1.nodes@[m].id@
                    && graph.edges@[e].target_id@ != graph1.nodes@[m].id@) by {
                    assert(graph2.nodes@[m] == graph1.nodes@[m]);
                }
            }
            assert forall|i2: int|
                0 <= i2 < n && !#[trigger] file_hash_matches(rows0, files@[i2])
                    implies exists|fid: Seq<char>|
                #[trigger] file_ingested(
                    *graph,
                    pid,
                    files@[i2].path@,
                    files@[i2].content@,
                    run_env(files@, rows0, i2),
                    fid,
                ) by {
                let fid = choose|fid: Seq<char>|
                    #[trigger] file_ingested(
                        graph2,
                        pid,
                        files@[i2].path@,
                        files@[i2].content@,
                        run_env(files@, rows0, i2),
                        fid,
                    );
                assert(seq_has_string(crawled@, files@[i2].path@)) by {
                    assert((crawled@[i2])@ == files@[i2].path@);
                }
                lemma_file_ingested_survives_sweep(
                    graph2,
                    *graph,
                    crawled@,
                    pid,
                    files@[i2].path@,
                    files@[i2].content@,
                    run_env(files@, rows0, i2),
                    fid,
                );
            }
        }
        IngestionReport {
            total_files: n,
            indexed,
            skipped,
            errors: 0,
            nodes_created,
        }
    }

    /// Whether the crawled list holds this path.
    fn crawled_contains(crawled: &Vec<String>, x: &String) -> (r: bool)
        ensures
            r == seq_has_string(crawled@, x@),
    {
        let mut i: usize = 0;
        while i < crawled.len()
            invariant
                i <= crawled@.len(),
                forall|j: int| 0 <= j < i ==> (#[trigger] crawled@[j])@ != x@,
            decreases crawled@.len() - i,
        {
            if crawled[i] == *x {
                proof {
                    assert((crawled@[i as int])@ == x@);
                }
                return true;
            }
            i = i + 1;
        }
        false
    }
}

/// Every file-typed node's path of the project is listed.
pub open spec fn seq_covers_file_paths(
    paths: Seq<String>,
    nodes: Seq<crate::graph::Node>,
    pid: Seq<char>,
) -> bool {
    forall|j: int|
        0 <= j < nodes.len() && (#[trigger] nodes[j]).node_type == NodeType::File
            && nodes[j].project_id@ == pid && nodes[j].file_path is Some ==> seq_has_string(
            paths,
            nodes[j].file_path->0@,
        )
}

/// How many of the first `j` files are ingested (do not match).
pub open spec fn ingested_count(
    files: Seq<SourceFile>,
    rows0: Seq<hash_tracker::HashRow>,
    j: int,
) -> int
    decreases j,
{
    if j <= 0 {
        0
    } else {
        ingested_count(files, rows0, j - 1) + if file_hash_matches(rows0, files[j - 1]) {
            0int
        } else {
            1int
        }
    }
}

/// Every ingested file contributes at least one node.
pub proof fn lemma_run_created_at_least_indexed(
    files: Seq<SourceFile>,
    rows0: Seq<hash_tracker::HashRow>,
    j: int,
)
    ensures
        run_created(files, rows0, j) >= (if ingested_count(files, rows0, j) > usize::MAX {
            usize::MAX as int
        } else {
            ingested_count(files, rows0, j)
        }),
    decreases j,
{
    if j > 0 {
        lemma_run_created_at_least_indexed(files, rows0, j - 1);
        lemma_run_created_nonneg(files, rows0, j - 1);
        if !file_hash_matches(rows0, files[j - 1]) {
            let chunks = chunker::chunk_file_spec(files[j - 1].path@, files[j - 1].content@);
            lemma_written_count_nonneg(
                chunks,
                files[j - 1].path@,
                run_env(files, rows0, j - 1),
                chunks.len() as int,
            );
        }
        if j > 0 {
            lemma_ingested_count_bounds(files, rows0, j);
        }
    }
}

proof fn lemma_ingested_count_bounds(
    files: Seq<SourceFile>,
    rows0: Seq<hash_tracker::HashRow>,
    j: int,
)
    ensures
        0 <= ingested_count(files, rows0, j) <= (if j >= 0 {
            j
        } else {
            0
        }),
    decreases j,
{
    if j > 0 {
        lemma_ingested_count_bounds(files, rows0, j - 1);
    }
}

/// On a fresh store every file is ingested, and the first file's first
/// chunk is always written: with a chunk to write, the run creates at least
/// one node more than it has files.
pub proof fn lemma_fresh_run_floor(files: Seq<SourceFile>, j: int)
    requires
        1 <= j <= files.len(),
        j <= usize::MAX - 1,
        chunker::chunk_file_spec(files[0].path@, files[0].content@).len() > 0,
    ensures
        ingested_count(files, Seq::empty(), j) == j,
        run_created(files, Seq::empty(), j) >= j + 1,
    decreases j,
{
    let rows0 = Seq::<hash_tracker::HashRow>::empty();
    assert forall|i: int| 0 <= i < files.len() implies !file_hash_matches(
        rows0,
        #[trigger] files[i],
    ) by {
        assert(find_hash(rows0, files[i].path@) is None);
    }
    if j == 1 {
        let chunks = chunker::chunk_file_spec(files[0].path@, files[0].content@);
        assert(chunk_written(chunks, files[0].path@, run_env(files, rows0, 0), 0)) by {
            assert(run_env(files, rows0, 0) == env_of(rows0));
            assert(env_of(rows0)(chunk_key_of(files[0].path@, chunks[0].name)) is None);
        }
        lemma_written_floor(chunks, files[0].path@, run_env(files, rows0, 0), chunks.len() as int);
        assert(!file_hash_matches(rows0, files[0]));
        assert(ingested_count(files, rows0, 0) == 0);
        assert(run_created(files, rows0, 0) == 0);
        assert(ingested_count(files, rows0, 1) == 1);
        let wc = 1 + written_count(chunks, files[0].path@, run_env(files, rows0, 0), chunks.len() as int);
        assert(wc >= 2);
        assert(run_created(files, rows0, 1) == (if 0 + (if wc > usize::MAX {
            usize::MAX as int
        } else {
            wc
        }) > usize::MAX {
            usize::MAX as int
        } else {
            0 + (if wc > usize::MAX {
                usize::MAX as int
            } else {
                wc
            })
        }));
    } else {
        lemma_fresh_run_floor(files, j - 1);
        lemma_run_created_nonneg(files, rows0, j - 1);
        let chunks = chunker::chunk_file_spec(files[j - 1].path@, files[j - 1].content@);
        lemma_written_count_nonneg(
            chunks,
            files[j - 1].path@,
            run_env(files, rows0, j - 1),
            chunks.len() as int,
        );
        assert(!file_hash_matches(rows0, files[j - 1]));
        assert(ingested_count(files, rows0, j) == ingested_count(files, rows0, j - 1) + 1);
    }
}

/// A written chunk makes the written count positive.
proof fn lemma_written_floor(
    chunks: Seq<chunker::ChunkView>,
    path: Seq<char>,
    e0: spec_fn(Seq<char>) -> Option<Seq<char>>,
    i: int,
)
    requires
        i >= 1,
        chunk_written(chunks, path, e0, 0),
    ensures
        written_count(chunks, path, e0, i) >= 1,
    decreases i,
{
    if i == 1 {
        assert(written_count(chunks, path, e0, 0) == 0);
        assert(written_count(chunks, path, e0, 1) == 1);
    } else {
        lemma_written_floor(chunks, path, e0, i - 1);
        lemma_written_count_nonneg(chunks, path, e0, i - 1);
        assert(written_count(chunks, path, e0, i) >= written_count(chunks, path, e0, i - 1));
    }
}

/// How many files match when they all do: every one.
pub proof fn lemma_count_matched_all(
    rows: Seq<hash_tracker::HashRow>,
    files: Seq<SourceFile>,
    i: int,
)
    requires
        0 <= i <= files.len(),
        forall|j: int| 0 <= j < files.len() ==> file_hash_matches(rows, #[trigger] files[j]),
    ensures
        count_matched(rows, files, i) == i,
    decreases i,
{
    if i > 0 {
        lemma_count_matched_all(rows, files, i - 1);
    }
}

/// Re-ingesting an unchanged file set indexes nothing and leaves the store
/// exactly as it was: the second run's skip pass matches every file against
/// the hashes the first run recorded, and the stale sweep finds nothing
/// stale. The hypotheses are the pipeline's own guarantees for two
/// consecutive runs over the same files.
pub proof fn lemma_reingest_unchanged(
    rows1: Seq<hash_tracker::HashRow>,
    g1: KnowledgeGraph,
    g2: KnowledgeGraph,
    r2: IngestionReport,
    files: Seq<SourceFile>,
    pid: Seq<char>,
)
    requires
        // After the first run, every file's stored hash matches its content
        // and only crawled paths keep file-typed nodes.
        forall|i: int|
            0 <= i < files.len() ==> #[trigger] find_hash(rows1, files[i].path@) == Some(
                content_hash_of(files[i].content@),
            ),
        forall|p: Seq<char>|
            !#[trigger] files_have_path(files, p) ==> !is_file_path_entry(g1.nodes@, pid, p),
        // The second run's report and no-write guarantee, over that state.
        r2.total_files == files.len(),
        r2.skipped == count_matched(rows1, files, files.len() as int),
        r2.indexed + r2.skipped == r2.total_files,
        (r2.indexed == 0 && (forall|p: Seq<char>|
            #[trigger] is_file_path_entry(g1.nodes@, pid, p) ==> files_have_path(files, p)))
            ==> g2 == g1,
    ensures
        r2.indexed == 0,
        g2 == g1,
{
    assert forall|j: int| 0 <= j < files.len() implies file_hash_matches(
        rows1,
        #[trigger] files[j],
    ) by {
        assert(find_hash(rows1, files[j].path@) == Some(content_hash_of(files[j].content@)));
    }
    lemma_count_matched_all(rows1, files, files.len() as int);
    assert(r2.indexed == 0);
    assert forall|p: Seq<char>| #[trigger] is_file_path_entry(g1.nodes@, pid, p)
        implies files_have_path(files, p) by {
        if !files_have_path(files, p) {
            assert(!is_file_path_entry(g1.nodes@, pid, p));
        }
    }
}

/// Removing a deleted file's rows is complete: afterwards no node of the
/// project carries that file path, and no remaining edge references a node
/// that carried it. These are the sweep that re-ingestion performs for each
/// vanished file.
pub proof fn lemma_stale_file_swept(gpre: KnowledgeGraph, gpost: KnowledgeGraph, p: Seq<char>)
    requires
        gpre.wf(),
        gpost.nodes@ == gpre.nodes@.filter(
            |n: crate::graph::Node|
                !crate::graph_queries::node_owned_by(n, p, gpre.spec_project_id()),
        ),
        gpost.edges@ == gpre.edges@.filter(
            |e: crate::graph::Edge|
                !crate::graph_queries::edge_touches_file(
                    e,
                    gpre.nodes@,
                    p,
                    gpre.spec_project_id(),
                ),
        ),
    ensures
        stale_swept(gpre, gpost, p),
{
    assert forall|m: int|
        0 <= m < gpre.nodes@.len() && (#[trigger] gpre.nodes@[m]).project_id@
            == gpre.spec_project_id() && gpre.nodes@[m].file_path is Some
            && gpre.nodes@[m].file_path->0@ == p implies node_in(gpre.nodes@, gpre.nodes@[m]) by {
    }
    assert forall|j: int| 0 <= j < gpre.nodes@.len() implies node_in(
        gpre.nodes@,
        #[trigger] gpre.nodes@[j],
    ) by {
    }
    lemma_sweep_step(gpre, gpre, gpost, p, gpre.spec_project_id());
}

/// Whether an edge value occurs in an edge table.
pub open spec fn edge_in(edges: Seq<crate::graph::Edge>, e: crate::graph::Edge) -> bool {
    exists|i: int| 0 <= i < edges.len() && #[trigger] edges[i] == e
}

/// Whether a mirror-row value occurs in a full-text table.
pub open spec fn fts_in(rows: Seq<crate::graph::FtsRow>, r: crate::graph::FtsRow) -> bool {
    exists|i: int| 0 <= i < rows.len() && #[trigger] rows[i] == r
}

/// Every listed path among the first `i` was crawled.
pub open spec fn all_prefix_crawled(paths: Seq<String>, crawled: Seq<String>, i: int) -> bool {
    forall|t: int| 0 <= t < i ==> seq_has_string(crawled, (#[trigger] paths[t])@)
}

/// A stale path `p` has been swept: no node of the project carries it, and
/// no edge references a node that carried it in the starting state.
pub open spec fn stale_swept(g0: KnowledgeGraph, g: KnowledgeGraph, p: Seq<char>) -> bool {
    &&& forall|j: int|
        0 <= j < g.nodes@.len() ==> !((#[trigger] g.nodes@[j]).project_id@
            == g0.spec_project_id() && g.nodes@[j].file_path is Some
            && g.nodes@[j].file_path->0@ == p)
    &&& forall|e: int, m: int|
        0 <= e < g.edges@.len() && 0 <= m < g0.nodes@.len() && (#[trigger] g0.nodes@[m]).project_id@
            == g0.spec_project_id() && g0.nodes@[m].file_path is Some
            && g0.nodes@[m].file_path->0@ == p ==> ((#[trigger] g.edges@[e]).source_id@
            != g0.nodes@[m].id@ && g.edges@[e].target_id@ != g0.nodes@[m].id@)
}

/// A member of a filtered sequence is a member of the original.
proof fn lemma_filter_elem_in(
    s: Seq<crate::graph::Node>,
    x: crate::graph::Node,
    pred: spec_fn(crate::graph::Node) -> bool,
)
    requires
        exists|i: int| 0 <= i < s.filter(pred).len() && #[trigger] s.filter(pred)[i] == x,
    ensures
        node_in(s, x),
    decreases s.len(),
{
    reveal(Seq::filter);
    if s.len() > 0 {
        let head = s.drop_last();
        let i = choose|i: int| 0 <= i < s.filter(pred).len() && #[trigger] s.filter(pred)[i] == x;
        if pred(s.last()) && i == s.filter(pred).len() - 1 {
            assert(s[s.len() - 1] == x);
        } else {
            assert(head.filter(pred)[i] == x);
            lemma_filter_elem_in(head, x, pred);
            let w = choose|w: int| 0 <= w < head.len() && #[trigger] head[w] == x;
            assert(s[w] == x);
        }
    }
}

proof fn lemma_filter_edge_in(
    s: Seq<crate::graph::Edge>,
    x: crate::graph::Edge,
    pred: spec_fn(crate::graph::Edge) -> bool,
)
    requires
        exists|i: int| 0 <= i < s.filter(pred).len() && #[trigger] s.filter(pred)[i] == x,
    ensures
        edge_in(s, x),
    decreases s.len(),
{
    reveal(Seq::filter);
    if s.len() > 0 {
        let head = s.drop_last();
        let i = choose|i: int| 0 <= i < s.filter(pred).len() && #[trigger] s.filter(pred)[i] == x;
        if pred(s.last()) && i == s.filter(pred).len() - 1 {
            assert(s[s.len() - 1] == x);
        } else {
            assert(head.filter(pred)[i] == x);
            lemma_filter_edge_in(head, x, pred);
            let w = choose|w: int| 0 <= w < head.len() && #[trigger] head[w] == x;
            assert(s[w] == x);
        }
    }
}

/// Deleting path `p`'s rows sweeps `p`, measured against any earlier state
/// whose `p`-nodes all survive into the deletion's input.
proof fn lemma_sweep_step(
    g0: KnowledgeGraph,
    gpre: KnowledgeGraph,
    gpost: KnowledgeGraph,
    p: Seq<char>,
    pid: Seq<char>,
)
    requires
        pid == g0.spec_project_id(),
        gpre.spec_project_id() == pid,
        gpost.nodes@ == gpre.nodes@.filter(
            |n: crate::graph::Node| !crate::graph_queries::node_owned_by(n, p, pid),
        ),
        gpost.edges@ == gpre.edges@.filter(
            |e: crate::graph::Edge|
                !crate::graph_queries::edge_touches_file(e, gpre.nodes@, p, pid),
        ),
        forall|j: int|
            0 <= j < gpre.nodes@.len() ==> node_in(g0.nodes@, #[trigger] gpre.nodes@[j]),
        forall|m: int|
            0 <= m < g0.nodes@.len() && (#[trigger] g0.nodes@[m]).project_id@ == pid
                && g0.nodes@[m].file_path is Some && g0.nodes@[m].file_path->0@ == p ==> node_in(
                gpre.nodes@,
                g0.nodes@[m],
            ),
    ensures
        stale_swept(g0, gpost, p),
{
    let npred = |n: crate::graph::Node| !crate::graph_queries::node_owned_by(n, p, pid);
    let epred = |e: crate::graph::Edge|
        !crate::graph_queries::edge_touches_file(e, gpre.nodes@, p, pid);
    assert forall|j: int| 0 <= j < gpost.nodes@.len() implies !((
    #[trigger] gpost.nodes@[j]).project_id@ == pid && gpost.nodes@[j].file_path is Some
        && gpost.nodes@[j].file_path->0@ == p) by {
        gpre.nodes@.lemma_filter_pred(npred, j);
    }
    assert forall|e: int, m: int|
        0 <= e < gpost.edges@.len() && 0 <= m < g0.nodes@.len() && (
    #[trigger] g0.nodes@[m]).project_id@ == pid && g0.nodes@[m].file_path is Some
        && g0.nodes@[m].file_path->0@ == p implies ((#[trigger] gpost.edges@[e]).source_id@
        != g0.nodes@[m].id@ && gpost.edges@[e].target_id@ != g0.nodes@[m].id@) by {
        gpre.edges@.lemma_filter_pred(epred, e);
        let stale_node = g0.nodes@[m];
        let w = choose|w: int|
            0 <= w < gpre.nodes@.len() && #[trigger] gpre.nodes@[w] == stale_node;
        if gpost.edges@[e].source_id@ == stale_node.id@ || gpost.edges@[e].target_id@
            == stale_node.id@ {
            assert(crate::graph_queries::id_owned(gpre.nodes@, stale_node.id@, p, pid)) by {
                assert(gpre.nodes@[w].id@ == stale_node.id@ && crate::graph_queries::node_owned_by(
                    gpre.nodes@[w],
                    p,
                    pid,
                ));
            }
        }
    }
}

/// Sweeping survives further row removals.
proof fn lemma_swept_monotone(
    g0: KnowledgeGraph,
    gpre: KnowledgeGraph,
    gpost: KnowledgeGraph,
    p: Seq<char>,
)
    requires
        stale_swept(g0, gpre, p),
        forall|j: int|
            0 <= j < gpost.nodes@.len() ==> node_in(gpre.nodes@, #[trigger] gpost.nodes@[j]),
        forall|j: int|
            0 <= j < gpost.edges@.len() ==> edge_in(gpre.edges@, #[trigger] gpost.edges@[j]),
    ensures
        stale_swept(g0, gpost, p),
{
    assert forall|j: int| 0 <= j < gpost.nodes@.len() implies !((
    #[trigger] gpost.nodes@[j]).project_id@ == g0.spec_project_id()
        && gpost.nodes@[j].file_path is Some && gpost.nodes@[j].file_path->0@ == p) by {
        let w = choose|w: int|
            0 <= w < gpre.nodes@.len() && #[trigger] gpre.nodes@[w] == gpost.nodes@[j];
    }
    assert forall|e: int, m: int|
        0 <= e < gpost.edges@.len() && 0 <= m < g0.nodes@.len() && (
    #[trigger] g0.nodes@[m]).project_id@ == g0.spec_project_id() && g0.nodes@[m].file_path
        is Some && g0.nodes@[m].file_path->0@ == p implies ((
    #[trigger] gpost.edges@[e]).source_id@ != g0.nodes@[m].id@ && gpost.edges@[e].target_id@
        != g0.nodes@[m].id@) by {
        let w = choose|w: int|
            0 <= w < gpre.edges@.len() && #[trigger] gpre.edges@[w] == gpost.edges@[e];
    }
}

/// After an upsert, every node is an old one or the inserted one.
proof fn lemma_upsert_only_adds_path(
    pre: Seq<crate::graph::Node>,
    post: Seq<crate::graph::Node>,
    node: crate::graph::Node,
    pid: Seq<char>,
    path: Seq<char>,
)
    requires
        node.project_id@ == pid,
        node.file_path == Some(node.file_path->0),
        node.file_path->0@ == path,
        post == pre.push(node) || (exists|i: int|
            0 <= i < pre.len() && post == #[trigger] pre.update(i, node)),
    ensures
        forall|j: int|
            0 <= j < post.len() ==> node_in(pre, #[trigger] post[j]) || (post[j].project_id@
                == pid && post[j].file_path is Some && post[j].file_path->0@ == path),
        node_in(post, node),
{
    if post == pre.push(node) {
        assert(post[pre.len() as int] == node);
        assert forall|j: int| 0 <= j < post.len() implies node_in(pre, #[trigger] post[j]) || (
        post[j].project_id@ == pid && post[j].file_path is Some && post[j].file_path->0@
            == path) by {
            if j < pre.len() {
                assert(post[j] == pre[j]);
            }
        }
    } else {
        let i = choose|i: int| 0 <= i < pre.len() && post == #[trigger] pre.update(i, node);
        assert(post[i] == node);
        assert forall|j: int| 0 <= j < post.len() implies node_in(pre, #[trigger] post[j]) || (
        post[j].project_id@ == pid && post[j].file_path is Some && post[j].file_path->0@
            == path) by {
            if j != i {
                assert(post[j] == pre[j]);
            }
        }
    }
}

} // verus!
