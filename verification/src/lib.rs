use vstd::prelude::*;

pub mod accounting;
pub mod graph;
pub mod graph_builders;
pub mod graph_queries;
pub mod hashing;
pub mod ingestion;
pub mod laws;
pub mod outside;
pub mod pointer;
pub mod search;
pub mod temporal;
pub mod text;

verus! {

/// One project's engine: the knowledge graph, the temporal fact store, the
/// accountant, the ingestion pipeline and the search engine with its shared
/// result cache, all scoped to one project id and one session id.
pub struct HermesEngine {
    pub project_id: String,
    pub session_id: String,
    pub graph: graph::KnowledgeGraph,
    pub temporal: temporal::TemporalStore,
    pub accountant: accounting::Accountant,
    pub pipeline: ingestion::IngestionPipeline,
    pub search: search::SearchEngine,
}

impl HermesEngine {
    pub open spec fn wf(&self) -> bool {
        &&& self.graph.wf()
        &&& self.pipeline.hash_tracker.wf()
    }

    /// A fresh in-memory engine for a project, with a fresh session id.
    pub fn in_memory(project_id: &str) -> (r: HermesEngine)
        ensures
            r.wf(),
            r.project_id@ == project_id@,
            r.graph.spec_project_id() == project_id@,
            r.graph.nodes@.len() == 0,
            r.temporal.facts@.len() == 0,
            r.accountant.rows@.len() == 0,
            r.search.result_cache@.len() == 0,
    {
        let session_id = outside::fresh_id();
        HermesEngine {
            project_id: project_id.to_owned(),
            session_id: session_id.clone(),
            graph: graph::KnowledgeGraph::new(project_id),
            temporal: temporal::TemporalStore::new(project_id),
            accountant: accounting::Accountant::new(project_id, session_id.as_str()),
            pipeline: ingestion::IngestionPipeline::new(project_id),
            search: search::SearchEngine::new(),
        }
    }

    pub fn project_id(&self) -> (r: &str)
        ensures
            r@ == self.project_id@,
    {
        self.project_id.as_str()
    }

    pub fn session_id(&self) -> (r: &str)
        ensures
            r@ == self.session_id@,
    {
        self.session_id.as_str()
    }

    /// How many responses the shared result cache holds.
    pub fn search_cache_len(&self) -> (r: usize)
        ensures
            r == self.search.result_cache@.len(),
    {
        self.search.result_cache.len()
    }

    /// Clears the shared result cache; re-indexing calls this.
    pub fn invalidate_search_cache(&mut self)
        ensures
            final(self).search.result_cache@.len() == 0,
            final(self).graph == old(self).graph,
            final(self).temporal == old(self).temporal,
            final(self).accountant == old(self).accountant,
            final(self).pipeline == old(self).pipeline,
    {
        self.search.invalidate();
    }

    /// One incremental ingestion run over a crawled file set, with the
    /// result cache cleared afterwards.
    pub fn index(&mut self, files: &Vec<ingestion::SourceFile>) -> (r: ingestion::IngestionReport)
        requires
            old(self).wf(),
            forall|i: int, j: int|
                0 <= i < j < files@.len() ==> (#[trigger] files@[i]).path@ != (
                #[trigger] files@[j]).path@,
            forall|i: int|
                0 <= i < files@.len() ==> !crate::text::contains_seq(
                    (#[trigger] files@[i]).path@,
                    "::"@,
                ),
        ensures
            final(self).wf(),
            final(self).search.result_cache@.len() == 0,
            r.total_files == files@.len(),
            r.errors == 0,
            r.indexed + r.skipped == r.total_files,
            r.skipped == ingestion::count_matched(
                old(self).pipeline.hash_tracker.rows@,
                files@,
                files@.len() as int,
            ),
            // Afterwards every given file's stored hash matches its content.
            forall|i: int|
                0 <= i < files@.len() ==> #[trigger] ingestion::hash_tracker::find_hash(
                    final(self).pipeline.hash_tracker.rows@,
                    files@[i].path@,
                ) == Some(crate::hashing::content_hash_of(files@[i].content@)),
            // No file-typed node of a path outside this file set survives.
            forall|p: Seq<char>|
                !#[trigger] ingestion::files_have_path(files@, p)
                    ==> !crate::graph_queries::is_file_path_entry(
                    final(self).graph.nodes@,
                    old(self).graph.spec_project_id(),
                    p,
                ),
            // A run that indexes nothing over a fully crawled store leaves
            // the graph as it was.
            (r.indexed == 0 && (forall|p: Seq<char>|
                #[trigger] crate::graph_queries::is_file_path_entry(
                    old(self).graph.nodes@,
                    old(self).graph.spec_project_id(),
                    p,
                ) ==> ingestion::files_have_path(files@, p))) ==> final(self).graph == old(
                self,
            ).graph,
            // Every ingested file's rows — its file node, mirror row, stored
            // text and written chunks — stand in the graph afterwards.
            forall|i: int|
                0 <= i < files@.len() && !#[trigger] ingestion::file_hash_matches(
                    old(self).pipeline.hash_tracker.rows@,
                    files@[i],
                ) ==> exists|fid: Seq<char>|
                    #[trigger] ingestion::file_ingested(
                        final(self).graph,
                        old(self).graph.spec_project_id(),
                        files@[i].path@,
                        files@[i].content@,
                        ingestion::run_env(files@, old(self).pipeline.hash_tracker.rows@, i),
                        fid,
                    ),
            // The node count is the run's fold: one per ingested file plus
            // one per chunk written at its turn.
            r.nodes_created as int == ingestion::run_created(
                files@,
                old(self).pipeline.hash_tracker.rows@,
                files@.len() as int,
            ),
            // A known file the crawl no longer found is fully swept: no
            // node of its path remains, and no edge references one of its
            // former nodes.
            forall|p: Seq<char>|
                !#[trigger] ingestion::files_have_path(files@, p)
                    && crate::graph_queries::is_file_path_entry(
                    old(self).graph.nodes@,
                    old(self).graph.spec_project_id(),
                    p,
                ) ==> ingestion::stale_swept(old(self).graph, final(self).graph, p),
    {
        let report = self.pipeline.ingest_directory(&mut self.graph, files);
        self.search.invalidate();
        report
    }
}

} // verus!
