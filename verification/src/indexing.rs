//! Keeping the index in step with the document directory: what is done for one
//! file, and what a run over all files adds up to.
use crate::config::Config;
use crate::documents;
use crate::documents::{
    cut_text, extract_pdf_text, extract_text, Cut, Extraction, CHUNK_OVERLAP_WORDS, CHUNK_WORDS,
};
use crate::fingerprint;
use crate::fingerprint::{file_hash_with_pipeline, point_id};
use crate::json::Json;
use crate::paths;
use crate::paths::DocumentKind;
use crate::search::SearchHit;
use crate::text;
use crate::text::{contains, owned, same_text, word_pages};
use vstd::prelude::*;

verus! {

// ---------------------------------------------------------------------------
// One file
// ---------------------------------------------------------------------------

/// Whether the stored digest of a document, if there is one, is `hash`: the
/// document is then as it was when it was indexed.
pub fn manifest_has_same_hash(existing: &Option<String>, hash: &str) -> (r: bool)
    ensures
        r == (existing matches Some(h) && h@ == hash@),
{
    match existing {
        Some(h) => same_text(h.as_str(), hash),
        None => false,
    }
}

/// The time of the last change of a file, in seconds since 1970: 0 where it lies
/// before that, and reduced to 64 bits with a sign.
pub fn modified_epoch(since_epoch: Option<u64>) -> (r: i64)
    ensures
        r == (match since_epoch {
            Some(seconds) => seconds as i64,
            None => 0,
        }),
{
    match since_epoch {
        Some(seconds) => seconds as i64,
        None => 0,
    }
}

/// What is stored of a passage, beside its vector; with the page that it begins on,
/// where the document has pages.
#[derive(Debug)]
pub struct PassagePoint {
    pub id: String,
    pub source: String,
    pub chunk_index: usize,
    pub page_number: Option<usize>,
    pub text: String,
    pub hash: String,
}

impl PassagePoint {
    /// Whether this is the passage `text` with the given index of a document.
    pub open spec fn holds(
        self,
        source: Seq<char>,
        hash: Seq<char>,
        index: int,
        text: Seq<char>,
        page_number: Option<usize>,
    ) -> bool {
        &&& self.id@ == fingerprint::passage_id(source, hash, index as nat)
        &&& self.source@ == source
        &&& self.chunk_index == index
        &&& self.page_number == page_number
        &&& self.text@ == text
        &&& self.hash@ == hash
    }
}

/// Whether a JSON object holds source, index, page and text of a passage.
pub open spec fn is_payload_of(payload: Json, point: PassagePoint) -> bool {
    &&& payload.member("source"@) == Some(Json::Text(point.source@))
    &&& payload.member("chunk_index"@) matches Some(Json::Number(n)) && n.unsigned == Some(
        point.chunk_index as u64,
    )
    &&& match point.page_number {
        Some(page) => payload.member("page_number"@) matches Some(Json::Number(n)) && n.unsigned
            == Some(page as u64),
        None => payload.member("page_number"@) is None || payload.member("page_number"@) == Some(
            Json::Null,
        ),
    }
    &&& payload.member("text"@) == Some(Json::Text(point.text@))
}

/// A passage comes back from the store as it went in: a hit whose payload holds the
/// passage has its source, its index, its page and its text.
pub proof fn stored_passage_is_found_again(point: PassagePoint, item: Json, hit: SearchHit)
    requires
        item.member("payload"@) matches Some(payload) && is_payload_of(payload, point),
        hit.tells(item),
    ensures
        hit.source@ == point.source@,
        hit.chunk_index == point.chunk_index,
        hit.page_number == point.page_number,
        hit.text@ == point.text@,
{
}

/// How many passages the batch has that begins at `next`, out of `n`, where a whole
/// batch has `batch`.
pub open spec fn batch_size(n: int, next: int, batch: int) -> int {
    if n - next < batch {
        n - next
    } else {
        batch
    }
}

/// The page that the passage with index `k` of a text begins on: that of its first word.
pub open spec fn passage_page(text: Seq<char>, k: int) -> nat {
    text::word_page(
        text,
        documents::passage_starts(
            text::words(text),
            CHUNK_WORDS as int,
            CHUNK_OVERLAP_WORDS as int,
        )[k],
    )
}

/// Whether this is the page of the passage with index `k` of a text; none where the text
/// has no pages.
pub open spec fn is_page(page: Option<usize>, text: Seq<char>, k: int, paged: bool) -> bool {
    match page {
        Some(number) => paged && number == passage_page(text, k),
        None => !paged,
    }
}

/// A file that is being indexed: its passages and the pages that they begin on, of
/// which those before `next` were handed to the embedding model in batches of `batch`,
/// and the number of passages stored so far.
pub struct FileIndexing {
    pub source: String,
    pub hash: String,
    pub chunks: Vec<String>,
    pub pages: Vec<Option<usize>>,
    pub batch: usize,
    pub next: usize,
    pub total: usize,
}

impl FileIndexing {
    /// Every passage has an entry for its page, batches begin at multiples of the batch
    /// size, and no more is stored than was handed out.
    pub open spec fn well_formed(self) -> bool {
        &&& self.pages@.len() == self.chunks@.len()
        &&& self.batch > 0
        &&& self.next <= self.chunks@.len()
        &&& self.next % self.batch == 0 || self.next == self.chunks@.len()
        &&& self.total <= self.next
    }

    /// How many passages the next batch has.
    pub open spec fn upcoming(self) -> int {
        batch_size(self.chunks@.len() as int, self.next as int, self.batch as int)
    }

    /// Whether nothing was handed out or stored yet of the passages of `text`, which has
    /// pages or has not.
    pub open spec fn begins(
        self,
        source: Seq<char>,
        hash: Seq<char>,
        text: Seq<char>,
        paged: bool,
        batch: usize,
    ) -> bool {
        &&& self.well_formed()
        &&& self.source@ == source
        &&& self.hash@ == hash
        &&& text::views(self.chunks@) == documents::passages(
            text::words(text),
            CHUNK_WORDS as int,
            CHUNK_OVERLAP_WORDS as int,
        )
        &&& forall|k: int|
            0 <= k < self.pages@.len() ==> is_page(#[trigger] self.pages@[k], text, k, paged)
        &&& self.batch == batch
        &&& self.next == 0
        &&& self.total == 0
    }

    /// Cuts the text of a document into the passages that are stored of it.
    pub fn begin(source: &str, hash: &str, text: &str, paged: bool, batch: usize) -> (r: Self)
        requires
            batch > 0,
        ensures
            r.begins(source@, hash@, text@, paged, batch),
    {
        let cut: Cut = cut_text(text, CHUNK_WORDS, CHUNK_OVERLAP_WORDS);
        let numbers: Vec<usize> = word_pages(text);
        let mut pages: Vec<Option<usize>> = Vec::new();
        let mut i: usize = 0;
        while i < cut.starts.len()
            invariant
                i <= cut.starts@.len(),
                pages@.len() == i,
                numbers@.len() == text::words(text@).len(),
                forall|k: int|
                    0 <= k < numbers@.len() ==> #[trigger] numbers@[k] == text::word_page(text@, k),
                documents::indices(cut.starts@) == documents::passage_starts(
                    text::words(text@),
                    CHUNK_WORDS as int,
                    CHUNK_OVERLAP_WORDS as int,
                ),
                forall|k: int|
                    0 <= k < cut.starts@.len() ==> #[trigger] cut.starts@[k] < numbers@.len(),
                forall|k: int|
                    0 <= k < i ==> is_page(#[trigger] pages@[k], text@, k, paged),
            decreases cut.starts@.len() - i,
        {
            assert(documents::indices(cut.starts@)[i as int] == cut.starts@[i as int]);
            if paged {
                pages.push(Some(numbers[cut.starts[i]]));
            } else {
                pages.push(None);
            }
            i = i + 1;
        }
        FileIndexing {
            source: owned(source),
            hash: owned(hash),
            chunks: cut.chunks,
            pages,
            batch,
            next: 0,
            total: 0,
        }
    }

    /// The next batch as the embedding model takes it, unless all passages were
    /// handed out.
    pub fn next_passages(&self) -> (r: Option<Vec<String>>)
        requires
            self.well_formed(),
        ensures
            match r {
                Some(batch) => {
                    &&& self.next < self.chunks@.len()
                    &&& batch@.len() == self.upcoming()
                    &&& forall|i: int|
                        0 <= i < batch@.len() ==> (#[trigger] batch@[i])@ == "passage: "@
                            + self.chunks@[self.next + i]@
                },
                None => self.next == self.chunks@.len(),
            },
    {
        let n: usize = self.chunks.len();
        if self.next == n {
            return None;
        }
        let end: usize = if n - self.next < self.batch {
            n
        } else {
            self.next + self.batch
        };
        let mut batch: Vec<String> = Vec::new();
        let mut i: usize = self.next;
        while i < end
            invariant
                self.next <= i <= end <= self.chunks@.len(),
                batch@.len() == i - self.next,
                forall|k: int|
                    0 <= k < batch@.len() ==> (#[trigger] batch@[k])@ == "passage: "@
                        + self.chunks@[self.next + k]@,
            decreases end - i,
        {
            let mut passage: String = owned("passage: ");
            passage.push_str(self.chunks[i].as_str());
            batch.push(passage);
            i = i + 1;
        }
        Some(batch)
    }

    /// The points to store of the batch that was handed out, given for how many of
    /// its passages, from the first on, the model returned a vector.
    pub fn store(&mut self, vectors: usize) -> (r: Vec<PassagePoint>)
        requires
            old(self).well_formed(),
            vectors <= old(self).upcoming(),
        ensures
            final(self).well_formed(),
            final(self).source == old(self).source,
            final(self).hash == old(self).hash,
            final(self).chunks == old(self).chunks,
            final(self).pages == old(self).pages,
            final(self).batch == old(self).batch,
            final(self).next == old(self).next + old(self).upcoming(),
            final(self).total == old(self).total + vectors,
            r@.len() == vectors,
            forall|i: int|
                0 <= i < r@.len() ==> (#[trigger] r@[i]).holds(
                    old(self).source@,
                    old(self).hash@,
                    old(self).next + i,
                    old(self).chunks@[old(self).next + i]@,
                    old(self).pages@[old(self).next + i],
                ),
    {
        let n: usize = self.chunks.len();
        let start: usize = self.next;
        let end: usize = if n - start < self.batch {
            n
        } else {
            start + self.batch
        };
        let mut points: Vec<PassagePoint> = Vec::new();
        let mut i: usize = 0;
        while i < vectors
            invariant
                *self == *old(self),
                start == self.next,
                end <= n == self.chunks@.len() == self.pages@.len(),
                vectors <= end - start,
                i <= vectors,
                points@.len() == i,
                forall|k: int|
                    0 <= k < i ==> (#[trigger] points@[k]).holds(
                        self.source@,
                        self.hash@,
                        start + k,
                        self.chunks@[start + k]@,
                        self.pages@[start + k],
                    ),
            decreases vectors - i,
        {
            let chunk_index: usize = start + i;
            points.push(
                PassagePoint {
                    id: point_id(self.source.as_str(), self.hash.as_str(), chunk_index),
                    source: self.source.clone(),
                    chunk_index,
                    page_number: self.pages[chunk_index],
                    text: self.chunks[chunk_index].clone(),
                    hash: self.hash.clone(),
                },
            );
            i = i + 1;
        }
        proof {
            if start % self.batch == 0 {
                vstd::arithmetic::div_mod::lemma_mod_add_multiples_vanish(
                    start as int,
                    self.batch as int,
                );
            }
        }
        self.next = end;
        self.total = self.total + vectors;
        points
    }
}

/// What is done with a file once it is read.
pub enum FileStep {
    /// Nothing: it is as it was when it was indexed.
    Skip,
    /// Its passages are stored.
    Store(FileIndexing),
    /// Its text is extracted first, and goes to `begin_pdf` with the digest.
    ExtractPdf(String),
    /// It cannot be indexed.
    Fail(String),
}

impl FileStep {
    /// Whether this is what is done with the file at `path`, known as `source`, where
    /// `existing` is the digest that is stored of it.
    pub open spec fn follows(
        self,
        config: Config,
        path: Seq<char>,
        source: Seq<char>,
        bytes: Seq<u8>,
        existing: Option<String>,
    ) -> bool {
        let digest = fingerprint::document_digest(bytes);
        let unchanged = existing matches Some(h) && h@ == digest;
        let kind = paths::kind_at(path);
        match self {
            FileStep::Skip => unchanged,
            FileStep::Store(file) => {
                &&& !unchanged
                &&& kind == Some(DocumentKind::Text)
                &&& file.begins(
                    source,
                    digest,
                    documents::text_of(bytes),
                    false,
                    config.embedding_batch_size,
                )
            },
            FileStep::ExtractPdf(hash) => {
                &&& !unchanged
                &&& kind == Some(DocumentKind::Pdf)
                &&& hash@ == digest
            },
            FileStep::Fail(message) => {
                &&& !unchanged
                &&& kind is None
                &&& message@ == "Formato no soportado: "@ + documents::lower_extension(path)
            },
        }
    }

    /// The digest that is stored of the file once it is indexed.
    pub open spec fn digest(self) -> Option<Seq<char>> {
        match self {
            FileStep::Store(file) => Some(file.hash@),
            FileStep::ExtractPdf(hash) => Some(hash@),
            _ => None,
        }
    }
}

/// A file that was indexed is not indexed again as long as it does not change: the
/// digest that is stored of it has it skipped the next time.
pub proof fn indexed_file_is_skipped_next_time(
    config: Config,
    path: Seq<char>,
    source: Seq<char>,
    bytes: Seq<u8>,
    existing: Option<String>,
    first: FileStep,
    stored: String,
    second: FileStep,
)
    requires
        first.follows(config, path, source, bytes, existing),
        first.digest() == Some(stored@),
        second.follows(config, path, source, bytes, Some(stored)),
    ensures
        second is Skip,
{
}

/// What is done with the file at `path`, known as `source`, with the given bytes, where
/// `existing` is the digest that is stored of it.
pub fn begin_file(
    config: &Config,
    path: &str,
    source: &str,
    bytes: &[u8],
    existing: &Option<String>,
) -> (r: FileStep)
    requires
        config.embedding_batch_size > 0,
        paths::kind_at(path@) == Some(DocumentKind::Text) ==> bytes@.len() <= usize::MAX / 8,
    ensures
        r.follows(*config, path@, source@, bytes@, *existing),
{
    let hash: String = file_hash_with_pipeline(bytes);
    if manifest_has_same_hash(existing, hash.as_str()) {
        return FileStep::Skip;
    }
    match extract_text(path, bytes) {
        Ok(Extraction::Text(text)) => FileStep::Store(
            FileIndexing::begin(
                source,
                hash.as_str(),
                text.as_str(),
                false,
                config.embedding_batch_size,
            ),
        ),
        Ok(Extraction::Pdf) => FileStep::ExtractPdf(hash),
        Err(message) => FileStep::Fail(message),
    }
}

/// What is stored of a PDF, given how the extraction of its text ended and what it
/// wrote: the text of its pages, each ended by a form feed.
pub fn begin_pdf(
    config: &Config,
    path: &str,
    source: &str,
    hash: &str,
    success: bool,
    stdout: &[u8],
) -> (r: Result<FileIndexing, String>)
    requires
        config.embedding_batch_size > 0,
    ensures
        match r {
            Ok(file) => success && file.begins(
                source@,
                hash@,
                documents::utf8_lossy(stdout@),
                true,
                config.embedding_batch_size,
            ),
            Err(message) => !success && message@ == "pdftotext falló para "@ + path@,
        },
{
    match extract_pdf_text(path, success, stdout) {
        Ok(text) => Ok(
            FileIndexing::begin(source, hash, text.as_str(), true, config.embedding_batch_size),
        ),
        Err(message) => Err(message),
    }
}

/// The indices of the passages that are stored from `next` on, out of `n` in batches of
/// `batch`, where the model returns a vector for every passage.
pub open spec fn stored_indices(n: int, next: int, batch: int) -> Seq<int>
    decreases n - next,
{
    if next < 0 || next >= n || batch <= 0 {
        Seq::empty()
    } else {
        Seq::new(batch_size(n, next, batch) as nat, |i: int| next + i) + stored_indices(
            n,
            next + batch_size(n, next, batch),
            batch,
        )
    }
}

/// Where the model returns a vector for every passage, each passage of a document is
/// stored exactly once, in order, with its own index.
pub proof fn every_passage_is_stored_once(n: int, next: int, batch: int)
    requires
        0 <= next <= n,
        batch > 0,
    ensures
        stored_indices(n, next, batch) == Seq::new((n - next) as nat, |i: int| next + i),
    decreases n - next,
{
    if next < n {
        every_passage_is_stored_once(n, next + batch_size(n, next, batch), batch);
    }
    assert(stored_indices(n, next, batch) =~= Seq::new((n - next) as nat, |i: int| next + i));
}

// ---------------------------------------------------------------------------
// A run over all files
// ---------------------------------------------------------------------------

/// What a run over the document directory did.
#[derive(Debug)]
pub struct IndexSummary {
    pub scanned_files: usize,
    pub indexed_files: usize,
    pub skipped_files: usize,
    pub deleted_files: usize,
    pub chunks_indexed: usize,
    pub errors: Vec<String>,
}

impl Default for IndexSummary {
    /// Nothing was done yet.
    fn default() -> (r: Self)
        ensures
            r.scanned_files == 0,
            r.indexed_files == 0,
            r.skipped_files == 0,
            r.deleted_files == 0,
            r.chunks_indexed == 0,
            r.errors@.len() == 0,
    {
        IndexSummary {
            scanned_files: 0,
            indexed_files: 0,
            skipped_files: 0,
            deleted_files: 0,
            chunks_indexed: 0,
            errors: Vec::new(),
        }
    }
}

/// What became of a file that was read.
pub enum IndexFileOutcome {
    /// It was indexed, in this many passages.
    Indexed(usize),
    /// It was as it had been.
    Skipped,
}

/// A run over the document directory: the summary so far, and the documents seen.
pub struct IndexRun {
    pub summary: IndexSummary,
    pub seen: Vec<String>,
}

/// How an error with a document is reported: its name, a colon and the error.
pub open spec fn error_line(source: Seq<char>, error: Seq<char>) -> Seq<char> {
    source + ": "@ + error
}

/// The entries of `known` that are not in `seen`, in order.
pub open spec fn missing(known: Seq<Seq<char>>, seen: Seq<Seq<char>>) -> Seq<Seq<char>>
    decreases known.len(),
{
    if known.len() == 0 {
        Seq::empty()
    } else if seen.contains(known.last()) {
        missing(known.drop_last(), seen)
    } else {
        missing(known.drop_last(), seen).push(known.last())
    }
}

impl IndexRun {
    /// Every scanned file was seen, and was indexed, skipped or reported.
    pub open spec fn well_formed(self) -> bool {
        &&& self.summary.scanned_files == self.seen@.len()
        &&& self.summary.indexed_files + self.summary.skipped_files + self.summary.errors@.len()
            == self.summary.scanned_files
    }

    /// Whether nothing was seen and nothing was done yet.
    pub open spec fn is_fresh(self) -> bool {
        &&& self.summary.scanned_files == 0
        &&& self.summary.indexed_files == 0
        &&& self.summary.skipped_files == 0
        &&& self.summary.deleted_files == 0
        &&& self.summary.chunks_indexed == 0
        &&& self.summary.errors@.len() == 0
        &&& self.seen@.len() == 0
    }

    /// Whether `after` is this run once a document and what became of it were noted.
    pub open spec fn records(
        self,
        after: IndexRun,
        source: String,
        outcome: Result<IndexFileOutcome, String>,
    ) -> bool {
        &&& after.seen@ == self.seen@.push(source)
        &&& after.summary.scanned_files == self.summary.scanned_files + 1
        &&& after.summary.deleted_files == self.summary.deleted_files
        &&& match outcome {
            Ok(IndexFileOutcome::Indexed(n)) => {
                &&& after.summary.indexed_files == self.summary.indexed_files + 1
                &&& after.summary.skipped_files == self.summary.skipped_files
                &&& after.summary.chunks_indexed == self.summary.chunks_indexed + n
                &&& after.summary.errors == self.summary.errors
            },
            Ok(IndexFileOutcome::Skipped) => {
                &&& after.summary.indexed_files == self.summary.indexed_files
                &&& after.summary.skipped_files == self.summary.skipped_files + 1
                &&& after.summary.chunks_indexed == self.summary.chunks_indexed
                &&& after.summary.errors == self.summary.errors
            },
            Err(error) => {
                &&& after.summary.indexed_files == self.summary.indexed_files
                &&& after.summary.skipped_files == self.summary.skipped_files
                &&& after.summary.chunks_indexed == self.summary.chunks_indexed
                &&& text::views(after.summary.errors@) == text::views(self.summary.errors@).push(
                    error_line(source@, error@),
                )
            },
        }
    }

    /// A run that has seen nothing yet.
    pub fn begin() -> (r: Self)
        ensures
            r.well_formed(),
            r.is_fresh(),
    {
        IndexRun { summary: IndexSummary::default(), seen: Vec::new() }
    }

    /// Takes note of a document and of what became of it, or of the error that it
    /// ended in.
    pub fn record(&mut self, source: String, outcome: Result<IndexFileOutcome, String>)
        requires
            old(self).well_formed(),
            outcome matches Ok(IndexFileOutcome::Indexed(n)) ==> old(self).summary.chunks_indexed
                + n <= usize::MAX,
        ensures
            final(self).well_formed(),
            old(self).records(*final(self), source, outcome),
    {
        let ghost errors = text::views(self.summary.errors@);
        match outcome {
            Ok(IndexFileOutcome::Indexed(n)) => {
                self.seen.push(source);
                self.summary.scanned_files = self.seen.len();
                self.summary.indexed_files = self.summary.indexed_files + 1;
                self.summary.chunks_indexed = self.summary.chunks_indexed + n;
            },
            Ok(IndexFileOutcome::Skipped) => {
                self.seen.push(source);
                self.summary.scanned_files = self.seen.len();
                self.summary.skipped_files = self.summary.skipped_files + 1;
            },
            Err(error) => {
                let mut line: String = owned(source.as_str());
                line.push_str(": ");
                line.push_str(error.as_str());
                self.seen.push(source);
                self.summary.scanned_files = self.seen.len();
                self.summary.errors.push(line);
                assert(text::views(self.summary.errors@) == errors.push(
                    error_line(source@, error@),
                ));
            },
        }
    }

    /// The documents of the index that were not seen: their files are gone.
    pub fn stale(&self, known: &Vec<String>) -> (r: Vec<String>)
        ensures
            text::views(r@) == missing(text::views(known@), text::views(self.seen@)),
    {
        let mut out: Vec<String> = Vec::new();
        let mut i: usize = 0;
        let ghost all = text::views(known@);
        let ghost seen = text::views(self.seen@);
        assert(text::views(out@) == missing(all.take(0), seen));
        while i < known.len()
            invariant
                i <= known@.len(),
                all == text::views(known@),
                seen == text::views(self.seen@),
                text::views(out@) == missing(all.take(i as int), seen),
            decreases known@.len() - i,
        {
            let ghost before = text::views(out@);
            if !contains(&self.seen, known[i].as_str()) {
                out.push(known[i].clone());
                assert(text::views(out@) == before.push(all[i as int]));
            }
            i = i + 1;
            assert(all.take(i as int).drop_last() == all.take(i - 1));
        }
        assert(all.take(i as int) == all);
        out
    }

    /// Takes note that a stale document was removed from the index.
    pub fn removed(&mut self)
        requires
            old(self).well_formed(),
            old(self).summary.deleted_files < usize::MAX,
        ensures
            final(self).well_formed(),
            final(self).seen == old(self).seen,
            final(self).summary.deleted_files == old(self).summary.deleted_files + 1,
            final(self).summary.scanned_files == old(self).summary.scanned_files,
            final(self).summary.indexed_files == old(self).summary.indexed_files,
            final(self).summary.skipped_files == old(self).summary.skipped_files,
            final(self).summary.chunks_indexed == old(self).summary.chunks_indexed,
            final(self).summary.errors == old(self).summary.errors,
    {
        self.summary.deleted_files = self.summary.deleted_files + 1;
    }
}

/// A document of the index is removed by a run if and only if the run did not see
/// its file.
pub proof fn exactly_the_unseen_are_removed(
    known: Seq<Seq<char>>,
    seen: Seq<Seq<char>>,
    source: Seq<char>,
)
    requires
        known.contains(source),
    ensures
        missing(known, seen).contains(source) <==> !seen.contains(source),
{
    lemma_missing(known, seen, source);
}

proof fn lemma_missing(known: Seq<Seq<char>>, seen: Seq<Seq<char>>, x: Seq<char>)
    ensures
        missing(known, seen).contains(x) <==> known.contains(x) && !seen.contains(x),
    decreases known.len(),
{
    if known.len() > 0 {
        let init = known.drop_last();
        lemma_missing(init, seen, x);
        let m = missing(init, seen);
        if known.contains(x) && x != known.last() {
            let k = choose|k: int| 0 <= k < known.len() && known[k] == x;
            assert(init[k] == x);
        }
        if init.contains(x) {
            let k = choose|k: int| 0 <= k < init.len() && init[k] == x;
            assert(known[k] == x);
        }
        assert(known[known.len() - 1] == known.last());
        if !seen.contains(known.last()) {
            let r = m.push(known.last());
            assert(r[r.len() - 1] == known.last());
            if m.contains(x) {
                let k = choose|k: int| 0 <= k < m.len() && m[k] == x;
                assert(r[k] == x);
            }
            if r.contains(x) && x != known.last() {
                let k = choose|k: int| 0 <= k < r.len() && r[k] == x;
                assert(m[k] == x);
            }
        }
    }
}

proof fn lemma_none_missing(known: Seq<Seq<char>>, seen: Seq<Seq<char>>)
    requires
        forall|x: Seq<char>| #[trigger] known.contains(x) ==> seen.contains(x),
    ensures
        missing(known, seen) == Seq::<Seq<char>>::empty(),
{
    let m = missing(known, seen);
    if m.len() > 0 {
        lemma_missing(known, seen, m[0]);
        assert(m.contains(m[0]));
    }
    assert(m =~= Seq::<Seq<char>>::empty());
}

/// A file of the document directory, as a run finds it.
pub struct ScannedFile {
    pub path: Seq<char>,
    pub source: Seq<char>,
    pub bytes: Seq<u8>,
}

/// Whether `steps` are what is done with the files, where `stored` are the digests that
/// the index holds of them.
pub open spec fn steps_follow(
    config: Config,
    files: Seq<ScannedFile>,
    stored: Seq<Option<String>>,
    steps: Seq<FileStep>,
) -> bool {
    &&& stored.len() == files.len()
    &&& steps.len() == files.len()
    &&& forall|i: int|
        0 <= i < files.len() ==> (#[trigger] steps[i]).follows(
            config,
            files[i].path,
            files[i].source,
            files[i].bytes,
            stored[i],
        )
}

/// The digest that the index holds of a file once a step was carried out: the one of the
/// step, or the one that it held where there was nothing to do.
pub open spec fn digest_after(step: FileStep, stored: Option<String>) -> Option<Seq<char>> {
    match step.digest() {
        Some(digest) => Some(digest),
        None => match stored {
            Some(h) => Some(h@),
            None => None,
        },
    }
}

/// The names of the files.
pub open spec fn sources_of(files: Seq<ScannedFile>) -> Seq<Seq<char>> {
    Seq::new(files.len(), |i: int| files[i].source)
}

proof fn lemma_run_of_skips(names: Seq<String>, runs: Seq<IndexRun>, n: int)
    requires
        0 <= n <= names.len(),
        runs.len() == names.len() + 1,
        runs[0].is_fresh(),
        forall|i: int|
            0 <= i < names.len() ==> (#[trigger] runs[i]).records(
                runs[i + 1],
                names[i],
                Ok(IndexFileOutcome::Skipped),
            ),
    ensures
        runs[n].seen@ == names.take(n),
        runs[n].summary.scanned_files == n,
        runs[n].summary.skipped_files == n,
        runs[n].summary.indexed_files == 0,
        runs[n].summary.deleted_files == 0,
        runs[n].summary.chunks_indexed == 0,
        runs[n].summary.errors@.len() == 0,
    decreases n,
{
    if n > 0 {
        lemma_run_of_skips(names, runs, n - 1);
        assert(runs[n - 1].records(runs[n], names[n - 1], Ok(IndexFileOutcome::Skipped)));
        assert(names.take(n) == names.take(n - 1).push(names[n - 1]));
    } else {
        assert(names.take(0) == runs[0].seen@);
    }
}

/// A second run over files that did not change does nothing. Let a run carry out its
/// steps on all files without an error, and remove from the index what it did not see.
/// Then the next run skips every file, reports no error, and finds nothing to remove.
pub proof fn second_run_does_nothing(
    config: Config,
    files: Seq<ScannedFile>,
    names: Seq<String>,
    known_before: Seq<Seq<char>>,
    stored_before: Seq<Option<String>>,
    first: Seq<FileStep>,
    known: Seq<Seq<char>>,
    stored: Seq<Option<String>>,
    second: Seq<FileStep>,
    runs: Seq<IndexRun>,
)
    requires
        text::views(names) == sources_of(files),
        steps_follow(config, files, stored_before, first),
        forall|i: int| 0 <= i < files.len() ==> !(#[trigger] first[i] is Fail),
        steps_follow(config, files, stored, second),
        forall|i: int|
            0 <= i < files.len() ==> (#[trigger] stored[i] matches Some(h) && digest_after(
                first[i],
                stored_before[i],
            ) == Some(h@)),
        forall|x: Seq<char>| #[trigger]
            known.contains(x) ==> sources_of(files).contains(x) || (known_before.contains(x)
                && !missing(known_before, sources_of(files)).contains(x)),
        runs.len() == files.len() + 1,
        runs[0].is_fresh(),
        forall|i: int|
            0 <= i < files.len() && second[i] is Skip ==> (#[trigger] runs[i]).records(
                runs[i + 1],
                names[i],
                Ok(IndexFileOutcome::Skipped),
            ),
    ensures
        forall|i: int| 0 <= i < files.len() ==> #[trigger] second[i] is Skip,
        runs.last().summary.scanned_files == files.len(),
        runs.last().summary.skipped_files == files.len(),
        runs.last().summary.indexed_files == 0,
        runs.last().summary.deleted_files == 0,
        runs.last().summary.chunks_indexed == 0,
        runs.last().summary.errors@.len() == 0,
        missing(known, text::views(runs.last().seen@)) == Seq::<Seq<char>>::empty(),
{
    assert(names.len() == text::views(names).len());
    assert forall|i: int| 0 <= i < files.len() implies #[trigger] second[i] is Skip by {
        let digest = fingerprint::document_digest(files[i].bytes);
        assert(first[i].follows(
            config,
            files[i].path,
            files[i].source,
            files[i].bytes,
            stored_before[i],
        ));
        assert(!(first[i] is Fail));
        assert(digest_after(first[i], stored_before[i]) == Some(digest));
        assert(stored[i] is Some);
    }
    let n = files.len() as int;
    assert forall|i: int| 0 <= i < names.len() implies (#[trigger] runs[i]).records(
        runs[i + 1],
        names[i],
        Ok(IndexFileOutcome::Skipped),
    ) by {
        assert(second[i] is Skip);
    }
    lemma_run_of_skips(names, runs, n);
    assert(names.take(n) == names);
    let seen = sources_of(files);
    assert forall|x: Seq<char>| #[trigger] known.contains(x) implies seen.contains(x) by {
        lemma_missing(known_before, seen, x);
    }
    lemma_none_missing(known, seen);
}

// ---------------------------------------------------------------------------
// What indexing keeps of a document
// ---------------------------------------------------------------------------

/// A file is skipped only where all its bytes are those of the file whose digest is
/// stored, as long as SHA-256 tells the two messages apart; where no digest is stored it
/// is never skipped.
pub proof fn only_unchanged_files_are_skipped(
    config: Config,
    path: Seq<char>,
    source: Seq<char>,
    indexed: Seq<u8>,
    bytes: Seq<u8>,
    existing: Option<String>,
    step: FileStep,
)
    requires
        fingerprint::sha256_tells_apart(
            vstd::utf8::encode_utf8("2026-05-13-e5large-v1"@) + indexed,
            vstd::utf8::encode_utf8("2026-05-13-e5large-v1"@) + bytes,
        ),
        existing matches Some(h) ==> h@ == fingerprint::document_digest(indexed),
        step.follows(config, path, source, bytes, existing),
    ensures
        step is Skip <==> existing is Some && bytes == indexed,
{
    if step is Skip {
        fingerprint::digests_tell_files_apart(indexed, bytes);
    }
}

/// A file that is not skipped is treated by its kind: the text of a text file is stored,
/// that of a PDF is extracted first, and any other file is refused with its extension.
/// What is stored beside it is the digest of all its bytes.
pub proof fn files_are_treated_by_their_kind(
    config: Config,
    path: Seq<char>,
    source: Seq<char>,
    bytes: Seq<u8>,
    existing: Option<String>,
    step: FileStep,
)
    requires
        step.follows(config, path, source, bytes, existing),
        !(step is Skip),
    ensures
        step is Store <==> paths::kind_at(path) == Some(DocumentKind::Text),
        step is ExtractPdf <==> paths::kind_at(path) == Some(DocumentKind::Pdf),
        step is Fail <==> paths::kind_at(path) is None,
        step is Store ==> step.digest() == Some(fingerprint::document_digest(bytes)),
        step is ExtractPdf ==> step.digest() == Some(fingerprint::document_digest(bytes)),
        step matches FileStep::Store(file) ==> file.begins(
            source,
            fingerprint::document_digest(bytes),
            documents::text_of(bytes),
            false,
            config.embedding_batch_size,
        ),
        step matches FileStep::ExtractPdf(hash) ==> hash@ == fingerprint::document_digest(bytes),
        step matches FileStep::Fail(message) ==> message@ == "Formato no soportado: "@
            + documents::lower_extension(path),
{
}

/// A document that is indexed begins with nothing handed out or stored. Its passages are
/// words in a row of its text, at most 300 each; where the document has pages, each
/// passage is on the page that the form feeds before its first word have led to.
pub proof fn passages_of_a_document_are_words_in_a_row(
    file: FileIndexing,
    source: Seq<char>,
    hash: Seq<char>,
    content: Seq<char>,
    paged: bool,
    batch: usize,
    k: int,
)
    requires
        file.begins(source, hash, content, paged, batch),
        0 <= k < file.chunks@.len(),
    ensures
        file.source@ == source,
        file.hash@ == hash,
        file.batch == batch,
        file.next == 0,
        file.total == 0,
        file.pages@.len() == file.chunks@.len(),
        exists|a: int, b: int|
            0 <= a < b <= text::words(content).len() && b - a <= 300 && text::words(
                file.chunks@[k]@,
            ) == #[trigger] text::words(content).subrange(a, b) && (paged ==> file.pages@[k] is Some
                && file.pages@[k]->0 == 1 + text::form_feeds(
                content.take(text::word_starts(content)[a]),
            )) && (!paged ==> file.pages@[k] is None),
{
    let ws = text::words(content);
    let all = text::views(file.chunks@);
    assert(all[k] == file.chunks@[k]@);
    documents::passages_are_words_in_a_row(content, 300, 50, k);
    let found = text::words(all[k]);
    let a = documents::passage_starts(ws, 300, 50)[k];
    assert(is_page(file.pages@[k], content, k, paged));
    assert(found == ws.subrange(a, a + found.len()));
}

/// Every word of the text of a document that is indexed is a word of one of its passages.
pub proof fn every_word_of_a_document_is_indexed(
    file: FileIndexing,
    source: Seq<char>,
    hash: Seq<char>,
    content: Seq<char>,
    paged: bool,
    batch: usize,
    i: int,
)
    requires
        file.begins(source, hash, content, paged, batch),
        0 <= i < text::words(content).len(),
    ensures
        exists|k: int, j: int|
            0 <= k < file.chunks@.len() && 0 <= j < text::words(file.chunks@[k]@).len()
                && #[trigger] text::words(file.chunks@[k]@)[j] == text::words(content)[i],
{
    let ws = text::words(content);
    let all = text::views(file.chunks@);
    documents::every_word_is_a_word_of_a_passage(content, i);
    let (k, j) = choose|k: int, j: int|
        0 <= k < documents::passages(ws, 300, 50).len() && 0 <= j < text::words(
            documents::passages(ws, 300, 50)[k],
        ).len() && #[trigger] text::words(documents::passages(ws, 300, 50)[k])[j] == ws[i];
    assert(all[k] == file.chunks@[k]@);
    assert(text::words(file.chunks@[k]@)[j] == ws[i]);
}

/// A point tells of its passage all that a search shows: source, index, page and text, as
/// they are, and the digest of the document.
pub proof fn points_tell_all_of_their_passage(
    point: PassagePoint,
    source: Seq<char>,
    hash: Seq<char>,
    index: int,
    passage: Seq<char>,
    page_number: Option<usize>,
)
    requires
        point.holds(source, hash, index, passage, page_number),
    ensures
        point.source@ == source,
        point.hash@ == hash,
        point.chunk_index == index,
        point.text@ == passage,
        point.page_number == page_number,
        point.id@ == fingerprint::passage_id(source, hash, index as nat),
{
}

/// A batch is as large as a whole one, but for the last, which has what is left.
pub proof fn only_the_last_batch_is_small(n: int, next: int, batch: int)
    requires
        0 <= next < n,
        batch > 0,
    ensures
        1 <= batch_size(n, next, batch) <= batch,
        next + batch_size(n, next, batch) <= n,
        batch_size(n, next, batch) < batch ==> next + batch_size(n, next, batch) == n,
{
}

/// The documents that a run did not see keep the order in which the index lists them, and
/// as often as it lists them.
pub proof fn the_unseen_keep_their_order(
    known: Seq<Seq<char>>,
    seen: Seq<Seq<char>>,
    source: Seq<char>,
)
    ensures
        missing(Seq::empty(), seen) == Seq::<Seq<char>>::empty(),
        missing(known.push(source), seen) == (if seen.contains(source) {
            missing(known, seen)
        } else {
            missing(known, seen).push(source)
        }),
{
    assert(known.push(source).drop_last() == known);
}

/// A run that notes a document counts it once, as indexed, as skipped or as an error, adds
/// its passages, and forgets nothing that it noted before.
pub proof fn a_run_counts_each_document_once(
    run: IndexRun,
    after: IndexRun,
    source: String,
    outcome: Result<IndexFileOutcome, String>,
)
    requires
        run.well_formed(),
        run.records(after, source, outcome),
    ensures
        after.well_formed(),
        after.summary.indexed_files + after.summary.skipped_files + after.summary.errors@.len()
            == after.summary.scanned_files,
        after.summary.scanned_files == after.seen@.len(),
        after.seen@ == run.seen@.push(source),
        after.summary.deleted_files == run.summary.deleted_files,
        after.summary.indexed_files - run.summary.indexed_files == (if outcome is Ok
            && outcome->Ok_0 is Indexed {
            1int
        } else {
            0int
        }),
        after.summary.skipped_files - run.summary.skipped_files == (if outcome is Ok
            && outcome->Ok_0 is Skipped {
            1int
        } else {
            0int
        }),
        after.summary.chunks_indexed - run.summary.chunks_indexed == (match outcome {
            Ok(IndexFileOutcome::Indexed(n)) => n as int,
            _ => 0int,
        }),
        outcome is Ok ==> after.summary.errors@ == run.summary.errors@,
        outcome matches Err(error) ==> text::views(after.summary.errors@) == text::views(
            run.summary.errors@,
        ).push(source@ + ": "@ + error@),
{
    if outcome is Err {
        assert(text::views(after.summary.errors@).len() == after.summary.errors@.len());
        assert(text::views(run.summary.errors@).len() == run.summary.errors@.len());
    }
}

/// A run begins with nothing seen and nothing counted.
pub proof fn a_run_begins_with_nothing(run: IndexRun)
    requires
        run.is_fresh(),
    ensures
        run.seen@.len() == 0,
        run.summary.scanned_files == 0,
        run.summary.indexed_files == 0,
        run.summary.skipped_files == 0,
        run.summary.deleted_files == 0,
        run.summary.chunks_indexed == 0,
        run.summary.errors@.len() == 0,
{
}

/// The next batch of a file goes on where the last one ended, and is as large as a whole
/// one unless it is the last, which has all passages that are left.
pub proof fn batches_of_a_file_go_on_to_its_end(file: FileIndexing)
    requires
        file.well_formed(),
    ensures
        file.pages@.len() == file.chunks@.len(),
        file.total <= file.next <= file.chunks@.len(),
        file.chunks@.len() - file.next >= file.batch ==> file.upcoming() == file.batch,
        file.chunks@.len() - file.next < file.batch ==> file.upcoming() == file.chunks@.len()
            - file.next,
        file.next < file.chunks@.len() ==> file.upcoming() > 0,
{
}

} // verus!
