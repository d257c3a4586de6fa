# rag_rust_openrouter

Answers questions about a collection of documents. Text, Markdown and PDF files are cut
into passages of 300 words with 50 words of overlap, embedded by a local model and kept in
Qdrant. A question is answered from the passages that are found for it: by a language model
over OpenRouter, or, where no key is configured, by a summary that is made locally.

The logic is a library that Verus verifies; the program around it is ordinary Rust.

## Layout

| Where | What |
|---|---|
| `src/config.rs` | settings from the environment, with their defaults |
| `src/text.rs`, `numbers.rs`, `order.rs` | text, decimal numbers, the order of strings |
| `src/paths.rs` | file names, supported formats, safe names, paths from a directory |
| `src/documents.rs` | decoding a file and cutting its text into passages |
| `src/fingerprint.rs` | digests of passwords, questions and documents, ids of passages |
| `src/indexing.rs` | what is done for one file, and for a run over all of them |
| `src/search.rs` | what a search found: choosing, ordering, merging, the local answer |
| `src/llm.rs` | what the language model is asked, and how its reply is read |
| `src/chat.rs` | from a question to its answer, whole or streamed, and the cache |
| `src/auth.rs` | logging in, sessions, roles, blocking |
| `src/upload.rs`, `store.rs`, `status.rs`, `error.rs` | uploads, the vector store, status, refusals |
| `src/json.rs` | JSON values |
| `app/` | the web server, the database, and the requests to Qdrant and OpenRouter |
| `tests/` | tests of the library |

## Settings

The dimension of the collection is `EMBEDDING_DIMENSION`. The library's default is 1536. The
program embeds documents on this machine, with a model whose vectors have 384 numbers, and
uses that number where the variable is not set; so no document leaves the machine when it is
indexed.

## What is proved

Every function of `src/` states what it returns for every input. Beyond that the library
proves, among others, that no word of a document is lost when it is cut, that a second run
over files which did not change does nothing, that an upload lands in the document directory
under a name of one safe part and keeps its format, that without a key the language model is
never asked, that it sees nothing but the question and the chosen fragments, that the events
of a streamed answer come in one order whatever happens, that it does not matter where,
between two characters, a streamed reply is cut, and that the session cookie is read back as
it was set.

What the outside crates do, and the parts of the standard library that have no
specification yet, is stated in the contracts of small wrappers marked
`#[verifier::external_body]` and in two `assume_specification` items. These are believed,
not proved.
