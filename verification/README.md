# pick

The logic of `pick`, a coding assistant that runs a model's tool calls
(`bash`, `read`, `edit`, `write`) in a sandboxed project, keeps the
conversation as a session log, reviews the repository's pending change and
exports a session as a standalone HTML document. The library holds the
export's pieces: the grouping of a session into blocks, each block's markup
and the document around them; rendering markdown with the theme's syntax
colors, and so assembling a document, is left to the program.

The library under `src/` is verified with Verus: each public function
states in its contract what it returns, over spec functions on sequences of
characters and bytes, and the properties that span functions are proved as
`law_*` proof functions.

- `text`: characters, bytes, lines and words, the primitives the rest is
  stated over.
- `output`: the bounded capture of a tool's output, its head and tail kept
  within a line cap and a byte cap.
- `tool`: the builtin tools and their decisions: the chunked scan of a
  `read`, the replacement of an `edit`, the title, script and preview of a `bash`
  call, the preview of a `write`.
- `git`: the reports of `git status`, `git diff --numstat` and `git diff`,
  parsed.
- `diff`: the lines of a diff and the segments each is drawn in.
- `session`: the session log replayed into a conversation, and the frames
  that extend it.
- `conversation`: the decisions of a running conversation: its context,
  when and where to compact it, what to save, what an abort stops.
- `chat`: the state machine that runs a conversation, from the events of
  the model server, the session log, the tools and the user to the next
  state and the work to do; what a key does in the input box, and the
  title of an empty conversation.
- `html`: the pieces of the HTML export: escaping, markdown, steps of tool
  calls, diffs and the document itself.
- `raw_html`: what the escape of raw HTML in markdown keeps: escaping twice
  changes nothing, and nothing but `<` is rewritten.
- `sandbox`: the bubblewrap policy, from a snapshot of the host.
- `review`: a review of the pending change, its comments in the order of
  the diff, each with the lines shown with it, and the prompt it is sent as.
- `drafts`: the comments of a review as they are written, at most one per
  line, and when the review is sent.
- `project`, `path`, `file`, `highlight`, `cli`: the project's identity and
  paths, previews and the command line.

`app/` is the program around the library: the command line, the sandbox's
re-execution, git and the tools' file and process I/O, and the session log
on disk.
