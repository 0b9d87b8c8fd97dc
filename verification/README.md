# agent-eyes

Visual QA for agents: DOM structure extraction, pixel diffs of screenshots,
perceptual hashes, and the decisions around them.

- `src/` is the library, verified with Verus. Each public function states in
  its contract what it returns; the laws of the library (for example that a
  coalesced request gets back the answer stored within its window, that the
  Hamming distance is a metric, or that the HTML scanner never records more
  than the requested number of elements) are proof functions beside the code.
  - `text`: character-level search, trimming, word splitting, tag stripping.
  - `dom_index`: the HTML scanner (elements, attributes, visible text, paths).
  - `describe`: what `describe` reports about a page, a file or a URL.
  - `diff`, `phash_cascade`: pixel diff, average hash, region change, cascade.
  - `dom_diff_coalesce`: the cache that coalesces DOM index requests.
  - `config`, `verify`, `vlm`, `mcp_server`, `serve`: defaults, baseline
    paths, the vision-model status and prompt/token handling.
- `app/` is the program around it: the CLI, HTTP daemon, MCP server, SQLite
  index, fetching, image decoding and printing.
- `tests/` runs the library on concrete inputs.
