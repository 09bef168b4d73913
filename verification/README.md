# cshell

The logic of a terminal for SSH sessions, written in Rust and verified with
Verus. `src/` is the library: its functions state what they do in `requires` and
`ensures`, and the verifier proves it.

- `ansi`, `journal`, `segmented`, `writer`, `writer_laws`, `collector`,
  `decode_laws`: the output of sessions, kept in journals of one or more files,
  and the text that it decodes to.
- `line_index`, `line_blocks`, `index_laws`, `log_page`, `page_laws`,
  `segment_laws`, `checkpoint`, `checkpoint_laws`, `cache_swap`,
  `history_search`, `search_query`, `search_laws`: the index of a journal's
  lines, the pages that are read from it, the files that keep it, and the search
  in it.
- `log_reflow`, `log_surface`, `surface`, `terminal`, `terminal_interaction`,
  `paint`, `glyph_atlas`: what a window shows of logs and screens.
- `ssh`, `known_hosts`, `known_hosts_laws`, `forwarding`, `proxy`, `sftp`,
  `transfer`: sessions, host keys, forwarded connections and file transfers.
- `migration`, `profiles`: the database of profiles.
- `bytes`, `text`: sequences of bytes and characters.
- `outside`: the functions of other crates that the library calls, with the
  contracts that are trusted of them.

Proof functions whose names begin with `law_` state what holds of several
functions together.

`tests/` runs the library. `app/` is ordinary Rust around it: files, sockets,
the database, fonts and the GPU.
