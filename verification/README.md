# synonym_search

Looks up the synonyms of a list of words on three sites
(thesaurus.yourdictionary.com, www.thesaurus.com, www.merriam-webster.com)
and prints, for each word, each synonym found once with the number of sites
that listed it.

- `src/` is the verified library: the text primitives (`text`), the readers of
  the three sites' answers (`providers`), the consolidated result (`tally`),
  the end-of-search count (`progress`), the messages between threads
  (`messages`), the command-line choices (`config`) and the log lines
  (`logger`).
- `app/` runs the search: HTTP requests, files, threads, channels, the
  semaphore and the actors.

Run: `synonym_search actors|without_actors MAX_CONCURRENT_REQUESTS MIN_SECONDS_BETWEEN_REQUESTS FILE`.
