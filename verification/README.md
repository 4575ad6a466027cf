# rinha

Fraud scoring by nearest neighbours: a request is turned into a vector of fourteen quantised
features, and the answer depends on how many of its five nearest neighbours among a set of
labelled vectors are frauds. The vectors are grouped into clusters by k-means, and a query scans
only the clusters with the nearest centroids (an inverted-file index).

- `src/` is the library, verified with Verus: the parser, the feature vector, the index with its
  binary form, its builder and its search, and the answers of the service.
- `app/` is the program around it: the HTTP server, the reading of files, and what is computed
  in floating point. `build_index` builds the index file, `recall_check` measures the decisions,
  and without arguments the program serves.
- `tests/` runs the library on concrete values.

| module        | what it states                                                            |
|---------------|---------------------------------------------------------------------------|
| `parse`       | which part of a request's text each field is read from                    |
| `search`      | first occurrences in byte strings                                         |
| `calendar`    | timestamps, and the day of the week in the Gregorian calendar             |
| `vectorize`   | the features of a request, and that they stay on the scale                |
| `distance`    | lane arithmetic, and where it is squared Euclidean distance               |
| `ranking`     | bounded lists of nearest candidates                                       |
| `layout`      | the bytes of an index                                                     |
| `index`       | which neighbours a query finds, and what it counts                        |
| `full_search` | that a query of all clusters counts as a search of all vectors does       |
| `builder`     | k-means, and that what is written is read back, each vector once          |
| `responses`   | routes and replies                                                        |
| `recall`      | wrong decisions and their weights                                         |
