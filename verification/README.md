# gitbisectrust

A client for a bisection game: a server sends a repository (each commit with
its parents) and instances (a good commit and a bad one); the client asks
whether commits are good or bad until it can name the first bad commit.

- `src/` is the verified library.
  - `graph.rs`: the model — a map from commit numbers to parent lists, what a
    commit reaches through it, and the breadth-first walk behind the guesses.
  - `algorithm.rs`: trimming the candidates after an answer
    (`remove_unecessary_good_commits`, `remove_from_bad`) and choosing the next
    question (`get_next_guess`).
  - `laws.rs`: what holds across calls (the candidates stay exactly what the
    bad commit reaches, the first bad commit is never lost, every answer
    removes a commit, a question always exists while two or more candidates
    are left).
  - `names.rs`: commit names and their numbers; building the map from the
    repository message.
  - `client.rs`: the client's decisions, from its state and a message to its
    reply and next state.
  - `score.rs`, `visualise_dag.rs`: the score summary and a Graphviz picture.
  - `json_types.rs`: the protocol messages as plain values.
- `app/` is the program: JSON reading and writing, the websocket connection,
  printing.
- `tests/` runs the library on concrete repositories.
