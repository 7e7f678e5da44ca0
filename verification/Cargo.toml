[package]
name = "bucket_sort"
version = "0.1.0"
edition = "2021"
publish = false

[dependencies]
compact_arena = "0.4"
fst = "0.3"
heed = "0.7"
levenshtein_automata = { version = "0.1", features = ["fst_automaton"] }
log = "0.4"
sdset = "0.4"
slice-group-by = "0.2"
