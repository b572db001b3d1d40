[package]
name = "zearch"
version = "0.1.0"
edition = "2021"
publish = false

[dependencies]
fst = "0.4"
levenshtein_automata = { version = "0.2", features = ["fst_automaton"] }
roaring = "0.10"
text_distance = "*"
speedy = "0.8"
