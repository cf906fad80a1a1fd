[package]
name = "tantivy_go"
version = "0.1.0"
edition = "2021"
publish = false

[dependencies]
tantivy = "0.22"
tantivy-fst = "0.5"
levenshtein_automata = "0.2"
serde = { version = "1", features = ["derive"] }
