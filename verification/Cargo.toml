[package]
name = "rdf_triples"
version = "0.1.0"
edition = "2021"
publish = false

[dependencies]
quick-xml = "0.22"
rio_api = "0.5"
