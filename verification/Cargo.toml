[package]
name = "locus_llvm"
version = "0.1.0"
edition = "2021"
publish = false

[dependencies]
serde = { version = "=1.0.229", features = ["derive"] }
serde_json = "=1.0.154"
rmcp = { version = "1", features = ["server", "macros", "transport-io", "schemars"] }
tokio = { version = "=1.54.1", features = ["rt-multi-thread", "macros", "io-std", "time"] }
cc = "=1.11.0"
inkwell = { version = "=0.11.0", default-features = false, features = ["llvm22-1-no-llvm-linking", "target-x86"] }
llvm-sys = { version = "221", features = ["no-llvm-linking", "disable-alltargets-init"] }
