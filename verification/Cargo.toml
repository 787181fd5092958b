[package]
name = "simperby_repository"
version = "0.1.0"
edition = "2021"
publish = false

[dependencies]
git2 = { version = "=0.21.0", default-features = false }
tokio = { version = "=1.54.1", features = ["sync", "rt", "rt-multi-thread"] }
async-trait = "=0.1.92"
thiserror = "=1.0.69"
serde = { version = "1", features = ["derive"] }
