[package]
name = "gitkit"
version = "0.1.0"
edition = "2021"
publish = false

[dependencies]
anyhow = "1"
bstr = "=1.13.1"
dashmap = "=6.2.1"
git-command = "=0.2.4"
git-diff = "=0.26.2"
git-features = { version = "=0.26.5", features = ["rustsha1"] }
git-hash = "=0.10.3"
git-object = "=0.26.2"
git-quote = "=0.4.2"
git-sec = "=0.6.3"
git-url = "=0.12.2"
gix = { version = "=0.90.0", default-features = false, features = ["revision", "sha1"] }
gix-index = { version = "=0.58.0", features = ["sha1"] }
gix-path = "=0.14.1"
hash_hasher = "=2.0.4"
thiserror = "2"
