[package]
name = "conventional_commits_changelog_generator"
version = "0.1.0"
edition = "2021"
publish = false

[dependencies]
url = "*"
chrono = "*"
conventional-commits-parser = "*"
markdown-composer = "*"
git2 = "*"
cargo_toml = "*"
conventional-commits-next-semver = "*"
pico-args = "*"
indoc = "*"
