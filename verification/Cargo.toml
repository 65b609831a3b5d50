[package]
name = "fork_cleanup"
version = "0.1.0"
edition = "2021"
publish = false

[dependencies]
anstream = "*"
camino = "*"
clap = { version = "4", features = ["derive", "env"] }
color-eyre = "*"
derive_more = { version = "*", features = ["display", "from_str"] }
futures-util = "*"
indexmap = "2"
indicatif = "*"
inquire = "*"
num_cpus = "1"
owo-colors = "*"
package-family-name = "*"
serde = { version = "1", features = ["derive"] }
sha2 = "0.10"
zip = "*"
