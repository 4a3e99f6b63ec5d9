[package]
name = "zipped_tables"
version = "0.1.0"
edition = "2021"
publish = false

[dependencies]
async-trait = "0.1"
bytes = "1"
chrono = "0.4"
datafusion = "51"
futures = "0.3"
object_store = { version = "0.12", features = ["aws"] }
rand = "0.8"
tokio = { version = "1", features = ["macros", "rt-multi-thread", "time"] }
