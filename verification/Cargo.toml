[package]
name = "calendar_solver"
version = "0.1.0"
edition = "2021"
publish = false

[dependencies]
chrono = "=0.4.45"
chrono-tz = "=0.10.4"
rrule = "=0.14.0"
serde = { version = "=1.0.229", features = ["derive"] }
serde_json = "=1.0.154"
solverforge = "=0.19.4"
solverforge-bridge = "=0.19.4"
solverforge-config = "=0.19.4"
solverforge-core = "=0.19.4"
solverforge-cvrp = "=0.19.4"
solverforge-macros = "=0.19.4"
solverforge-scoring = "=0.19.4"
solverforge-solver = "=0.19.4"
thiserror = "=2.0.21"
uuid = { version = "=1.29.0", features = ["v4"] }
