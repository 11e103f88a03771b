[package]
name = "planner"
version = "0.1.0"
edition = "2021"
publish = false

[dependencies]
petgraph = "0.6"
geo = "0.23"
geojson = { version = "0.24", features = ["geo-types"] }
proj = { version = "0.27", features = ["geo-types"] }
geozero = { version = "0.9", default-features = false, features = ["with-wkb", "with-geo", "with-gpkg"] }
sqlx = { version = "0.6", default-features = false, features = ["sqlite", "runtime-tokio-rustls"] }
tokio = { version = "1", features = ["full"] }
tokio-tungstenite = "0.17"
futures = "0.3"
serde = { version = "1", features = ["derive"] }
serde_json = "1"
reqwest = { version = "0.11", default-features = false, features = ["rustls-tls"] }
shapefile = { version = "0.3", features = ["geo-types"] }
zip = { version = "0.6", default-features = false, features = ["deflate"] }
geos = { version = "8", features = ["geo"] }
log = "0.4"
