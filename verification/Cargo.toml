[package]
name = "geotiles"
version = "0.5.0"
edition = "2021"
publish = false

[dependencies]
anyhow = "1"
clap = { version = "4", features = ["derive"] }
fallible-streaming-iterator = "0.1"
flate2 = "=1.1.10"
flatgeobuf = { version = "=6.0.1", default-features = false }
geo = "=0.29.3"
geo-types = "=0.7.20"
geozero = { version = "=0.15.1", features = ["with-geo"] }
image = { version = "=0.25.10", default-features = false, features = ["webp", "png"] }
indicatif = "0.18"
jpeg-encoder = "=0.7.1"
mvt = "=0.15.0"
pmtiles = { version = "=0.26.0", default-features = false, features = ["write"] }
rayon = "1"
rusqlite = { version = "0.39", features = ["bundled"] }
surtgis-colormap = "=1.6.0"
surtgis-core = { version = "=1.6.0", features = ["geopackage", "shapefile", "parquet"] }
thiserror = "2"
tiff = "=0.11.3"

[dev-dependencies]
jpeg-decoder = "0.3"
