[package]
name = "rs_3d_polygon_to_triangles"
version = "0.1.0"
edition = "2021"
publish = false

[dependencies]
nalgebra = "*"
