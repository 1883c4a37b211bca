[package]
name = "voxelized"
version = "0.1.0"
edition = "2021"
publish = false

[dependencies]
wasm-bindgen = "0.2"
js-sys = "0.3"
serde = { version = "1", features = ["derive"] }
serde-wasm-bindgen = "*"
once_cell = "1"
web-sys = { version = "0.3", features = ["Window", "Document", "Element", "HtmlElement", "Node", "EventTarget", "HtmlCanvasElement", "CanvasRenderingContext2d", "HtmlImageElement", "ImageData", "Performance", "WebGl2RenderingContext", "WebGlBuffer", "WebGlProgram", "WebGlUniformLocation", "WebGlTexture"] }
