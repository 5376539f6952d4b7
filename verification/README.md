# image-extras

Decoders for image formats that are less common, and an encoder for one of them, written in Rust
and verified with Verus.

| Extensions | Format | Module |
| ---------- | ------ | ------ |
| `ora` | OpenRaster (the merged image) | `ora` |
| `pcx` | PCX | `pcx` |
| `psd` | Photoshop (the composite image) | `psd` |
| `rgb`, `rgba`, `bw`, `sgi`, `iris` | SGI | `sgi` |
| `wbmp` | Wireless bitmap (decoding and encoding) | `wbmp` |
| `xbm`, `bm` | X BitMap | `xbm` |

## Layout

- `src/` is the library. Every function states in its contract what it returns, and Verus proves
  it. The decoders take their input as a `ByteSource`: the bytes that a reader delivers, and the
  error with which it ends, if it does. What holds of a format as a whole, such as that reading
  gives back what was written, is stated as proof functions, whose names begin with `law`: in the
  `laws` module of a format or beside its decoder, and in `registry` and `decimal`.
- ZIP archives, PNG images, and the pixels of PCX, PSD and WBMP files are left to the `zip`,
  `image`, `pcx`, `zune-psd` and `wbmp` crates. What is taken for granted of them stands in the
  contracts of the functions that call them, which are marked `external_body`.
- `app/` makes the decoders available to the `image` crate: it reads the input, converts errors,
  and registers the formats.
- `tests/` runs the library on concrete files.
