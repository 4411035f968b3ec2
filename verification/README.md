# png-spark

A PNG encoder and decoder in verified Rust, with its own DEFLATE, checksums and filters. Every
colour type and bit depth is read and written; interlaced files are read, and files are always
written sequentially. There is one compression setting, chosen for speed: literals and runs of
zero bytes, entropy-coded.

```rust
let image = png_spark::decode(&bytes)?;
println!("{}x{} {:?}", image.width(), image.height(), image.color_type());
let rgba = image.to_rgba8()?;

let png = png_spark::encode_rgba8(image.width(), image.height(), &rgba)?;
```

The library is written in Verus. Each function states what it returns or changes, and the
statements are proved: no function of the library panics, and a decode of an encode gives back
the image.

## Layout

What a file or a stream means is stated first, as functions on sequences of bytes:

- `bits`, `code`, `tables`: bits in a stream, canonical Huffman codes, the tables of DEFLATE
- `stream`: what a DEFLATE stream and its zlib framing expand to, or why they do not
- `encoding`: the stream that the compressor writes
- `file`: what a PNG file says, and the pixels it holds
- `writing`, `selection`: the file that an image is written as, and how filters are chosen
- `tree`: the Huffman tree of a set of frequencies, and its lengths under a ceiling

The executable half is proved against those:

- `adler32`, `crc32`, `filter`, `huffman`, `table`: checksums, scanline filters, codes
- `inflate`, `deflate`: decompression and compression
- `common`, `error`, `text`: image descriptions, errors and their messages
- `decoder`, `interlace`, `transform`: files to pixels, and pixels to RGB or RGBA
- `encoder`: pixels to files, whole or in parts
- `cases`, `corpus`: preparing files for measurements

What holds of both together stands in `roundtrip`, `truncation`, `damage`, `growth`, `walk`,
`metadata`, `pixels`, `optimal` and `laws`, in public proof functions whose names begin with
`law_`.

Three things are taken on trust, each behind a function marked `external_body`: reserving
memory for a vector, appending a character to a string, and what `fdeflate` makes of a stream.

`app` is a program that measures the library against the `png` and `fdeflate` crates. It also
holds what needs `std::io`: encoding into a writer, and the entry points for a fuzzer.

## What to know

- Decoding gives the file's own pixel layout; `to_rgba8` and `to_rgb8` convert.
- `decode` refuses a header that asks for more than 512 MiB before it asks for memory.
  `Decoder::max_decompressed_size` moves or removes that limit.
- Chunk checksums are checked, the one inside the image data only with `Checks::Full`. A
  damaged ancillary chunk is dropped; a damaged critical chunk is an error.
- Metadata is kept on request, with `Keep::Only` or `Keep::All`, and travels on `Info`.
- A file that was cut short is refused, wherever it was cut.
- `Encoder::start` and `Encoder::next_part` produce a file in parts, so that neither the file
  nor a filtered copy of the image is ever held whole.
