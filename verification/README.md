# jpeg_encoder

A baseline (SOF0) JPEG encoder with Huffman coding, verified with Verus.

The library in `src/` holds the logic, each public function with a contract:

- `bitstream`: bit sequences and their packing into bytes, with byte stuffing.
- `text`: decimal numbers and space-separated pieces of text.
- `cmd`: the command line (`-f FILE`, `-d`, `-q TABLE`, `-c TABLE`).
- `file_reader`: reading portable bitmaps, graymaps and pixmaps (P1 to P6);
  in a bitmap a set pixel is black.
- `bloc`: 8x8 blocks, the quantization table file, quantization and the
  zigzag order.
- `encoding`: magnitude categories, run lengths and the entropy-coded data.
- `huffman`: frequency leaves, the Huffman tree, code lengths and canonical
  codes.
- `jpeg_format`: the segments of the JPEG file.
- `laws`: what holds across these functions, stated and proved.

`app/main.rs` is the program around it: arguments, files, the floating-point
colour conversion and DCT, and printing.

Usage:

```bash
jpeg_encoder -f image.ppm [-d] [-q quant/regular_Y] [-c quant/regular_Cr]
```

Without `-q` the table `quant/one` is read, which applies no quantization;
without `-c` the chrominance of a colour image uses the luminance table.
