# knn_ocr

Handwritten-digit recognition by k nearest neighbours over the MNIST data set, stored
as IDX files, together with the front ends built on it: a batch classifier, a
multi-process variant, and an HTTP server that classifies posted images.

- `src/` is the verified library:
  - `idx`: decoding a pair of IDX files (images and labels) into labeled feature vectors;
  - `knn`: squared distances, the `k` nearest neighbours, the majority vote (`mode`),
    `knn` and `classify`;
  - `numbers`: reading decimal integers as `str::parse` does, and writing them;
  - `cli`: the command lines of the three programs;
  - `http`: reading a request head (with `httparse`), routing, and the replies.
- `app/` holds the programs themselves: file and socket I/O, process forking, printing.
- `tests/` exercises the library on concrete values.
