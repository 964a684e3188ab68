# face_id

Face analysis: crops and thumbnails of detected faces, model input and output,
embeddings and their similarity, gender and age, and clusters of faces.

`src/` is the library. It is written in Verus, and every function states what it
returns. Single precision numbers are held as bit patterns, with arithmetic that
is proved to round as IEEE 754 asks. Models are called through functions that the
caller hands in.

`app/` puts the library to work: it loads models with ONNX Runtime, runs them,
reads image files and calls HDBSCAN.

`tests/` runs the library on concrete values.
