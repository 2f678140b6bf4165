# garnetash

The core of a small VVC/H.266 intra still-image encoder, written in Verus.
Verus checks every function in `src/` against its contract. The only
unchecked items are the five `format!` wrappers in `error.rs`, whose
contracts state the text they return. The CABAC engine, the intra-mode
coders, the residual and transform-unit coders and decoders, the filters and
the transforms have exact contracts: each coder's result is stated as a model
of the bins it writes, each decoder's as a function of the bytes it reads.
That the CABAC decoder reads back every context-coded and bypass bin the
encoder wrote, and the terminating bin, is proved (`cabac::roundtrip`). On
top of it, the luma and chroma intra modes, the QP delta and the last
significant position are proved to read back as coded. For the level
syntax of the residual coders and for whole transform units, that the
decoder gives back what the encoder wrote is checked by the tests, not
proved.

- `bitstream` — bit writer/reader, Exp-Golomb codes, emulation prevention, NAL framing
- `cabac` — context models, the arithmetic encoder and decoder, and the proof that the decoder reads back what the encoder wrote
- `intra`, `predict`, `cclm` — intra mode coding, sample prediction, cross-component prediction
- `transform` — DCT-II/DST-VII/DCT-VIII transforms, (dependent) quantization, SATD
- `lfnst` — the low-frequency non-separable transform (kernels supplied by the caller)
- `residual` — regular and transform-skip residual coding and decoding
- `tu` — transform units: coded block flags, QP delta, per-component residuals
- `deblock` — luma and chroma deblocking filters
- `color`, `metadata`, `yuv`, `fmt`, `error` — image description, planar input, errors
- `ppm` — reading 8-bit binary and ASCII PPM images

`tests/` exercises the library; `app/` is the command-line front end and the
floating-point rate-distortion quantizers.
