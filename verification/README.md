# utvideo

A Ut Video classic-family lossless codec whose library is verified with
[Verus](https://github.com/verus-lang/verus).

- `src/` is the library: decoder, encoder, inspector, and the decisions of the
  framework side. Verus proves the contract of every function but one:
  `registry::codec_tag` wraps `oxideav_core::CodecTag::fourcc`, and its contract
  is believed.
- `app/` holds what stands around it: the decoder and encoder objects of
  `oxideav-core`, worker threads, and the floating-point predictor heuristic.
- `tests/` runs the library.

The modules of the library:

| module | contents |
| --- | --- |
| `bytes`, `text` | words in byte strings, numbers in texts |
| `error` | the errors, their categories and their texts |
| `fourcc`, `extradata` | identification of a stream |
| `bitstream` | bit reader and bit writer |
| `canonical`, `huffman` | the prefix code of a descriptor, and its tables |
| `lengths`, `cheapest` | package-merge: code lengths within a limit, and why no others are cheaper |
| `predict`, `predictor` | prediction and colour decorrelation |
| `payload` | the structure of a frame's payload |
| `decoder`, `encoder` | whole frames |
| `inspect` | the layout of a frame without decoding it |
| `workers`, `registry` | sharing out slices, stream parameters, sessions |
| `laws`, `layout_laws`, `padding` | what holds between encoder, decoder and inspector |

The central law is `laws::law_round_trip`: decoding what was encoded gives back
every sample, with the plain and with the strict decoder.
