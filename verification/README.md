# neuro_arg

Solvers for a chain of puzzles, written in Verus: every step that turns data
into an answer is a verified function with a contract.

- `src/bytes` — byte ciphers: base64 decoding, AES decryption with PKCS#7
  padding, a Malbolge interpreter, fuzzy replacement, and chains of them.
- `src/numbers` — operations on big integers and their digits (multiply,
  divide, add, subtract, append or prepend digits, reverse digits, replace
  digit runs) and chains of them.
- `src/math` — the Fibonacci numbers and the stream of their decimal digits.
- `src/numbers1`, `study`, `numbers2`, `candle`, `soundcloud`, `filtered`,
  `meaning_of_life`, `schizo` — the puzzles themselves, each stated as a
  function of its inputs.
- `src/images`, `video`, `audio`, `qr`, `curvefit` — the integer side of the
  picture, frame, sound and curve work: denoising filters, reassembly of a
  cut picture, frame interleaving, pattern runs, click tracks, a QR code.
- `src/parse` — splitting text into lines and fields, reading integers.

Arbitrary-precision integers come from `num`, AES from `aes`, base64 from
`base64`, permutations and products from `itertools`, and nearest-neighbour
resizing from `image`; each call goes through a small trusted wrapper whose
contract says what the crate documents.

`app/` is the command-line driver: file, image, sound and video input and
output, threads, and the parts that compute in floating point.
