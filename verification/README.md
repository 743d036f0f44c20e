# strto

Byte-slice versions of the C library's number conversions — `atoi`, `atol`,
`atoll`, `strtol`, `strtoul`, `strtoll`, `strtoull`, and the integer core of
`atof`, `strtod` and `strtof` — with their behaviour stated as contracts and
proved by Verus. The "C" locale and round-to-nearest-even are assumed; a byte
past the end of a slice reads as NUL.

## Layout

- `src/` — the verified library.
  - `chars.rs`: C character classes, reading a slice as a C string.
  - `errors.rs`: the error numbers (`ERANGE`, `EINVAL`) and storing `errno`.
  - `integer.rs`: the integer grammar and the `strto*`/`ato*` integer conversions.
  - `float_format.rs`: the binary32 and binary64 formats.
  - `rounding.rs`: correct rounding of `d · 2^x`, ties to even, to a bit pattern.
  - `hexfloat.rs`: hexadecimal floating-point bodies, converted exactly rounded.
  - `nan.rs`: NaN payloads from `nan(n-char-sequence)`.
  - `strto.rs`: what a floating-point conversion finds at the start of a string.
  - `decimal.rs`: finishing a decimal conversion: sign and range errors, with an
    exact test of decimal subnormals.
  - `laws.rs`, `scan_laws.rs`: properties over all inputs (NUL termination,
    prefixes, signs, rounding).
- `tests/` — tests of the library on concrete inputs.
- `app/` — the `f64`/`f32` entry points (`atof`, `strtod_*`, `strtof_*`), which
  parse a decimal token with std's correctly rounded parser and build the float
  from the bit pattern the library computes.
