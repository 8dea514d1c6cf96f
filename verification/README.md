# primitive_fixed_point_decimal

Fixed-point decimal numbers held in a primitive signed or unsigned integer
(`i8` .. `i128`, `u8` .. `u128`). The library in `src/` is verified by
Verus: arithmetic, rounding, parsing and formatting to bytes. What needs
floating point, serde or `std::fmt` (`Display`, float conversion,
serialization) lives unverified in `app/`, on copies of the decimal types
that call the verified library.

A decimal is a mantissa `m` and a scale `s`; its value is `m * 10^-s`.

* `ConstScaleFpdec<I, S, NEG>`: the scale is fixed in the type (`S` with its
  sign `NEG`, so `S = 2, NEG = false` is scale 2 and `NEG = true` a negative
  scale).
* `OobPrecFpdec<I>`: the scale is carried out of band; each operation takes
  it (or the difference of scales) as an argument.
* `OobFmt<I>`: an `OobPrecFpdec` together with its scale, for parsing and
  formatting.

Arithmetic is checked: `checked_add`, `checked_mul`, `checked_div` and the
rest return `None` when the result does not fit the mantissa type,
and the `_ext` forms take an explicit `Rounding`. Parsing (`try_from_str`)
and formatting (`format_parts`, `display_fmt`) work on bytes and round-trip.

## Layout

* `src/math.rs`: the arithmetic model (`pow10`, rounded and truncated
  division, scaled products and quotients) with its lemmas.
* `src/fpdec_inner.rs`, `src/inner_shorts.rs`, `src/inner_i128.rs`: the
  trait over the mantissa types and its implementations, including the
  128-bit multiply-then-divide (`src/wide_div.rs`, `src/bits128.rs`) and the
  fast division by powers of ten (`src/exp_div.rs`).
* `src/parse.rs`, `src/display.rs`, `src/digits.rs`: decimal strings.
* `src/const_scale_fpdec.rs`, `src/oob_prec_fpdec.rs`: the decimal types.
* `src/laws.rs`, `src/round_trip.rs`: properties that span several
  operations (rounding, rescaling, format-then-parse).
* `tests/`: executable tests.
* `app/`: the parts that need floating point, serde or `std::fmt`
  (`Display`, `FromStr` on copies of the decimal types, float conversion).
