# metal-softfloat-core

IEEE-754 binary64 in integer arithmetic, for devices without a `double` type,
with every operation proved against what the standard says of it.

All numbers cross the interface as bit patterns: a binary64 number as `u64`, a
binary32 number as `u32`.

## Modules

- `softfloat_ref`: addition, subtraction, multiplication, division, square root,
  fused multiply-add, conversions and comparisons, in four rounding modes.
  `fdiv_berkeley` and `fsqrt_berkeley` work from a 32-bit reciprocal instead of a
  full division or root.
- `softfloat_ftz`: the arithmetic with subnormal operands and results flushed to
  zero.
- `gpu`: what the Metal dispatchers hand to the device and how they read its
  output.
- `header`: the redistributable Metal header, made from the shader source.
- `model`, `ieee`: what a pattern means, what it is to round, and what each
  operation returns for every operand.
- `laws`: what holds of the operations as a whole.
- `rounding`, `staging`, `bits`: the lemmas behind them.

`app/` holds the program `gen-msl-header` and, for macOS, the calls into Metal.
Both work from the shader source `shaders/softfloat.metal`: the program reads it,
the calls embed it.

## How the contracts read

Finite numbers are integers in units of `2^-1074`, the least positive subnormal.
Encodings without their sign bit number the magnitudes in increasing order, with
infinity where the next binade would begin. `model::rounds_to` says which encoding
a mode selects for an exact magnitude, and no two encodings satisfy it. So
`ieee::is_sum`, `ieee::is_quotient` and the others determine the result, bit for
bit.
