# kirialsd

A daemon that sets the backlight of a Linux machine by its ambient light sensor. It learns from manual
changes of the brightness, moves the backlight smoothly, and never switches it off.

The decisions are a library, verified with Verus; the daemon round it does the input and output.

## Layout

- `src/` is the library.
  - `double` is binary floating point on bit patterns, with its arithmetic stated over integers.
  - `curve` and `lesson` hold the brightness curve and what a manual change teaches it.
  - `filter`, `engine`, `als` and `backlight` hold the median filter, the state of the daemon, the
    protocol with the sensor, and the scale of the backlight.
  - `config`, `state` and `text` hold the configuration, the file of the calibrated curve, and texts.
  - `*_laws`, `monotone` and `spacing` state what holds of them together: that more light is never
    darker, that a lesson keeps the order of the levels, that a transition ends at its target, and more.
  - `measure`, `algebra`, `limits`, `tangents`, `cubic` and `between` bound the rounding errors.
- `app/` is the daemon: signals, files, sysfs and D-Bus. Logarithms, exponentials, powers and decimals
  are computed there, with native floating point.
- `tests/` runs the library on values, and holds its arithmetic against the native one.

## Numbers

A `Double` is the bit pattern of an `f64`. `Double::from_bits(x.to_bits())` and
`f64::from_bits(d.to_bits())` convert without loss.
