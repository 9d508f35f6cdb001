# geodesic_wallpaper

Procedural wallpaper generation — cellular automata, L-systems, dithering,
mosaics, marching squares, wave function collapse, expression-defined
surfaces, PNG export, time-lapse capture and the gallery/preview state
machines — with the integer and text logic verified in Verus.

- `src/` — the verified library. Each public function states in its
  `ensures` what it returns or changes, over spec functions and views;
  the public `proof fn`s state laws that span several calls.
- `tests/` — tests of the library on concrete values.
- `app/` — the floating-point geometry and colour, file and process I/O,
  the wall clock and configuration decoding (serde/toml) around the library.
