# keypad_calc

A pocket calculator for an RP2040 board with two keypads, a buzzer and an
SSD1306 display. The library (`src/`) holds the logic, proved with Verus;
`app/` is the firmware around it.

- `compile`: reads an expression (numbers, `+ - * / ^`, `!`, parentheses,
  `sqrt log sin cos tan cot` or their one-letter forms, implicit products)
  into a program of stack operations plus a verdict. Its specification is
  the machine `compiled`; a law shows every program runs on the 32-value
  stack and leaves one value when accepted.
- `entry`: what each key does to the 64-byte entry line (`key_effect`),
  with laws on capacity, ASCII content, starting over after a result and
  undoing a digit.
- `numeric`: the integer checks of `!` and `^`, and the trimming of
  formatted numbers.
- `display`: the layout of the line on the four display lines.
- `keypad`: the key maps and the short/long press decision.
- `bounded`: the `heapless` buffers the library uses, with their contracts.

Floating-point evaluation (`eval`), number formatting, GPIO, timers and the
display driver live in `app/`.
