# die_oxide

A command-line dice roller. A roll is written `[count]d[die]+/-[modifiers]`,
for example `3d8+2-1`; a missing count means one die and a missing die means `d6`.

- `src/` is the verified library: parsing roll strings (`cli::roll_string`),
  dice and trays of rolled dice (`dice`), roll commands and their results (`roll`),
  the text each of them is displayed as (`text` holds the integer parsing and
  rendering underneath), and `cli::Cli::run`, which rolls the commands and
  returns what is printed.
- `app/` holds `main`: argument parsing with clap and printing.
- `tests/` runs the library on concrete inputs.
