# hayday_items

Verified parsing and pricing of Hay Day item data.

- `src/` is the library, verified with Verus:
  - `extract` reads one field (title, level, price, duration, source) out of
    one line of the wiki's item table, through the `regex` crate (`matching`
    holds the trusted calls) and a verified number parser (`numeric`);
  - `wiki` turns the lines of the table into item records;
  - `added_price` keys items by name and adds up the prices of each item's
    ingredients;
  - `columns` reads two whitespace-separated columns of whole numbers.
- `app/` is the command-line program around it: file reading, JSON through
  serde, and the floating-point profit per hour.
- `tests/` runs the library on concrete inputs.
