# unicode_le

A verified library for finding the Unicode characters in a document that
are not what they look like: the Trojan Source bidirectional controls,
invisibles, homoglyphs, words that mix scripts, text that is not in NFC,
spaces that are not the space, and codepoints with no assigned meaning.

The report carries `U+XXXX` codepoints and English, never the characters
themselves; paths and key paths, the two strings it does not author, are
escaped as JSON's own `\uXXXX` so nothing printed can render as anything.

## Layout

- `src/` is the library, verified with Verus. Every public function states
  its result over spec functions in its `ensures`; the laws that relate
  several calls are public proof functions:
  - `detect::laws`: findings come back in document order, a kind filter
    narrows the report and does nothing else, a script-context refusal
    withholds only the two script checks, the format decides how a finding
    is addressed and never whether it exists, and every kind's name and
    short word parse back to it;
  - `detect::ascii`: every field the library writes into a finding or a
    refusal is ASCII wherever the names of the document's scripts are,
    which `examine` and `scan::scan_content` establish and state of what
    they return;
  - `escape`: escaped text is ASCII, ASCII is left alone, a JSON document
    reads to the same structure and string values escaped as unescaped,
    the contents of a JSON string decode to the same characters, and text
    with no backslash of its own decodes back to itself;
  - the key-path readers (`detect::json`, `yaml`, `toml`, `ini`, `dotenv`,
    `csv`): the spans each produces are ordered and do not overlap;
  - `detect::format`: every offered format, named as itself, resolves to
    itself, and the alias table and the offered list agree.
- `src/unicode.rs` holds the trusted wrappers over `unicode-script`,
  `unicode-security`, `unicode-normalization` and std's character
  predicates. Their results are named rather than restated: the tables
  move with every Unicode release.
- `app/` is the program around it: arguments, the directory walk
  (`ignore`), reading files and stdin, the JSON report (`serde_json`) and
  the tool server over stdio.
- `tests/` runs the library on concrete documents.
