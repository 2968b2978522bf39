# jvot3

Syllabification and word splitting for Lojban text, verified with Verus.

The library splits Lojban text into *units*: runs of cmavo followed by an
optional pre-brivla, or cmevla. On the way it checks the phonotactics of every
syllable and resolves where the stress falls.

## Layout

- `src/phonology.rs`, `src/data.rs`: letter classes, consonant clusters,
  diphthongs, hyphens and stress marks.
- `src/syllables.rs`: onsets, nuclei, codas and syllables, with what their
  letters spell.
- `src/prewords.rs`: glide marking, syllabification of words in standard
  spelling, and recognizing gismu and cmavo.
- `src/settings.rs`: the settings and their one-letter flags.
- `src/units.rs` and `src/units/`: the right-to-left walk over a text
  (`unitifier`), consonant runs, cmavo boundaries, stress resolution, merging
  of units, cmevla checks, and the letters that units spell.
- `src/jvofli.rs`: the error type.
- `src/text.rs`: string helpers.
- `app/`: the interactive prompt (`:units <text>`).
- `tests/`: tests of the library.

Every function in `src/` carries a contract that Verus proves. The main
properties:

- `unitify` gives exactly what the rule `text_units` gives: its units, or
  the error it names for the text; they hold valid syllables, the first without an
  apostrophe onset, their pre-brivla starts at one of their syllables, holds
  at least two and a stressed one, and they spell the letters of the text,
  but for pauses, glide marks and stress marks.
- stress resolution (`stress_split`) keeps every syllable as it was but for
  at most one per unit that gains stress.
- `syllabify` succeeds exactly where `syllabify_succeeds` holds and returns
  `syllables_of` the text: the annotated text cut after each nucleus (a cut
  that is unique), each piece split with the longest onset that may start a
  syllable; the syllables spell the annotated text and are each valid.
- annotating the glides of a cmevla keeps its length and its spelling.
- `mark_glides` respells exactly the onglides and offglides.
- the settings flags toggle, reset and combine as documented.
