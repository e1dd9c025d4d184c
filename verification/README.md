# histmine

histmine mines a shell history for commands that are retyped with small
variations and turns each family into a parameterized shell function, by
anti-unification: constant parts stay, varying parts become `$argv[N]` slots,
slots that always vary together share one parameter, and double-quoted
sub-commands are generalized inside.

The library under `src/` is written in Verus and verified; `app/` is the
command-line program around it (environment, files, printing).

## Modules

- `text`, `tokenize`: text helpers and the shell tokenizer.
- `words`, `names`: credential detection, argument quoting, function names.
- `template`, `generalize`: the model of a template and the generalizer.
- `mine`: grouping the history by command word, and mining clusters into ranked
  functions. Splitting a group into clusters by similarity is done in `app/`,
  since the similarity score is a floating-point number.
- `suggest`, `matching`, `cli`: shells, rendering, hooks, the manifest, matching a
  command against mined templates, and option parsing.
- `relex`, `recognize`: how the tokenizer reads back joined tokens, and the proof
  that a mined template recognizes the commands it was made from.

## Proved properties

Besides the contract of each function, the library proves, among others:
mined functions are ranked by saved keystrokes, cover at least the requested
number of entries, take one to five arguments and never look like credentials;
raising the minimum only removes functions; when no constant of a mined
template reads as a slot, each mined function's example call is what matching
its example command against its body gives back; a word made into an identifier
is a lowercase identifier and stays put when made again, and function names are
lowercase identifiers; the hook marker occurs once after an install;
correlated slots share one parameter; identical repeats yield nothing; a quoted
argument reads back as one word; the manifest reads back what it records; the
hook is installed once; a command is matched to the template with the most
constant positions, counting those inside double-quoted words; and a mined
template, read back from its body, matches each command it was made from with
that command's values as arguments.
