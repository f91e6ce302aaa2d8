# joplin-lite

Reads a Joplin sync directory: the `.md` items (notes and folders), the
master keys listed in `info.json`, and the notebook hierarchy they form.

- `src/` is the verified library (Verus): the item decoders
  (`decoder`, `decoder::md`), text handling (`text`), the encryption
  format (`encryption`), master keys, notes, notebooks and the directory
  model (`database`), with their contracts and the proofs of the
  properties in `database::hierarchy`, `decoder::md` and `decoder`.
- `app/` is the command-line program around it: directory and file
  reading, JSON decoding with serde, passwords from the console or the
  environment, and printing.
- `tests/` exercises the library on concrete inputs.
