# oc_rsync

A verified library for two parts of an rsync implementation:

- `filelist`: the file-list wire format. `Encoder` and `Decoder` turn entries
  (path, uid, gid, hard-link group, extended attributes, ACLs) into bytes and
  back; the path is sent as a shared prefix and a suffix, ids as indices into
  tables both sides keep. `wire.rs` states the format as spec functions and
  proves that decoding what was encoded gives the entry back.
- `filters`: rsync filter rules. Rule text is parsed (`scan`, `pattern`,
  `braces`, `glob`, `lists`, `merges`, `mergefile`) into rules whose patterns
  are compiled by the `globset` crate, and `matcher` decides whether a path is
  included, stating the first-match rule and its consequences as lemmas.

`src/` is checked by Verus; `tests/` exercises it; `app/` holds what reads
files, standard input and the environment, logs, and serves the parser's
requests to read further rule files.
