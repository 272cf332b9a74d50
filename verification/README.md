# cjson

A JSON library (version 1.7.19) written in Verus: every
function in `src/` carries a contract that Verus proves.

## Layout

| Path | What it holds |
|------|---------------|
| `src/model.rs` | the node type `CJson`, its mathematical view `JsonNode`, type tags |
| `src/text.rs` | C-string helpers: truncation at NUL, `strcmp` with and without case folding |
| `src/number.rs` | IEEE-754 bit-pattern helpers (special values, integer saturation) |
| `src/parse.rs` | the parser, specified by `spec_parse_document` |
| `src/float.rs` | exact `%.<p>g` formatting of doubles with a big-integer digit generator |
| `src/print.rs` | the printer (formatted, compact, buffered, preallocated), specified by `print_spec` |
| `src/manip.rs` | constructors, lookups, add / detach / insert / replace, duplicate, compare, minify |
| `src/utils.rs` | JSON Pointer, JSON Patch, Merge Patch, sorting members |
| `src/roundtrip.rs` | the law that printed text parses back |
| `src/mergelaw.rs` | the law that merging a generated merge patch restores the target |
| `src/patchlaw.rs` | the law that applying generated JSON patches restores the target |
| `src/fixtures.rs` | deterministic document generators used by benchmarks and tests |
| `app/` | what needs floating point or outside crates: `strtod`, the epsilon comparison, a serde_json cross-check, benchmarks |

Floating point stays outside the verified part: decoding number text into a
double and the epsilon comparison of two doubles are passed into the library
as functions, and contracts are stated relative to them.

## Laws proved

* printing then parsing gives back the tree as its text records it
  (`roundtrip::law_print_then_parse`): numbers decoded again from their
  printed text, flags cleared, NaN and the infinities read as `null`; and
  indented and compact text read back the same
  (`roundtrip::law_formatting_reads_the_same`); the tree read back compares
  equal to the printed one, both ways, when its object keys differ and each
  of its numbers reads back as one the comparison accepts
  (`roundtrip::law_reread_compares_equal`);
* one string printed by `print_string_ptr` reads back with `parse_string`
  as its text up to the first NUL (`roundtrip::law_printed_string_reads_back`);
* comparison does not depend on the order of its arguments when the
  comparison of numbers does not (`manip::law_compare_symmetric`);
* a duplicate compares equal to its original
  (`manip::law_duplicate_compares_equal`), and duplicating twice changes
  nothing (`manip::law_duplicate_twice`);
* reading after appending, replacing, inserting and adding by key
  (`manip::law_append_then_read`, `law_replace_then_read`,
  `law_insert_then_read`, `law_add_then_lookup`);
* sorting orders members by key and keeps them all
  (`utils::law_sort_orders_keys`), leaves a list already in order
  unchanged, and, for keys that all differ, sorting again changes nothing
  (`utils::law_sort_idempotent`);
* the members of every object `fixtures::gen_doc` writes have different keys
  (`fixtures::law_generated_keys_distinct`);
* rounding to `p` significant digits gives the nearest `p`-digit decimal,
  ties to even (`float::law_round_sig_nearest`);
* a pointer found for a node leads back to it
  (`utils::law_found_pointer_leads_back`);
* merging the generated merge patch restores a non-object target
  (`utils::law_merge_restores_non_object`), and any target whose object keys
  differ up to ASCII case, whose `null` members are ones the source already
  has, and whose keys, with the source's, are ordered alike by exact and by
  case-folded comparison (`mergelaw::law_merge_restores_target`; both
  documents taken as generating the patch leaves them, with the members of
  the objects it compares sorted);
* applying the generated JSON patches (keys matched exactly) to the source,
  as it stood before generating them, succeeds and gives the target, for
  trees whose keys hold no NUL and come back unchanged from the in-place
  decoding of their escaped pointer tokens (keys without `/` or `~` do, and
  so do keys whose `~`s all come at their end; no key holding `/` does),
  differ up to ASCII case in the source and differ in the target
  (`patchlaw::law_generated_patches_apply`), and so does applying them to
  the source as generating them leaves it, the result then comparing equal
  to the target as generating them leaves it
  (`patchlaw::law_generated_patches_apply_in_place`).

## Behaviour notes

* Objects compare by key: `{"a":1,"b":2}` and `{"b":2,"a":1}` compare equal,
  which is what lets a patched or merged document compare equal to the
  expected one whatever order its members were added in.
* A `\u` escape of a lone UTF-16 surrogate is refused, as is a high
  surrogate not followed by a low one; a surrogate pair reads as one
  four-byte UTF-8 sequence.
