# datom_codec

Positional typed data written as text, with every step of the descent from
text to value, and of the ascent back, proved against a mathematical model.

Four layers stand between a text and a value:

| Layer | Type | Down | Up |
|---|---|---|---|
| Text | `&str`, `Potential<T>` | `delineate` | `writer` |
| Protoform | `Protoform`, `Delineation` | `conceive` | `protosize` |
| Datom | `Datom` | `Datomic::incorporate` | `Datomic::conceive` |
| Value | any `T: Datomic` | | |

## Layout

- `glyph`, `words`, `form`: glyph classes, integer and boolean words, protoforms.
- `reader`, `rereading`, `delineation`: the structural reader and its model.
- `writer`: canonical text of a protoform.
- `anatomy`, `conception`: the datom concept, words, faults, and protoform to datom.
- `copying`: copying a datom with a work list, so that no nesting exhausts the stack
  (equality in `anatomy` works the same way).
- `protosization`: datom to protoform, and the law that a datom's canonical
  text reads back as the datom.
- `kinds`, `scalars`, `containers`, `worded`, `faults`, `keyed`, `records`:
  the `Datomic` kind and its impls, each with the law that a value's datom
  reads back as the value.
- `edge`: `read_datom`, `actualize`, `textualize`, `Potential`, and the
  round-trip laws at the text edge; `textualize_snug` writes a value with no
  space just inside its outer enclosure, as records are written
  (`{“a” “b”}`), and its text reads back the same way.
- `placement`: datoms whose every node carries its path.
- `composition`: the path-carrying layer: `form` turns a protoform into such
  datoms, `compose_bare_string` rejoins bare chains into strings, `Budget`
  bounds how much and how deep composition goes, `Compositional` composes
  values, `compose_text` takes a text through all of it, and errors name their
  layer, path and kind.
- `naming`: paths and form names.

Maps are written between guillemets, one entry for each key, the key heading
its value in brackets: `« mode.[ fast ] source.[ local ] »` (the reader takes
`«mode.[fast] source.[local]»` alike). Decimals are held
as their canonical words, so `1.50` reads as the decimal `1.5`.

`scalars` holds decimals as their words; `app/` turns decimals into floating-point
numbers and back, the one part that needs floating point.

The reader refuses text nesting deeper than 1024 levels; the round-trip laws hold
for every value whose text nests within that depth, which `lemma_string_round_trip`
and `lemma_fault_round_trip` show for strings and faults of ordinary length.
