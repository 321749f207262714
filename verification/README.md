# hirust_router

Declarative route registration for actix-web services, with its logic
verified by Verus.

Handlers carry a declaration attribute (`GetMapping`, `PostMapping`, ...)
with a path, a unique tag, middleware, an authentication flag and a group.
At start-up the declarations are checked (supported method, unique tag,
registered group, no `(method, pattern)` declared twice), ordered by
`(module path, line)`, joined with the global and group prefixes, and
mounted; a segment trie then answers lookups of concrete URLs, literal
segments before parameter segments.

## Layout

- `src/` — the verified library.
  - `trie.rs`: path splitting, pattern segments (`:id` and `{id}` alike),
    the method-rooted segment trie with insertion, pattern lookup and URL
    matching, and the laws on which pattern a URL selects.
  - `group.rs`: nested groups, their middleware chains and inherited
    authentication flags, and the frozen snapshot.
  - `registry.rs`: the registration plan and its faults, the route table
    with its lookup index, route lookup, mounting groups and the printed
    table.
  - `order.rs`: the listing order of declarations.
  - `route.rs`, `md5.rs`: route records, unique keys and their MD5.
  - `mapping.rs`, `handler.rs`: the declaration attribute's argument
    grammar over tokens, path normalisation, and the decisions taken for
    an annotated handler.
  - `middleware.rs`: the order of the runtime middleware and the default
    authentication check.
  - `text.rs`: string helpers and the calls into `str`'s case mappings.
- `tests/` — tests of the library on concrete values.
- `app/` — the runtime around the library: process-wide registries,
  actix-web mounting, async middleware, and the code generation of the
  attributes with `syn` and `quote`.
