# apollo_federation

Building blocks of Apollo Federation, written in Verus: each function states what it does in
`requires`/`ensures` over a mathematical model of its data, and Verus proves it.

The library works on a plain-value model of GraphQL schemas and documents (`src/schema.rs`,
`src/ast.rs`, `src/executable.rs`). Reading GraphQL text is left to apollo-compiler, in `app/`,
which converts what it parses into that model.

## Layout

- `src/schema.rs`, `src/ast.rs`, `src/executable.rs`, `src/argument.rs`: the model of schemas,
  values, directive applications and executable documents, and how arguments are read.
- `src/link.rs`, `src/spec_definition.rs`, `src/federation_spec.rs`, `src/inaccessible.rs`:
  `@link` specifications, their versions and imports, and the definitions that the federation,
  link and inaccessible specifications bring.
- `src/subgraph.rs`: subgraphs, and their expansion with the definitions of the specifications
  they link.
- `src/federation_schema.rs`, `src/position.rs`, `src/insertion.rs`: schemas with the index of
  what references each type and directive, the positions of schema elements, and the insertion
  and removal of elements that keep that index exact.
- `src/insertion_laws.rs`: what inserting an element and then removing it gives back.
- `src/removal_laws.rs`, `src/inaccessible_laws.rs`: what taking core feature elements and
  inaccessible elements out of a schema leaves.
- `src/core_features.rs`, `src/inaccessible_elements.rs`, `src/api_schema.rs`: the API schema of
  a supergraph, without core feature elements and inaccessible elements.
- `src/federation_operations.rs`: subgraphs, and the `_entities` and `_service` operations
  that each offers.
- `src/join_arguments.rs`: reading the arguments of the `@join__type`, `@join__field` and
  `@join__implements` applications of a supergraph.
- `src/subgraph_extraction.rs`: the extraction of subgraphs from a supergraph: the container
  of subgraphs (no two of the same name), the empty types that each subgraph gets from the
  `@join__type` applications, the implemented interfaces and fields of object and interface
  types that follow their `@join__implements` and `@join__field` applications, and the
  decoding of the type references that join directives write as strings.
- `src/operation.rs`, `src/conditions.rs`: normalized operations, and the conditions under which
  a selection set is fetched.
- `src/query_planner.rs`, `src/satisfiability.rs`, `src/output.rs`, `src/print_order.rs`:
  planner configuration, satisfiability messages, graph labels and printing order.
- `app/`: entry points that parse GraphQL text with apollo-compiler and apollo-at-link and hand
  the library plain values.
- `tests/`: tests of the library on concrete values.

Verify with Verus on `src/lib.rs`; the tests are ordinary Rust tests.
