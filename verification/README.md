# router_prefilter

A prefilter for routers: given the matchers of many routes, it quickly
narrows down which routes may match a value. Routes whose matchers require a
literal prefix are kept with it, and a query checks each of them against
the value; every other route is always a possible match. Queries yield the
possible route keys in ascending order.

Layout:

- `src/lib.rs`: `RouterPrefilter`, `PrefilterBuilder`, `MatchPrefilter` and
  the query iterator `RouterPrefilterIter`, with their contracts.
- `src/matchers.rs`: the `Matcher` trait and the `MatcherVisitor` that
  extracts a required prefix from a matcher.
- `src/inner_prefilter.rs`: the routes that carry prefixes, each checked against its own prefixes.
- `src/order.rs`: the key-order laws and the merge of two ascending lists.
- `src/byte_string.rs`: the `bstr::BString` items the library relies on.
- `src/laws.rs`: properties that relate the operations to one another.
- `app/lib.rs`: a standard `Iterator` over a query's keys.

The library is verified with Verus (`src/`); `tests/` exercises it.
