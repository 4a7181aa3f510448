# registry_proxy

The rules of a proxy of image registries, verified with Verus.

- `src/docker.rs`: which paths the proxy takes, where they lead, and how clients
  are led to the proxy's own token endpoint.
- `src/engine.rs`: what is asked of an upstream server, what passes of its
  answer, and where a redirect leads.
- `src/exchange.rs`: one exchange with an upstream server, state by state.
- `src/access.rs`, `src/access_log.rs`: access lists and the access log.
- `src/config.rs`, `src/text.rs`, `src/number.rs`: settings, texts and numbers.
- `src/headers.rs`, `src/pattern.rs`: what is relied on of the `http` and `regex`
  crates.
- `src/laws.rs`: what holds of the rules together.
- `app/`: the service around the rules, which sends, receives and logs.
