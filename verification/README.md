# zenoh-gateway-poc

A gateway between two zenoh meshes. Producers publish to one of 10000 shards; a gateway
subscribes to the shards that it owns by rendezvous hashing and in which one of its local
consumers has a topic, and forwards the messages of those topics.

- `src/` is the library, verified with Verus: shard hashing and ownership, cluster membership,
  the interest index, the subscription plan, the forwarding filter, message attachments, latency
  statistics, JSON5 to JSON, configuration, and the command lines.
- `app/` is the program around it: zenoh sessions, files, and the simulators.
- `tests/` runs the library.
