# rspace_registry

An OCI Distribution v1.1 registry head whose logic is verified with Verus.

`src/` is the library: digests and manifests, stores and what composes them (partitions,
routing by repository, quotas), garbage collection, replication, migration between
volumes, the routing and answering of requests, and authentication by htpasswd or by a
Kubernetes cluster. The contracts of its functions state what they do.

A store is spoken of through the record of the calls made on it and their answers. What a
function does is stated over the calls that it adds, whatever the answers are; nothing is
assumed of a backend. A store that is composed of others (`multi`, `repo_router`, `quota`)
keeps, beside its record, the trail of what they went through (`trail`), so that what a
request or a process did to each of them can be told from the calls.

`model` says what a store that works answers, and the proof functions under `laws` say what
then holds: that what was pushed is pulled, that a collection deletes exactly what is not
in use, on every volume, that a quota is kept and its report is right, that a replica reads
like the primary, that a migration misses no read at any time and that what is read stays
the same. `laws/disk.rs` shows that a store in a directory tree on a file system that works
is a store that works.

Whatever stands at the other end of a trait (`volume::RawStorage`, `files::Files`, and the
API server in `k8s`) may answer as it likes; `Volume` and the two `Recorded` put a record to
it.

Calls into other crates (hashing, base64, bcrypt, UUIDs, JSON) stand in `outside.rs`, each
with a contract that says what is relied upon.

`app/` is the program around the library: flags, files, HTTP and TLS, the API server of
the cluster, JSON on the wire.

```
rspace-registry --listen 0.0.0.0:5000 --data /var/lib/rspace_registry
```
