# focus_internals

The core of `focus`, a tool that keeps sparse Git checkouts focused on the
projects and build targets a developer works on, written in Verus: each
function states its behaviour in `requires`/`ensures` and is proved to meet
it.

- `src/` — the verified library:
  - `target`, `labelset`: targets and Bazel labels, their parsing and text
    forms, and the order of labels with ordered sets of them.
  - `path`, `text`, `stringset`, `keyed`, `valueset`: paths, text and the
    small collections the rest is built on.
  - `outlining`: sparse-checkout patterns, the sets of them and the profile
    they are written as.
  - `selection`, `resolution`, `catalog`: projects, the user's selection and
    the operations on it, resolving a project's targets through the projects
    it includes, and the catalog of a repository's project files.
  - `listing`: the printed listings of an index of projects and of a
    selection.
  - `layers`, `adhoc`: the layered model of project sets and the ad-hoc
    target stack.
  - `resolver`, `bazel`: the paths a resolution gives, Bazel queries and
    the dependency keys of the index.
  - `cachekeys`, `digest`, `content_hash`, `materialize`: keys of the
    project cache, profile and build-graph digests, what the content hash
    of a dependency is made of, and the lookups that decide which paths to
    materialize.
  - `ttl_cache`, `assoc`: a cache whose entries expire, and the
    association lists it is modelled by.
  - `sync`, `changes`, `clone`: the decisions of a sync (including when to
    use the project cache, the steps of an incremental sync and whether a
    sparse profile needs applying), reading Git's
    status output into the changes that touch the build graph, and the
    arguments and remotes of a sparse clone.
  - `maintenance`, `config`: launchd scheduling and per-repository
    configuration.
- `tests/` — tests of the library on concrete values.
- `app/` — file and process input/output around the library, and the JSON
  and property-list forms of its models.
