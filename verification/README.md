# yoctofy

yoctofy makes BitBake recipe fragments for a Rust binary crate. It asks `cargo metadata` for the
dependency graph, reads `Cargo.lock`, and writes three files for a package `whatever`:

* `whatever-crates-runtime.inc` fetches what the package needs when it runs,
* `whatever-crates-other.inc` fetches whatever else the lock file names,
* `whatever-licenses.json` tells the license of each crate that is needed at run time.

```
yoctofy --package whatever --manifest-path /path/to/whatever/Cargo.toml
```

The files are written to the current directory, for the default features and the target triple of
the host. `--out-dir`, `--features`, `--no-default-features` and `--target` change that:

```
yoctofy --package whatever --manifest-path /path/to/whatever/Cargo.toml \
  --out-dir /a/specific/output/directory/ --no-default-features \
  --features feature-a,feature-b --target aarch64-unknown-linux-gnu
```

## Layout

`src/` is the library. It is written in Verus: each function states what it returns, and the
verifier proves it.

| module | what it holds |
| --- | --- |
| `model` | packages, the dependency graph, the lock file, and what is fetched |
| `command` | the arguments for Cargo, the host's target triple, and the search for the lock file |
| `lock` | reading the lock file (with `cargo_lock`), and its checksums |
| `root` | which package the recipe is for |
| `closure` | what a package needs when it runs |
| `collect` | crates, repositories and licenses of a set of packages |
| `plan` | all of it for one package, split into run time and the rest |
| `recipe` | the text of a fragment |
| `license` | the licenses as JSON (with `serde_json`) |
| `output` | the two fragments, and the names of the files |
| `git` | sources `git+<url>?<query>#<rev>`, and places in a checkout |
| `order`, `sorted`, `text` | ordered maps and sets, stable sorting, and text |
| `error` | what can go wrong |

Two functions are trusted, not proved: `lock::read_packages` and `license::write_json`, which call
the two crates named above. Their doc comments say what is believed of those crates.

`app/` is the program around the library: arguments, processes and files.
