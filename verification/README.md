# photo_core

The rules of a photo manager, verified with Verus: how a library's folders are read, what a photo
says about itself and what it should say, what a change set would do, which place a folder means,
who is in a picture, and how all of that is kept as text and read back.

- `src/` is the library. Every public function states what it returns, and Verus proves it.
  - `text`, `order`, `number`, `json`: characters, sorted lists, numbers by their bits, JSON values.
  - `layout`, `browse`, `tags`, `filter`, `scope`: the folders, the tag tree, its rules, and the
    sets of photos that can be named.
  - `clock`, `dates`: one date format, local times, shifts and zone offsets.
  - `identity`, `metadata`, `details`, `write`: what a photo is, what it says, and a change to it.
  - `scan`, `cache`, `survey`, `journal`, `history`, `changeset`, `settings`: what is read from
    the library, what is counted, what is to be written and what was.
  - `thumbs`: small pictures, the right way up.
  - `tools`: questions, answers, and several tools as one pass.
  - `geo`: places by name and by position, from the GeoNames dumps.
  - `immich`: persons and faces, read page by page.
  - `paths`, `fixtures`: where everything lies, and a stand-in library.
- `tests/` runs it on concrete values.
- `app/` is ordinary Rust around it: SQLite, files, processes, the network, and what is computed
  in floating point.

What the library takes from other crates stands behind functions marked
`#[verifier::external_body]`, each with the claim it makes in its comment.
