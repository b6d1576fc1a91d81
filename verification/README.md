# browser_handler

A browser chooser for desktop systems: it registers itself as the default
handler of `http` and `https` links, lets the user pick a browser (and a
browser profile) for each link, and remembers per-site rules and a favorite
browser.

The library under `src/` holds the decisions of the program, each with a
contract proved by Verus:

- `text` — character-sequence helpers (`lines`, `split`, `trim`, ...) with
  their specifications.
- `mimeapps` — editing of XDG `mimeapps.list` files (registering and
  removing the handler), the desktop entry, Flatpak detection, `Exec=`
  resolution and the messages of the desktop integration.
- `profiles` — Chromium `Local State` and Firefox `profiles.ini` profile
  listings, profile-encoded browser specs, and profile launch arguments.
- `names`, `browsers`, `chooser` — browser names, the discovered browser
  list, and the labels and outcome of the chooser dialog.
- `rules`, `favorite` — per-site rules and the favorite browser.
- `json`, `order` — the JSON model and the orderings the listings use.
- `platform` — the operations a platform integration offers.

`app/` holds what the verifier does not see: file and command I/O, the
Slint dialog, the serde records of the rule and favorite files, and the
Linux integration that drives the verified functions.
