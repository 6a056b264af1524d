# GEC Uplink

A desktop client that keeps World of Warcraft addons up to date and uploads what they
record. `src/` is the logic, verified with Verus; `app/` is the program around it: disk,
network, and the windows on tauri.

| Part | Modules |
| --- | --- |
| Saved files | `lua`, `luadata`, `svread`, `svparse`, `ieee`, `summary` |
| Data sync | `sync`, `upload`, `sweep`, `home` |
| Addons | `catalog`, `version`, `updates`, `delivery`, `installs`, `net` |
| Settings | `config`, `commands`, `auth`, `schedule`, `selfupdate`, `launch` |
| Groundwork | `text`, `number`, `seqs`, `textmap`, `json`, `paths` |

The library touches neither disk nor network. Where the program has to, a function of the
library says what to do next (`AccountSync::next_chunk`, `Unzip::next_action`,
`sweep::next_step`, `selfupdate::begin_check`), and another takes in what came of it.

Functions named `law_` state what holds of the library as a whole, for example that a
cursor never goes back, that the device token goes to the server only, and that nothing is
unpacked outside the addon folder.

Results of `mlua`, `url`, `flate2`, `zip`, `chrono` and `uuid` enter through a few trusted
functions. Each says in its comment what it takes for granted.
