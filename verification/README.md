# excalibur

The ssh module of a terminal tool, as a verified library: it reads
`~/.ssh/config` into host blocks, edits one block at a time without touching the
rest of the file, keeps port-forward rules in groups, recognises the tunnels that
serve them among the running processes, and says how each tunnel is doing.

- `src/` is the library. Everything in it is verified with Verus: parsing and
  writing the config (`sshconfig`, `form`), the rules and the processes behind
  them (`tunnels`, `rules`, `supervisor`, `probe`, `discover`, `rhythm`), what each key
  does (`state`, `ssh`, `proctrace`) and what the screens say (`ui`, `paint`).
  What holds of it as a whole is proved in the `law_` functions, most of them in
  `form_laws`, `readback`, `saved`, `rules` and `state_laws`.
- `app/` is the program around it: terminal, files, processes and sockets.
- `tests/` runs the library on concrete values.
