# protocol

The host that connects Sacred Gold to the mods running in Java: it waits for the
game, injects the Coderpack agent, starts the mod JVM, and carries messages
between the two.

`src/` is the verified library. Verus proves the contract of every function in it
but the eleven in `json` that call `serde_json`: these contracts, and those given to
`String::push` in `text` and `char::is_alphanumeric` in `lexeme`, are trusted. The
laws of the protocol are proof functions of their own.

| Module | What it holds |
|---|---|
| `codec`, `codec_laws` | Frames: one line of text each, and what is read back of them |
| `lexeme`, `js`, `js_laws`, `site_laws` | The agent's JavaScript: comments, layout, hook sites |
| `agent`, `agent_laws`, `hooks` | The script that is injected, and the manifest of its hooks |
| `router`, `router_laws`, `flatten`, `explain` | From the agent to Coderpack and back |
| `pending` | The questions that are open, and which are overdue |
| `outbox`, `outbox_laws` | The frames that wait to be written |
| `post`, `pump` | The messages that are posted to the agent |
| `config`, `places`, `game`, `jvm`, `pipe` | The command line, default paths, the game's process, the JVM's command, the pipes |
| `json` | What is trusted of `serde_json` |
| `text`, `number` | Text and numbers |

`app/` is the program around it: it reads, writes, waits and prints. What it
decides itself is what it finds on the machine: it minifies the agent unless
`--agent` names a folder, talks over stdin and stdout where no pipe can be had,
and ends once the JVM is dead. The agent is read from a folder when the host
starts.

`tests/` runs the library on concrete values.
