# pumpkin

Verified parts of a Minecraft server's command handling and of one of its
network packets, written in Verus.

- `string_reader`: a cursor over a command line; reading unquoted words.
- `color`, `identifier`, `dimension`, `message`: the color, dimension and
  message argument types. The message argument scans for `@` and asks a
  selector parser given by the caller for the entity selector that starts
  there (the scan's steps are public too); a parsed message is laid out
  again around what its selectors resolve to.
- `experience`, `deop`: the decisions of the `experience` and `deop`
  commands, given the players and the operator list as plain values, and
  the paths, arguments and permissions of the two commands.
- `fetchprofile`: how the `fetchprofile` command is registered, and its
  executors.
- `command_info`: the kinds of argument and the permission a command
  registers.
- `codec`, `chat_command_signed`: reading `VarInt`s, strings and other
  primitives from bytes, and the signed chat command packet built from them;
  the bytes each value is written as, and the proof that reading gives back
  what was written.
- `argument_type`: what the client is told about each argument type.

`app/` adapts a selector parser supplied by the server, which works on a
reader, to the message argument. `tests/` runs the library on concrete inputs.
