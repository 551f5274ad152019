# chaincord

The verified core of a small decentralized chat: communities signed by their
owner, invites, sealed chat messages, voice rooms and presence, an MQTT relay
codec, Reed-Solomon archives of the chat history spread over the members, and
the decisions a node makes about whom to dial and what to keep.

Layout:

- `src/` — the library, checked by Verus. Each public function states its
  result in `ensures` (of a fresh random identity, only its type says
  anything); laws that span several functions are public proof functions
  named `law_*`.
  - `text`, `encoding`, `keyed` — strings, hex, and small string-keyed maps.
  - `crypto` — identities, communities, invites, sealed chat.
  - `relay` — the MQTT packets the relay speaks and the relay settings.
  - `erasure` — archive shards, their holders and repair.
  - `peer` — room names, the voice roster, presence.
  - `dial` — URL parsing and which peers to dial or invite.
  - `node` — what a node decides when it joins, leaves, sends or repairs.
  - `frames` — what a node does with each frame a peer sends: the state it
    changes, the links it passes the frame on to (never back to its
    origin, never from a relay to a relay), and the acknowledgements,
    history requests, dials and updates it asks for (`on_frame`).
  - `rtc` — call topology, audio mixing, and video frames put together
    from RTP packets.
  - `ui` — what the interface is shown.
  - `log` — call log names and lines.
- `tests/` — tests of the library on concrete values.
- `app/` — the parts around the library that do I/O: the SQLite store, log
  files, the relay connection, and the JSON forms of the library's types,
  including the compaction of a frame's JSON before it is relayed, and the
  reading of a peer's JSON frame into the library's `Frame`
  (`frames::parse_frame`).

Not here: the desktop runtime around the library — the Tauri application
state and commands, the socket loops that carry frames to and from peers,
the WebRTC call hub and its media (camera, screen, PulseAudio, H.264) —
stands in neither `src/` nor `app/`, since those crates are not available
to this build. The decisions those parts make are functions of `src/` (`node`,
`peer`, `rtc`, `ui`), each named after what it decides: which community a
chat message goes to (`node::chat_target`), what a frame from a peer does
(`frames::on_frame`, then `frames::on_chat_plain` for a chat message once
its body is read), what the interface shows (`ui::ui_state`), which frames
and offers a call takes (`rtc`).
