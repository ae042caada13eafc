# echo

The pure rules behind a CS2 overlay, written in Verus with their contracts
proved:

- `game`, `game::entities` — which side a player is on, whether a pawn
  reading is believable, and how an entity index or handle becomes an address.
- `overlay`, `overlay::dirty` — which parts of the drawing surface a frame
  touched (with proofs that no mark is ever lost and every region stays on the
  surface), how one frame hands its marks to the next, the marks lines, boxes
  and text leave, when the window follows the game, colour packing, and the ordering
  of a frame's cost breakdown.
- `process` — decoding the UTF-16 names Windows reports and matching them
  without regard to ASCII case.
- `log`, `console` — the text a run writes: pawn addresses, log entries, and
  redrawn screens.
