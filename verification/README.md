# Grocery Bagger 9000

A puzzle game: pieces come down a conveyor belt and the player packs them into bags.

- `src/` is the `grocery_bagger` library, verified with Verus: scoring a bag (fill multiplier,
  color ranks, holes found by a search from the top row), the player's score across bags and
  levels, the conveyor belts and the pieces on them, bag replacement, level transitions and
  the first level's mouse tutorial. `score_laws.rs` holds the laws proved of the scoring.
- `tests/` exercises the library on concrete bags, belts and state machines.
- `app/` is the game itself, built on Bevy: drawing, animation, physics queries and level
  content. Scoring, the belts' pieces, bag replacement and level transitions are decided by
  the library; `app/` spawns what they call for (pulling the belt's first nine pieces at the
  start of a level and one more after each placement) and does the float geometry.
