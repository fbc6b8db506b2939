# freenet_prolly

A prolly tree: a sorted map from byte keys to byte values, stored as content-addressed
blocks. Equal contents give equal trees, whatever the order of the edits that led there. A
change streams, on each level, only stretches of nodes that begin at the place of an edit,
or one node before it, and end at the first node after which no node is open. The library
is written in Verus: every executable function carries a contract, and the properties that
span functions are public proof functions.

Operations are pure functions of a root and a source of blocks. One that reaches a block
the source does not hold stops and names it; the caller fetches it and asks again.

## Layout

- `lib`, `kind`: block ids and block kinds. The hash is BLAKE3.
- `node`, `canon`: the node format. A node has one encoding, and the parser accepts no other.
- `order`, `seqs`: byte strings, their order, and little-endian numbers.
- `boundary`, `chunk`: where a level is cut into nodes, and how a node is closed.
- `gf`, `linear`, `rs`, `parity`: the erasure code and the parity groups of a node.
- `store`, `tree`, `read`, `cursor`, `slots`: reading a tree, whole or in part.
- `range`, `pages`, `aggregate`, `edges`: pages and counts, that the pages of a range are
  the range, and that a count opens the edges of its range.
- `diff`, `merge`, `align`: the differences of two trees, the course a diff takes turn by
  turn, and the nodes the two trees share.
- `build`, `tower`: a tree from scratch.
- `edits`, `splice`, `apply`, `rebuild`, `handed`, `unique`, `carried`, `restate`: changing a
  tree, that a change is a rebuild and hands over what is new, that it comes out in one way,
  that a batch in order is carried out, and that one which says nothing new changes nothing.
- `expand`, `grow`: what more blocks can change about an answer, and what they cannot.
- `pick`, `proofs`, `honest`, `spare`: proofs of one key, one count or one page against a
  root, that honest ones are accepted, and that nothing can be taken out or put in.
- `pack`: several blocks in one.

`tests/` holds the executable tests.
