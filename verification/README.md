# networkle

A helper for the Networkle transit puzzle, where the player guesses a hidden station of a
city's network and, after each wrong guess, learns whether the guess shares a line with the
hidden station and how many hops separate them.

The library (`src/`, verified with Verus) holds:

- `network`: the station network built from a city's station records (stations numbered in
  order of first appearance, lines shared, neighbours, hop distances);
- `graph`: breadth-first hop distances, proved to be shortest-path lengths;
- `decision_tree`: the guess tree — at each node the best-scored candidate, one child per
  answer that leaves candidates — with the proof that following the hidden station's answers
  always reaches it, in fewer steps than there are candidates;
- `render`: the text drawing of a tree;
- `cities`: which city configurations are offered and which data version to load.

The program (`app/`) fetches the city data, asks the player, scores guesses by their
(floating-point) answer entropy, and prints.
