# algoritmos

Data structures and algorithms, verified with Verus:

- `lista_encadeada`: singly and doubly linked lists kept in a vector of
  cells, addressed by index, with a free list of cells to reuse; and, in
  `lista_encadeada::texto`, the text of a list (its characters, or its
  numbers in decimal, each followed by a comma).
- `tabela_chave_valor`: a hash table with buckets, a set, and a set that
  remembers the order in which its elements came in; keys are characters,
  integers or strings.
- `multiplicacao_inteiros`: integers of any size, as a sign and bits, with
  addition, subtraction and multiplication.
- `grafos`: undirected graphs and breadth-first search.
- `editor_texto`: a text editor kept in a doubly linked list, with a cursor
  and a window of characters around it.
- `bootstrap`: bootstrap percolation on a square board held in an
  `ndarray::Array2`; the step on strips of rows for threads; and, in
  `bootstrap::dois_vizinhos`, the modified two-neighbour process solved by
  divide and conquer on rectangles.

`app/` holds the programs around the library: the editor in the terminal,
the percolation experiments (random boards, images, tables, threads), and
small demonstrations.
