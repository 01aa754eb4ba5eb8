# rgbm

Gradient boosting on binned features, verified with [Verus](https://github.com/verus-lang/verus).

A model is a sum of decision trees. Features are first sorted into at most 255 bins, plus one
for missing values; trees are grown on histograms of gradients and hessians over these bins.

## Layout

- `src/` is the library. Its functions have contracts that say what they return, and Verus
  proves them. Where a result rests on chance or on what a caller's own objective computes, the
  contract says what holds of every outcome.
  - `rounding`, `double`, `arithmetic`, `accuracy`: IEEE 754 numbers. Every operation returns the
    number nearest to the exact result, the same on every machine, bit for bit. `accuracy` says
    how far results are off. Exponentials, logarithms and error functions are not among the
    operations: `app/` takes them from the machine, and what rests on them may differ.
  - `column`, `categories`, `sampling`, `bounds`, `bin`: columns of values, and their bins.
  - `bundle`, `dataset`: binned features, packed eight to a word, with labels and weights.
  - `histogram`, `split`: sums per bin, and the best split of a leaf.
  - `tree`, `growth`, `partition`, `segments`: trees; `growth` says what growing a tree means,
    `segments` why each row ends up in the leaf that it reaches when predicted.
  - `exact`, `subsets`: what holds where nothing has to be rounded. Leaf values cost least, a
    histogram less another is that of the other rows, and no subset of the categories is split
    off better than by a cut in the order of their ratios.
  - `objective`, `odds`, `booster`: objectives, fitting and predicting; `odds` says how far
    predicting undoes taking odds.
  - `text`, `serialization`: models as LightGBM `model.txt` files.
  - `utils`: worker pools.
- `tests/` runs the library, with the outside crates linked.
- `app/` reads Arrow data, supplies exponentials, logarithms and error functions, and offers
  the model to Python.

Proof functions whose names start with `law_` state what holds of the library as a whole: that
bins are monotone, that a split keeps the least weight on both sides, that predictions on the
training rows are the scores that boosting ended with, and more.

## What is not proved

A few functions call outside crates: ahash for the map from categories to bins, rand for the
sample that bin bounds are found from, rayon for worker pools, and std for sorting. Their
contracts are trusted; each says in its comment what it claims of the crate.
