# svmkit

A support vector machine trained with SMO, split in two:

- `src/` is the verified library: k-fold index splitting, the train/test split,
  the record layout of CSV data, confusion counts, support-vector selection,
  the choice of the second SMO multiplier, the stopping rule of the SMO sweeps,
  the default sweep budget and the learning-curve sizes. Each public function has
  a contract that Verus proves; the laws of the k-fold split, of the CSV layout
  and of the stopping rule are proof functions beside them.
- `app/` is the program around it: kernels, the SMO numerics, prediction,
  metrics, PCA, grid search and plotting, all of which compute on `f64`.
