# reducers

Reduction functions for NumPy arrays, plain (NumPy-like) and NaN-aware, with
the integer side of the library proved correct in Verus.

Layout:

- `src/` is the verified library:
  - `finite.rs`: the scan policies and their boundary codes;
  - `number.rs`: non-floating elements (booleans, integers) and what the
    least, greatest and rank-`k` elements of a sequence are;
  - `reducers_1d.rs`: 1-D kernels on non-floating elements (min, max, fused
    min/max, lower median, middle pair, several ranks at once), the reducer
    kinds and the weighted-average refusal rule;
  - `axis.rs`: row and column reductions of non-floating matrices whose result
    is an input element, the parallel class of each reduction and the layout
    of several results per output element;
  - `parallel.rs`: the named parallel work grains (defaults, override text,
    cache, single and batch writes) and the chunk counts.
- `app/` holds the floating-point kernels, the process-wide grain table read
  from the `REDUCERS_*_GRAIN` environment variables, and the PyO3 extension
  `reducers._core`.
- `tests/` exercises the library on concrete values.
