# intervals_core

Interval algorithms on half-open intervals `[start, end)`, written in Verus
with their contracts proved:

- `overlap_counts`: for each row, the number of other rows it overlaps;
- `assign_lanes`: the fewest non-overlapping lanes, as many as the largest
  number of intervals that share a point;
- `max_weight_non_overlapping`: a maximum-weight set of disjoint intervals;
- `max_weight_with_capacity`: a maximum-weight selection in which no point lies
  in more than `capacity` selected intervals (minimum-cost flow per component);
- `minimum_cover`: the fewest intervals covering a target;
- `minimum_cost_cover`: a cheapest cover, with the fewest rows among the cheapest.

Every result is in original row order, and every error names the first
offending row. Endpoints are compared through an order-preserving ordinal
(`Endpoint`); weights and costs widen losslessly to `i128` (`Weight`), with
checked arithmetic.

Layout:

- `src/`: the verified library. Each algorithm's module states its model as
  spec functions (`overlap_count`, `optimal_lanes`, `schedule_outcome`,
  `capacity_result`, `cover_outcome`, `cost_cover_outcome`) and proves the
  public functions against it. Public proof functions state laws about and
  between the algorithms: what an overlap count counts, that no lane
  assignment needs fewer lanes than the concurrency, capacity monotonicity,
  capacity zero and one (the very same result as non-overlapping selection),
  sufficient capacity, unchanged lanes and masks when every endpoint moves
  alike, the suffix minima after a sequence of Fenwick offers, and how the two
  covers compare.
- `tests/`: tests on concrete values.
- `app/`: Polars expressions and a Python extension module around the library,
  including a scoped-thread driver for large capacity instances.
