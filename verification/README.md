# prediction_vector

Encodes model predictions as vectors, searches and filters batches of encoded predictions, and
computes statistics over them. The library is verified with Verus.

Numbers are IEEE 754 double precision numbers, held by their bit pattern in `Binary64`. A finite
number is modelled as an integer count of units of 2^-1074, and each operation returns the exact
result rounded to the nearest number, ties to even.

| module | contents |
| --- | --- |
| `binary64`, `rounding`, `arithmetic` | numbers, rounding and arithmetic |
| `sequences` | sums, means and extremes |
| `output` | predictions |
| `encoder`, `stamp` | encoding, identifiers and timestamps |
| `vector` | encoded predictions, cosine similarity and Euclidean distance |
| `ranking`, `batch` | search by distance, selection by confidence, statistics |
| `accuracy`, `proportion` | how far rounded results are from the exact ones |
| `*_laws` | laws that relate the operations |

Two functions are trusted: `stamp::random_uuid` draws a random UUID from the `uuid` crate, and
`stamp::clock_seconds` reads the system clock.

`app/` holds the same types with native `f64` and `Uuid` fields and serde's derives, and the
conversions between the two.
