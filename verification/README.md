# joi_burn

A temporal model of three hundred small transformers ("brains") that looks at
the last twenty feature rows of six symbols and says which of four actions fits
each of them. Two programs share one library:

- `joi-burn` loads trained weights, reads a feature snapshot at intervals, and
  writes its predictions as JSON;
- `joi-train` reads labelled snapshots from a SQLite database and trains a swarm.

## Layout

`src/` is the library, verified with Verus. Floating-point numbers pass through
it as their bit patterns; it orders, rounds, selects, lays out and labels them,
and leaves arithmetic on them to its callers.

| modules | what they hold |
| --- | --- |
| `config`, `text`, `bytes` | names and sizes, text, words |
| `ieee`, `rounding` | the order of IEEE numbers, rounding to single precision |
| `archive`, `weights` | SafeTensors archives and the weights in them |
| `snapshot`, `stats`, `ring`, `engine` | reading features, buffering them, deciding when to run |
| `graph`, `forward`, `inference`, `training_pass` | forward passes as lists of tensor operations |
| `shapes`, `training_shapes` | proofs that these never meet shapes that do not fit |
| `reals`, `tensor`, `sizes`, `rows` | what tensor operations and the model compute, in real numbers |
| `evaluation`, `attending`, `inference_values`, `training_values` | proofs that both passes compute that model |
| `reordering`, `mixing`, `normalization` | what holds of the model on rows |
| `layer_laws`, `swarm_laws`, `training_laws` | laws of a layer, of inference and of training: order, independence, shares, heads |
| `agreement` | proof that inference computes, in real numbers, the function that was trained |
| `model` | parameters of a swarm, and how attention divides its input |
| `predict` | predictions out of what the model returns |
| `query`, `dataset`, `sequence`, `history`, `split` | samples out of database rows, the whole data set |
| `training` | batches and the best epoch |
| `cli` | the command line of `joi-burn` |

`app/` holds the programs themselves: files, the database, the clock, and the
tensors of Burn, on which it runs the library's programs. The name under which
the binary is started decides which of the two runs.

`tests/` runs the library on concrete values.

## Running

```text
joi-burn --model-dir ./weights --input features.json --output signal.json
joi-burn ./weights . 1
joi-burn ./weights . 1 --output signal.json
joi-train --db features.sqlite --epochs 40 --batch-size 16 --output ./burn_models_v3
```

The weights directory holds `swarm_v2_beast.safetensors`, `norm_means.npy` and
`norm_stds.npy`. A snapshot is a JSON object with an array of up to fifty-four
numbers under each symbol.
