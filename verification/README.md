# scalelab_rs

A small, reproducible lab for character-level GPT experiments on Candle. Its
question: when identical models process the same number of training tokens,
how does reusing a small corpus compare with drawing the tokens from a broader
one?

The crate is split in two.

- `src/` is the library, written in Verus and verified: corpus preparation
  (Project Gutenberg wrapper removal and normalization), the character
  tokenizer, token datasets and random batches, configuration checks, the
  experiment preflight, the exposure arithmetic and the training schedule,
  deterministic parameter initialization, greedy generation on the token side,
  and the checks and ordering a comparison report makes before it combines runs.
  Every public function states its result in its contract, and the library's
  laws (tokenizer round trips, shifted targets, the report's acceptance rule,
  the schedule's plan, and others) are proof functions.
- `app/` is the `scalelab` command line around it: file and directory I/O,
  TOML and JSON (de)serialization, the Candle network and optimizer, and the
  floating-point statistics and SVG/HTML drawing of the report.

Real-valued settings (learning rate, weight decay, token targets, training
fractions) cross into the library as the bit patterns of their `f64` values, so
the checks made on them are exact integer logic.

Modules of the library:

| module       | contents |
|--------------|----------|
| `text`       | character sequences, substring search, whitespace |
| `corpus`     | wrapper removal, normalization, preparing the corpora |
| `hashing`    | SHA-256 fingerprints in lowercase hexadecimal |
| `sampler`    | the random source of batches and its record of draws |
| `data`       | `CharTokenizer`, `TokenDataset`, random batches |
| `config`     | single-run configuration and its validation |
| `experiment` | manifests, seeds, run checks, exposure, schedule |
| `preflight`  | the experiment check as a sequence of stages |
| `model`      | causal mask entries, parameter initializers |
| `sample`     | greedy generation state |
| `report`     | control validation, report order, grouping, escaping |
