# ablation

A three-arm experiment on probe questions in spaced repetition, run on simulated
learners. A probe is a reworded question about the fact that a card asks for. The
experiment asks whether probes tell more about a learner than cards do:

- **stock** studies a collection without probes;
- **off** has probes attached, at a serving rate of zero;
- **on** serves them at the configured rate.

`src/` is the verified library: random streams, the synthetic corpus, the text
checks for leakage, the day-by-day session of a learner, the comparison of the
arms, the counts and the verdict. Floating-point values enter it as bit patterns,
which it only compares.

`app/` is the program around it: arguments, files, the collection and its
scheduler, the learner's forgetting curve and the floating-point scores.

| module | what it holds |
|---|---|
| `stream` | seeded random streams |
| `corpus` | invented words and the facts made of them |
| `text`, `overlap`, `leakage` | normal forms, shingles, contamination checks |
| `reordering` | why the order of the cards does not matter to those checks |
| `collection` | the rows that are read and changed, and the passing of a day |
| `session` | one learner at work on one arm |
| `course` | what holds of a whole arm, for any scheduler and learner |
| `order`, `number` | stable sorting, comparison of bit patterns |
| `calibration`, `provenance`, `report` | what the runs add up to |
| `config` | settings, arms and their setups |
