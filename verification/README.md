# fuba

Simulate football (soccer) matches and tournaments.

A tournament is described in a TOML file: teams with Elo ratings, formats
(round robin, playoff, ranking) and rounds whose entrants are teams, places
of earlier rounds, or holders of flags that earlier rounds set. The program
runs a tournament once, runs it many times to count how often each team
reaches each place, or simulates single matches.

## Layout

- `src/` is the verified library (Verus). It holds the tournament logic:
  - `flagcheck`, `reprint`: the flag expression language (`(A | B) & !C`),
    lexer, parser, evaluation and printing, and the proof that a printed
    check without `|` reads back as itself;
  - `config`, `assemble`, `rounds_graph`: the configuration model, its
    checks, and the order of rounds (a topological sort through petgraph);
  - `gen_pairing`, `circle`: round robin schedules by the circle method, and
    the proof that each leg pairs every two teams exactly once;
  - `sim`, `result`, `ranking`, `balance`: match results, pairings, tables,
    tie-breakers, flags, and laws of counted tables;
  - `tournament`: the state machine that runs a tournament, asking its
    caller for simulated matches and new ratings;
  - `shootout`: the rules of a penalty shootout, fed whether each kick
    scored, and the proof that a finished shootout has a winner;
  - `report`, `text`: the text of match lists and tables;
  - `tally`: the counts of many runs of a tournament.
- `app/` is the program around it: command line (clap), reading the
  configuration (toml, serde), random simulation of matches, of penalty
  kicks and Elo arithmetic (floating point), threads for many runs, and printing.
- `tests/` runs the library on concrete tournaments.
