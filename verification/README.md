# reddoc

A record-keeping tool for offensive security engagements: it keeps a
timeline of the actions taken, their consequences and other events, and the
information learnt about the target (computers, IP addresses, software,
services, vulnerabilities, domains, users, facts). Names are standardised
before they are stored or compared.

The library in `src/` is verified with Verus; each public function states
what it does in its `requires`/`ensures`, and the properties that relate
several functions are stated and proved as `law_*` proof functions.

- `text`: character classes, trimming, the standardisation of names and
  versions, summaries of custom texts, reading unsigned numbers.
- `information`: the information model and its consistency invariant.
- `node`: nodes, the timeline, and the project state with its operations.
- `action`, `event`, `consequences`: the recorded facts, and the handling of
  each subcommand on plain values.
- `software_choice`: the dialog that chooses the software of a service, as a
  step function from where the choice stands and the user's answer.
- `questions`: reading the user's answers.
- `report`: reports of the timeline.

`app/` is the command-line program around the library: argument parsing
(clap), the terminal and standard input, running commands, and reading and
writing the project file (`./project.json`, with serde).
