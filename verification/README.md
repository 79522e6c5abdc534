# eia — Enterprise Impact Analyzer

Analyzes Terraform and OpenTofu JSON plans before they are applied: is the plan sound, what has
drifted, what depends on what, and what is hit when one resource changes.

```
eia check plan.json                # validate for safety issues and drift
eia blast plan.json aws_vpc.main   # who breaks if this changes?
eia view  plan.json                # interactive browser
eia graph plan.json                # dependency graph in DOT format
```

`src/` is the library, written in Verus: every function states what it returns, and the proof is
checked. Trusted, not proved, are the contracts of 25 wrappers around calls into `petgraph`,
`semver`, `serde_json` and `std`, and of `String::push`. `app/` is the command line around it: argument handling, files, the terminal, and the JSON
shapes that `serde` reads.

| Module | What it holds |
|---|---|
| `parser` | the plan, its actions, and the walks over its module trees |
| `version` | which formats are accepted, which versions are newer than tested |
| `validation` | structural checks of a plan |
| `drift` | how existing resources differ from planned ones |
| `paths` | reachability, cycles, topological orders and reduction of links |
| `digraph` | the `petgraph` graph, and what is relied on about it |
| `blueprint` | the graph that a plan describes |
| `graph` | `ImpactGraph`: construction, order, blast radius, reduction |
| `dot` | the graph in DOT format |
| `impact` | laws of impact, order and reduction |
| `report` | the lines and JSON of a check, a blast radius, a graph |
| `commands` | what each command prints and ends with |
| `ui` | state and contents of the interactive browser |
| `json`, `order`, `text` | JSON values, sorting, text |

An edge A → B of the graph means "A depends on B". An explicit edge comes from `depends_on`, an
implicit one leads from a resource to the child module that it belongs to. The blast radius of B is
every other node from which B is reached.
