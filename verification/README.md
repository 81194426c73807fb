# database_learning_path

Verified building blocks of graph and query workloads, in Verus.

| module | what it holds |
| --- | --- |
| `attack` | directory attack graphs, dominators and choke points, nested group membership |
| `debugging` | log-bucketed histograms, a slow log, closed and open load loops |
| `distquery` | exchanges, fan-out latency, hedged requests |
| `egraph` | e-graphs, pattern queries, backtracking and join matchers, semi-naive deltas |
| `fraud` | review graphs with camouflage, dense-block peeling, record linkage |
| `graphrag` | knowledge graphs, personalized PageRank, facts with two clocks |
| `onchain` | ledgers, taint policies, address clustering |
| `ops` | service topologies, traces, rankings, root-cause walks, sampling |
| `overload` | a queueing simulation, token buckets, admission by priority |
| `sharding` | placement by hash, a consistent-hash ring, a streaming partitioner |
| `social` | interaction graphs, random-walk recommendations, link prediction |

`rng` is the one place that calls the outside generator (`rand`, `rand_chacha`).
A generator is read as the stream of words it still holds, and everything random
states which value it makes of that stream.

`double` has the numbers of double precision as the integers they are made of:
sums, products, quotients and roots are the exact results, rounded to the nearest
number. Payments, taint shares, percentiles, error rates and correlations are
computed with them, bit by bit as the floating-point unit does. Probabilities are
integers in units of 2^-53, the grid of the generator's uniform draws; other rates
come back as a count and what it is out of; page-rank mass, boosted scores and
column weights are integers in a stated unit. Powers and logarithms stay outside:
skewed samplers and falling weights are tables that the caller makes. `app/` holds
the experiments, those tables, and the estimates that need logarithms throughout.
