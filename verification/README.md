# Everscale Global Config Builder

Builds an Everscale `global-config.json` from verified DHT bootstrap peers.

A global config holds signed `dht.node` records. The builder starts from the static nodes of a
seed config, crawls the DHT from there, and decides on each node that it came to know. Only nodes
that pass the DHT library's verification are accepted: the seed nodes that it takes, and the nodes
that it tells of. A seed node that it does not take still counts as a seed node once it tells of
that node. The builder writes a config in which `dht.static_nodes.nodes` is replaced and all else is
kept, together with a report that says of each node what became of it and why.

## Layout

- `src/` is the library, verified with Verus:
  - `seed` reads the nodes of the seed config, `node` and `ipv4` say what a node and an address
    are;
  - `candidate` keeps what is known of each node, `crawl` says which peers are called next and
    what their answers mean;
  - `decision` tells whether a candidate is fit for the output, `select` which of the fit ones go
    into it, and in what order;
  - `output` and `report` make the config and the report, `roundtrip` states that what is written
    can be read;
  - `config`, `path` and `clock` are the settings, their paths and the time; `text`, `order`,
    `json` and `error` serve the others.
- `app/` is the program around it: arguments, files, and the DHT network.
- `tests/` runs the library.

## Settings

| setting | default | |
| --- | --- | --- |
| `seed_global_config_path`, `output_global_config_path`, `report_path` | | relative to the settings file |
| `local_adnl_addr` | `0.0.0.0:4192` | the local ADNL address |
| `crawl_rounds` | 6 | rounds of queries |
| `recursive_crawl` | `false` | query discovered peers too, not the seed peers alone |
| `workers` | 32 | peers that are called at a time |
| `peer_timeout_secs` | 8 | the time that a peer has to answer |
| `max_known_nodes` | 1000 | nodes that are read from the DHT |
| `max_output_nodes` | 200 | nodes in the output |
| `max_seed_nodes_in_output` | 3 | seed nodes among them |
| `min_successes` | 1 | successful queries or pings that a node needs |
| `include_seed_nodes` | `false` | seed nodes need none |
| `allow_private_ips` | `false` | addresses need not be public |
| `compact` | `false` | write JSON without line breaks |

## Usage

```bash
everscale_global_config_builder build --config everscale_global_config_builder.json
```
