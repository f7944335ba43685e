// Object-centric directed graphs over object-centric event logs.
//
// - `ocel`: the event log, its consistency rule and its builder
// - `eventset`: sets of event ids held in vectors
// - `relations`: the thirteen relation kinds and the pairwise evaluation
// - `neighbours`: node registry and candidate neighbours of a log
// - `ocdg`: the graph, its assembly from a log, and its lookups
// - `decomposition`: removal of ambiguous Descendants edges
// - `laws`: properties of built and decomposed graphs
// - `timeseries`: time bins over event timestamps
// - `gexf`: the data types of the GEXF exchange format
// - `adjacency`: the graph's adjacency as a petgraph graph

pub mod adjacency;
pub mod decomposition;
pub mod eventset;
pub mod gexf;
pub mod laws;
pub mod neighbours;
pub mod ocdg;
pub mod ocel;
pub mod relations;
pub mod timeseries;
