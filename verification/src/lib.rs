//! Core of an interactive graph-visualization tool: a shared undirected
//! weighted multigraph, single-source shortest paths over it, and a
//! cooperatively-scheduled script host that buffers node-recoloring
//! commands and applies them to a color map.
pub mod color;
pub mod dijkstra;
pub mod graph;
pub mod script;
