use vstd::prelude::*;

pub mod algebra;
pub mod bisect;
pub mod bit_set;
pub mod bound;
pub mod bundle;
pub mod btree_bimap;
pub mod btree_multiset;
pub mod counting;
pub mod dijkstra;
pub mod exact_cover;
pub mod extremum;
pub mod flow;
pub mod functional_graph;
pub mod hld;
pub mod incremental_line_set;
pub mod interval;
pub mod interval_map;
pub mod interval_set;
pub mod karatsuba;
pub mod inversion;
pub mod minmax;
pub mod order;
pub mod permutation;
pub mod polish;
pub mod removable_heap;
pub mod tortoise_hare;
pub mod tree;
pub mod tree_cata;
pub mod tree_sides;
pub mod rle;
pub mod union_find;
pub mod rs_dict;
pub mod scc;
pub mod run_length;
pub mod source;
pub mod sssp;
pub mod vec_map;
pub mod wavelet_matrix;
