//! Verified construction of tensor programs.
pub mod adjoints;
pub mod artifact;
pub mod assignments;
pub mod attending;
pub mod attention;
pub mod autodiff;
pub mod batch_norm_state;
pub mod boxes;
pub mod cache;
pub mod chain;
pub mod compilation;
pub mod compile_options;
pub mod compiler;
pub mod contraction;
pub mod convolution;
pub mod corners;
pub mod densities;
pub mod derivatives;
pub mod diagonals;
pub mod disk_cache;
pub mod dlpack;
pub mod draws;
pub mod dtype;
pub mod edges;
pub mod einsum;
pub mod elements;
pub mod envelope;
pub mod error;
pub mod executable;
pub mod extents;
pub mod facts;
pub mod flows;
pub mod gradients;
pub mod graph;
pub mod image;
pub mod indexing;
pub mod interface;
pub mod kv_cache;
pub mod labels;
pub mod likelihoods;
pub mod linearity;
pub mod listing;
pub mod masks;
pub mod matmul;
pub mod nn;
pub mod normalizations;
pub mod numbers;
pub mod op;
pub mod ops;
pub mod overlaps;
pub mod pictures;
pub mod plan;
pub mod planning;
pub mod pooling;
pub mod prefixes;
pub mod products;
pub mod random;
pub mod random_state;
pub mod readings;
pub mod recalls;
pub mod reductions;
pub mod regions;
pub mod resize;
pub mod rotary;
pub mod sampling;
pub mod runtime;
pub mod scans;
pub mod session;
pub mod shape;
pub mod shape_ops;
pub mod slopes;
pub mod sound;
pub mod state;
pub mod state_tree;
pub mod statistics;
pub mod success;
pub mod text;
pub mod tracer;
pub mod turns;
pub mod windows;
pub mod words;
