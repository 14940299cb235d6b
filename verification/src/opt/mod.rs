//! Analyses and transformations of the IR.

pub mod affine;
pub mod alias;
pub mod arg_meaning;
pub mod arith;
pub mod bce;
pub mod bounds_meaning;
pub mod call_resolve;
pub mod callgraph;
pub mod change_laws;
pub mod clean_laws;
pub mod clone;
pub mod const_arg;
pub mod const_arg_laws;
pub mod const_fold;
pub mod const_prop;
pub mod cse;
pub mod dce;
pub mod dead_arg;
pub mod dead_func;
pub mod dep_analysis;
pub mod dse;
pub mod edit;
pub mod effect_laws;
pub mod fast_math;
pub mod fast_math_laws;
pub mod fission;
pub mod fission_laws;
pub mod fission_meaning;
pub mod floats;
pub mod fold_laws;
pub mod fold_meaning;
pub mod fpenv;
pub mod graph;
pub mod insts;
pub mod ints;
pub mod loop_laws;
pub mod loop_utils;
pub mod meaning;
pub mod pass;
pub mod places;
pub mod prune_laws;
pub mod purity;
pub mod rewire_laws;
pub mod share_laws;
pub mod share_meaning;
pub mod sound_laws;
pub mod store_meaning;
pub mod sum_meaning;
