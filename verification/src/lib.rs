//! Optimisation and analysis passes over a small typed intermediate
//! representation: basic blocks, control-flow graphs, dominators, dataflow,
//! value numbering, dead-code elimination, SSA and trace splicing.
pub mod text;
pub mod ir;
pub mod float;
pub mod instr;
pub mod names;
pub mod fold;
pub mod basic_block;
pub mod bb_function;
pub mod cfg;
pub mod passes;
pub mod tdce;
pub mod lvn_table;
pub mod lvn;
pub mod dataflow;
pub mod index_set;
pub mod dominators;
pub mod dominator_tree;
pub mod type_map;
pub mod name_stack;
pub mod phi;
pub mod ssa;
pub mod ssa_lower;
pub mod trace;
pub mod splice;
pub mod vec_set;
pub mod live_vars;
pub mod reaching_defs;
pub mod const_prop;
pub mod available_expr;
pub mod call_graph;
pub mod canonical;
pub mod dom_check;
pub mod tools;
pub mod dataflow_laws;
pub mod dominator_laws;
pub mod ssa_defined;
pub mod ssa_laws;
pub mod tree_laws;
