use vstd::prelude::*;

pub mod arrow_kkt;
pub mod arrow_laws;
pub mod change_laws;
pub mod condensed;
pub mod cone;
pub mod cone_laws;
pub mod conic_backends;
pub mod conic_dir;
pub mod conic_kkt;
pub mod conic_laws;
pub mod conic_newton;
pub mod conic_plan;
pub mod conic_route;
pub mod conic_run;
pub mod conic_solve;
pub mod conic_step;
pub mod curved;
pub mod dense_kkt;
pub mod dual_laws;
pub mod dualize;
pub mod exact;
pub mod exp;
pub mod exp_barrier_laws;
pub mod exp_laws;
pub mod fac;
pub mod factor;
pub mod fold_laws;
pub mod folded_kkt;
pub mod generator_laws;
pub mod generators;
pub mod genpow;
pub mod kkt;
pub mod kkt_cache;
pub mod kkt_laws;
pub mod kron;
pub mod lowrank;
pub mod lowrank_laws;
pub mod lowrank_solve;
pub mod lp_simplex;
pub mod lr_cache;
pub mod matrix;
pub mod optimum_laws;
pub mod ordering;
pub mod pc_step;
pub mod pow_barrier_laws;
pub mod pow_laws;
pub mod problem;
pub mod product_laws;
pub mod products;
pub mod qp_blocks;
pub mod qp_directions;
pub mod qp_laws;
pub mod qp_loop;
pub mod qp_matrices;
pub mod qp_newton;
pub mod qp_plan;
pub mod qp_run;
pub mod qp_setup;
pub mod qp_solve;
pub mod qp_sparse;
pub mod qp_systems;
pub mod range_space;
pub mod refine;
pub mod refute_laws;
pub mod scalar;
pub mod schur_laws;
pub mod separable_laws;
pub mod simplex_laws;
pub mod solution_laws;
pub mod solve;
pub mod sparse;
pub mod step_laws;
pub mod system_laws;
pub mod vector;
pub mod warm;
pub mod woodbury;
pub mod woodbury_laws;

pub use crate::scalar::Scalar;

verus! {

} // verus!
