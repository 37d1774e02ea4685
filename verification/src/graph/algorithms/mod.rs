pub mod vertex_sets;
pub mod gf2;
pub mod elimination;
pub mod tree_decomposition;
pub mod rank_reduction;
pub mod dijkstra;
pub mod dijkstra_steiner;
pub mod dreyfus_wagner;
pub mod dual_ascent;
pub mod steiner_td;
