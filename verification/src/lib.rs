pub mod keyed_map;
pub mod category;
pub mod functor;
pub mod natural_transform;
pub mod adjunction;
pub mod monad;
pub mod kan_extension;
pub mod yoneda;
pub mod text;
pub mod sheaf_on_category;
pub mod limit_colimit;
pub mod composition_engine;
