pub mod leb;
pub mod chars;
pub mod value;
pub mod json;
pub mod parser;
pub mod regs;
pub mod words;
pub mod floor_a;
pub mod names;
pub mod floor_b;
pub mod agree_ab;
pub mod arena;
pub mod floor_c;
pub mod floor_d;
pub mod agree_bd;
pub mod folding;
pub mod ntag;
pub mod stage_e;
pub mod landing;
pub mod stage_f;
pub mod jit_total;
pub mod wasm;
pub mod self_contained;
pub mod text;
pub mod stage_g;
pub mod gen;
pub mod engine;
pub mod meaning;
pub mod wasm_meaning;
pub mod native_meaning;
