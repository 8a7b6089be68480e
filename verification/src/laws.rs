//! What the processes of this crate do to stores that work.

pub mod access;
pub mod answers;
pub mod breaking;
pub mod cluster;
pub mod collect;
pub mod composed;
pub mod copy;
pub mod counts;
pub mod disk;
pub mod drain;
pub mod failing;
pub mod filing;
pub mod limits;
pub mod lists;
pub mod links;
pub mod memory;
pub mod mirror;
pub mod moving;
pub mod names;
pub mod naming;
pub mod pages;
pub mod patterns;
pub mod place;
pub mod protocol;
pub mod refers;
pub mod replica;
pub mod routes;
pub mod serve;
pub mod settings;
pub mod spread;
pub mod taken;
pub mod turns;
pub mod unfailing;
pub mod unmissed;
pub mod wanted;
pub mod words;
