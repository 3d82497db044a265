//! Brute-force cryptanalysis of the classical turning-grille transposition
//! cipher: grille enumeration as a base-4 odometer, a dictionary trie that
//! counts word occurrences, a family of bounded multi-producer/multi-consumer
//! portion queues, and the execution strategies that drive a full scan of the
//! grille space.
#![allow(non_snake_case)]
#![allow(non_camel_case_types)]

pub mod blocking_portion_queue;
pub mod grille;
mod host;
pub mod mostly_non_blocking_portion_queue;
pub mod non_blocking_queue;
pub mod queue;
pub mod text;
pub mod turning_grille;
pub mod words_trie;
