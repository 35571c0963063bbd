//! Analysis of machine nets: networks of mutually recursive finite-state
//! machines, and the construction of their ELR(1) pilot automaton with its
//! conflict diagnostics.

pub mod reg_lang;
pub mod regex;
pub mod fsm;
pub mod mnet;
pub mod elr_pilot;
pub mod text;
pub mod epsilon_elim;
