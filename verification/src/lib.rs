//! A rule-correct model of Klondike solitaire: the card types, the three
//! kinds of zone (deck, tableau pile, suit foundation), the move state
//! machine that governs transfers between zones, and a reference greedy
//! strategy together with the arithmetic that splits a simulation run
//! across workers.
//!
//! Every structural rule of the game is stated as a contract: the deck's
//! waste/visible/remaining regions always partition its cards, a pile's
//! visible run always descends in rank with alternating colors, a
//! foundation is always a gapless prefix of its suit, and the full set of
//! 52 cards is conserved by every move.

pub mod deck;
pub mod foundation;
pub mod french;
pub mod game;
pub mod harness;
pub mod pile;
pub mod shuffle;
pub mod strategy;
