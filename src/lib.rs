//! Engine of a seed-driven test harness for a four-player game program:
//! seed ranges, player names, score-line scanning, launch decisions and the
//! reduction of many run outcomes into aggregate statistics.
pub mod errors;
pub mod seeds;
pub mod aggregate;
pub mod scores;
pub mod player;
pub mod launch;
