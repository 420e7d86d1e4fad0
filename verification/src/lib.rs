//! A shared prediction store and scoring engine for a group betting game:
//! teams, scheduled games, per-game score bets and longer-horizon global
//! bets live in one aggregate, guarded by validation rules and a temporal
//! gate (no prediction may change once its event has started), and a
//! deterministic point-scoring algorithm turns recorded results into a
//! leaderboard. The aggregate serializes to a snapshot text that
//! round-trips losslessly, which carries it across restarts.
//!
//! Every operation's behaviour is stated in its contract over the
//! aggregate's mathematical image and machine-checked; the host process
//! supplies the lock, the clock reading and the durable location.

pub mod digits;
pub mod model;
pub mod timestamp;
pub mod store;
pub mod scoring;
pub mod codec;

pub use model::Team;
pub use model::Game;
pub use model::Bet;
pub use model::BetList;
pub use model::GlobalBet;
pub use model::StoreError;
pub use timestamp::Timestamp;
pub use store::DataInter;
