//! Groups whose shared secret turns over with every change of membership,
//! and messages sealed under the secret of the epoch they were sent at.

pub mod codec;
pub mod fresh;
pub mod group;
pub mod identity;
pub mod state;

mod entropy;
