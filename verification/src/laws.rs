//! What the library promises, stated of its results by what goes in and what
//! comes out.
pub mod archives;
pub mod daemon;
pub mod datalab;
pub mod eggs;
pub mod fetching;
pub mod inputs;
pub mod membership;
pub mod nodefiles;
pub mod packages;
pub mod placement;
pub mod protocol;
pub mod rendering;
pub mod terminal;
pub mod texts;
pub mod vault;
pub mod workspace;
