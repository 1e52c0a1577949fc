//! Path integration for a vehicle on a track: the parts of the engine that
//! choose indices and arrange samples, stated and proved.
pub mod track;
pub mod transitions;
