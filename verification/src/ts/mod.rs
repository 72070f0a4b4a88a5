//! Reading transport streams.
pub mod airtime;
pub mod b24;
pub mod epg;
pub mod event_form;
pub mod packet;
pub mod pes;
pub mod psi;
pub mod pts;
pub mod subtitle;
pub mod table_form;
pub mod title;
