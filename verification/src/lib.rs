pub mod text;
pub mod adls;
pub mod fragment;
pub mod reconcile;
pub mod access;
pub mod live;
pub mod commit;
pub mod inventory;
pub mod engine;
pub mod adls_laws;
pub mod adls_valid;
pub mod fragment_laws;
pub mod fragment_readback;
