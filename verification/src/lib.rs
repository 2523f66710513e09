//! A small contact book: records with a name, a phone number and optional
//! email and postal address, kept in an in-memory directory with lookup by
//! name and by phone, an insertion-ordered listing, and a line-based text
//! encoding for the backing store.
//!
//! The library computes; the shell around it moves bytes. A shell reads the
//! backing store and hands its content to [`agenda::Agenda::abrir`], and
//! after every mutation writes what [`agenda::Agenda::salvar`] returns. A
//! save that cannot be written leaves the in-memory directory authoritative;
//! retrying the write is the shell's affair. On load, a malformed store line
//! is skipped, uniformly, never a fatal error.

pub mod agenda;
pub mod busca;
pub mod contatos;
pub mod formato;

pub use busca::App;
pub use busca::Visualizacao;

pub use agenda::Agenda;
pub use agenda::AgendaV;

pub use contatos::Contato;
pub use contatos::ContatoV;
