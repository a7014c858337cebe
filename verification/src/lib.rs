//! What the messages of the commits of a repository say of tickets and of
//! other commits, read, indexed and followed.
//!
//! The work goes in three steps. `collection` reads the log of all commits
//! into records: the revision id, the parents, the tickets that the message
//! names, the commits and the revisions of the origin system that it
//! refers to, and whether the commit is likely a merge or a cherry-pick.
//! `index` makes the records findable, by revision id, whole or
//! abbreviated, and by revision of the origin system, and resolves the
//! references between them in both directions. `search` follows the
//! references from a list of commits and gives the forest of what it
//! finds; a commit is reached once at most, so references that go in a
//! circle do no harm.
//!
//! Around these stand `compare`, which sets two such forests against each
//! other by ticket, `branches`, `revmap` and `report`, which bring results
//! into the shape in which they are shown or written, and `upstreaming`,
//! which names references by the branches that they track. `text`,
//! `order` and `util` hold what the others need of texts, of sorting and
//! of small conversions. `matching`, `ordered_set` and `words` are the
//! doors to the crates `regex`, `linked_hash_set` and `shell-words`: what
//! these crates do is taken on trust there and nowhere else.
//!
//! The library reads texts and returns values. It starts no program and
//! opens no file: the caller runs the history provider and hands its
//! output in.

pub mod branches;
pub mod collection;
pub mod compare;
pub mod constants;
pub mod index;
pub mod matching;
pub mod order;
pub mod ordered_set;
pub mod report;
pub mod revmap;
pub mod search;
pub mod text;
pub mod upstreaming;
pub mod util;
pub mod words;
