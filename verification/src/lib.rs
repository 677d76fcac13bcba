//! Big-Little matching.
//!
//! Two disjoint populations, Bigs and Littles, rank each other. The library holds the typed
//! indices that keep the two populations apart, the registry of their names, the table of their
//! preferences and the two matching algorithms that read it.

mod sealed;

pub mod display;
pub mod engine;
pub mod engine_model;
pub mod index;
pub mod invariants;
pub mod kind;
pub mod laws;
pub mod matching;
pub mod model;
pub mod names;
pub mod ordered;
pub mod placement;
pub mod records;
pub mod sorting;
pub mod table;
pub mod text;

pub use display::{MatchingSetDisplay, PreferenceTableDisplay};
pub use index::{BigIndex, BigPreference, Index, LittleIndex, LittlePreference, Preference};
pub use kind::{Big, DynamicKind, Kind, Little, Select, SelectBase, SelectMut, SelectType};
pub use matching::{Matching, MatchingSet};
pub use model::TableView;
pub use names::{Names, NamesView};
pub use placement::{MatchingSetView, MatchingView};
pub use records::{RecordError, Records};
pub use table::PreferenceTable;
