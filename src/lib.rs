//! Timesheet aggregation: two tab-separated text blocks (off-client activities
//! with start/end timestamps, on-client work orders with duration columns)
//! folded into category totals and a per-day breakdown.

pub mod text;
pub mod decimal;
pub mod calendar;
pub mod daily;
pub mod timesheet;
pub mod session;

pub use calendar::Day;
pub use daily::DailyTotals;
pub use session::{GestionTempsApp, ResultatCalcul, Section, format_duree_en_heures};
pub use timesheet::{EntreeHorsClientele, calculer_duree, parser_donnees_clientele, parser_donnees_hors_clientele};
