//! Geographic data preparation for a geocoder: the rules that turn
//! OpenStreetMap, BANO, OpenAddresses and GTFS records into places
//! (administrative regions, streets, addresses, points of interest, stops).
use vstd::prelude::*;

pub mod addresses;
pub mod admin_geofinder;
pub mod labels;
pub mod boundaries;
pub mod order;
pub mod osm;
pub mod osm_reader;
pub mod places;
pub mod stops;
pub mod streets;
pub mod poi;
pub mod rubber;
pub mod settings;
pub mod text;
pub mod transit;
pub mod zones;

verus! {
} // verus!
