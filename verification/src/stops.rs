//! Stop areas read from a GTFS `stops.txt` file, and the number of stop
//! points of each stop area.
use vstd::prelude::*;
use crate::rubber::{counted, key_position, keys_unique, upsert, Incr};
use crate::places::{Admin, Comment, CommercialMode, FeedPublisher, PhysicalMode};
use crate::text::push_all;
use crate::transit::Line;

verus! {

/// Why a line of the file gives no stop area.
#[derive(Debug, Clone, Copy, PartialEq, Eq, Structural)]
pub enum StopConversionErr {
    /// The stop area is hidden from autocompletion.
    InvisibleStop,
    /// The line is not a stop area.
    NotStopArea,
    /// Its coordinates are out of range.
    InvalidStop,
}

/// A line of the file, without its coordinates.
#[derive(Debug, Clone)]
pub struct GtfsStop {
    pub stop_id: String,
    pub stop_name: String,
    pub location_type: Option<i32>,
    pub visible: Option<i32>,
    pub parent_station: Option<String>,
}

/// A stop area, as it is indexed (its coordinates are kept beside it by
/// the caller); its weight is of a type chosen by the user.
#[derive(Debug, Clone)]
pub struct Stop<W> {
    pub id: String,
    pub label: String,
    pub name: String,
    pub administrative_regions: Vec<Admin<W>>,
    pub weight: W,
    pub zip_codes: Vec<String>,
    pub commercial_modes: Vec<CommercialMode>,
    pub physical_modes: Vec<PhysicalMode>,
    pub coverages: Vec<String>,
    pub comments: Vec<Comment>,
    pub timezone: String,
    pub codes: Vec<(String, String)>,
    pub properties: Vec<(String, String)>,
    pub feed_publishers: Vec<FeedPublisher>,
    /// Distance to the point of a query, filled in by searches.
    pub distance: Option<u32>,
    pub lines: Vec<Line>,
    pub country_codes: Vec<String>,
    pub autocomplete_visible: bool,
}

/// Every field of the stop but its identifier, label, name and weight is
/// empty: no regions, modes, lines, codes or comments, no time zone, and
/// not visible in autocompletion.
pub open spec fn bare_stop<W>(s: Stop<W>) -> bool {
    &&& s.administrative_regions@.len() == 0
    &&& s.zip_codes@.len() == 0
    &&& s.commercial_modes@.len() == 0
    &&& s.physical_modes@.len() == 0
    &&& s.coverages@.len() == 0
    &&& s.comments@.len() == 0
    &&& s.timezone@.len() == 0
    &&& s.codes@.len() == 0
    &&& s.properties@.len() == 0
    &&& s.feed_publishers@.len() == 0
    &&& s.distance is None
    &&& s.lines@.len() == 0
    &&& s.country_codes@.len() == 0
    &&& !s.autocomplete_visible
}

/// A stop with the given identifier, label, name and weight, and nothing
/// else (see `bare_stop`).
pub fn new_stop<W>(id: String, label: String, name: String, weight: W) -> (s: Stop<W>)
    ensures
        s.id == id,
        s.label == label,
        s.name == name,
        s.weight == weight,
        bare_stop(s),
{
    Stop {
        id,
        label,
        name,
        administrative_regions: Vec::new(),
        weight,
        zip_codes: Vec::new(),
        commercial_modes: Vec::new(),
        physical_modes: Vec::new(),
        coverages: Vec::new(),
        comments: Vec::new(),
        timezone: String::new(),
        codes: Vec::new(),
        properties: Vec::new(),
        feed_publishers: Vec::new(),
        distance: None,
        lines: Vec::new(),
        country_codes: Vec::new(),
        autocomplete_visible: false,
    }
}

/// The number of stop points of a stop area.
#[derive(Debug, Clone)]
pub struct StopPointCount {
    pub id: String,
    pub count: u32,
}

impl Incr for StopPointCount {
    open spec fn key(&self) -> Seq<char> {
        self.id@
    }

    open spec fn count(&self) -> nat {
        self.count as nat
    }

    open spec fn bumped(&self) -> Self {
        StopPointCount { count: (self.count + 1) as u32, ..*self }
    }

    fn id(&self) -> (r: &str) {
        self.id.as_str()
    }

    fn incr(&mut self) {
        self.count = self.count + 1;
    }

    fn duplicate(&self) -> (r: Self) {
        StopPointCount { id: self.id.clone(), count: self.count }
    }
}

/// The identifier of a stop area, with the prefix used by navitia.
pub open spec fn stop_area_id(id: Seq<char>) -> Seq<char> {
    "stop_area:"@ + id
}

/// The stop area a line counts a stop point for: its parent station, when
/// the line is a stop point (location type 0 or none) with a non-empty one.
pub open spec fn counted_parent(s: GtfsStop) -> Option<Seq<char>> {
    match s.parent_station {
        Some(p) => if (s.location_type == Some(0i32) || s.location_type is None) && p@.len() > 0 {
            Some(stop_area_id(p@))
        } else {
            None
        },
        None => None,
    }
}

impl GtfsStop {
    /// Counts the line as a stop point of its parent station (see `counted_parent`).
    pub fn incr_stop_point(&self, nb_stop_points: &mut Vec<StopPointCount>)
        requires
            keys_unique(old(nb_stop_points)@),
            counted_parent(*self) matches Some(k) ==> (key_position(old(nb_stop_points)@, k) matches Some(
                i,
            ) ==> old(nb_stop_points)@[i].count() < u32::MAX),
        ensures
            keys_unique(final(nb_stop_points)@),
            match counted_parent(*self) {
                None => counted(final(nb_stop_points)@) == counted(old(nb_stop_points)@),
                Some(k) => match key_position(old(nb_stop_points)@, k) {
                    Some(i) => counted(final(nb_stop_points)@) == counted(old(nb_stop_points)@).update(
                        i,
                        (k, old(nb_stop_points)@[i].count() + 1),
                    ),
                    None => counted(final(nb_stop_points)@) == counted(old(nb_stop_points)@).push((k, 1)),
                },
            },
    {
        let lt_ok = match self.location_type {
            Some(t) => t == 0,
            None => true,
        };
        match &self.parent_station {
            Some(p) => {
                if lt_ok && !p.as_str().is_empty() {
                    let mut id = "stop_area:".to_owned();
                    push_all(&mut id, p.as_str());
                    let entry = StopPointCount { id, count: 1 };
                    upsert(&entry, nb_stop_points);
                }
            },
            None => {},
        }
    }

    /// The stop area of a line, of weight `zero`: only lines of location
    /// type 1 are stop areas; hidden ones (visible = 0) and those whose
    /// coordinates are out of range (as the caller tells) are refused.
    pub fn try_into<W>(self, coord_in_range: bool, zero: W) -> (r: Result<Stop<W>, StopConversionErr>)
        ensures
            match r {
                Ok(s) => self.location_type == Some(1i32) && self.visible != Some(0i32) && coord_in_range
                    && s.id@ == stop_area_id(self.stop_id@) && s.label == self.stop_name && s.name
                    == self.stop_name && s.weight == zero && bare_stop(s),
                Err(StopConversionErr::NotStopArea) => self.location_type != Some(1i32),
                Err(StopConversionErr::InvisibleStop) => self.location_type == Some(1i32) && self.visible
                    == Some(0i32),
                Err(StopConversionErr::InvalidStop) => self.location_type == Some(1i32) && self.visible
                    != Some(0i32) && !coord_in_range,
            },
    {
        let is_area = match self.location_type {
            Some(t) => t == 1,
            None => false,
        };
        let hidden = match self.visible {
            Some(v) => v == 0,
            None => false,
        };
        if !is_area {
            Err(StopConversionErr::NotStopArea)
        } else if hidden {
            Err(StopConversionErr::InvisibleStop)
        } else if !coord_in_range {
            Err(StopConversionErr::InvalidStop)
        } else {
            let mut id = "stop_area:".to_owned();
            push_all(&mut id, self.stop_id.as_str());
            Ok(new_stop(id, self.stop_name.clone(), self.stop_name, zero))
        }
    }

    /// The stop area of a line, when it gives one (see `try_into`).
    pub fn try_into_with_warn<W>(self, coord_in_range: bool, zero: W) -> (r: Option<Stop<W>>)
        ensures
            match r {
                Some(s) => self.location_type == Some(1i32) && self.visible != Some(0i32) && coord_in_range
                    && s.id@ == stop_area_id(self.stop_id@) && s.label == self.stop_name && s.name
                    == self.stop_name && s.weight == zero && bare_stop(s),
                None => !(self.location_type == Some(1i32) && self.visible != Some(0i32) && coord_in_range),
            },
    {
        match self.try_into(coord_in_range, zero) {
            Ok(s) => Some(s),
            Err(_) => None,
        }
    }
}

} // verus!
