# mimirsbrunn

Data preparation for a geocoder: the rules that turn OpenStreetMap objects,
BANO and OpenAddresses records, cosmogony zones, GTFS stops and NTFS stop
areas into the places of a search index (administrative regions, streets,
addresses, points of interest, stop areas), written in Verus with their
contracts.

- `src/` — the library, verified:
  - `admin_geofinder`: which regions a point belongs to, and the laws of that choice;
  - `boundaries`: rings of an administrative boundary from its member ways;
  - `streets`: streets from relations and from named ways grouped by name and cities;
  - `poi`: recognizing points of interest from tags, and building them;
  - `addresses`, `zones`, `stops`: BANO/OpenAddresses records, cosmogony zones, GTFS stops;
  - `transit`: stops from NTFS stop areas, their lines sorted in human order (through `human-sort`);
  - `labels`: `name (city)` labels and address short forms (through `address-formatter`);
  - `osm`, `osm_reader`, `places`, `text`, `order`, `rubber`, `settings`: the data model and helpers.
- `app/` — what surrounds it: reading `osmpbfreader` objects, geometry with
  `geo` and `rstar`, NTFS data with `transit_model`, address files with `csv`
  and `flate2`, configuration files with
  `serde` and `config`, the command line with `clap`.
- `tests/` — tests of the library on concrete values.
