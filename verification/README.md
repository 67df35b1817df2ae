# sunspec-gen

Resolution of SunSpec model schemas into the flattened, named form from which
a Modbus register-map generator emits code, verified with Verus.

- `schema`: the schema types (points, groups, models) and the conditions
  under which resolution's arithmetic fits.
- `point`: point types, point names, documentation, value sources and enums.
- `group`: group resolution: fixed subgroups folded into their parent,
  repeating subgroups found through their count points, enums bubbled up,
  sorted and deduplicated.
- `model`: whole-model resolution, name registration, renaming of the
  resolved tree with deduplicated names, and count-point collection.
- `properties`: laws of resolution, proved over the specifications above.
- `text`, `naming`, `resolved`, `case`, `modbus`: text helpers, names and
  their deduplication, the resolved types, letter-case conversion (through
  `heck`) and Modbus exception codes.
