//! The layout of a record as a table, and the table as JSON for loaders in
//! other languages.

use crate::codec::{
    AT_AGE1, AT_AGE2, AT_BUILDINGS_UP, AT_CHICHEN, AT_GEARS, AT_MONUMENTS, AT_MONUMENTS_UP,
    AT_PALENQUE, AT_RESEARCH, AT_REST, AT_TEMPLES, AT_WORKERS, PLAYER_BYTES, STATE_BYTES,
};
use crate::ids::MAX_GEAR_SPACES;
use crate::record::{FORMAT_VERSION, HEADER_BYTES, MAX_VISITS, RECORD_BYTES, STATE_SLOT};
use crate::text::{digits, push_number};
use vstd::prelude::*;
use vstd::string::*;

verus! {

/// What a field is made of.
#[derive(Clone, Copy, PartialEq, Eq, Structural)]
pub enum Dtype {
    /// Unsigned, of one, two, four or eight bytes.
    U1,
    U2,
    U4,
    U8,
    /// Signed, of two bytes.
    I2,
    /// Fractional, of four bytes.
    F4,
}

impl Dtype {
    /// The type's name.
    pub open spec fn text(self) -> Seq<char> {
        match self {
            Dtype::U1 => "u1"@,
            Dtype::U2 => "u2"@,
            Dtype::U4 => "u4"@,
            Dtype::U8 => "u8"@,
            Dtype::I2 => "i2"@,
            Dtype::F4 => "f4"@,
        }
    }

    /// The type's name.
    pub fn name(self) -> (s: &'static str)
        ensures
            s@ == self.text(),
    {
        match self {
            Dtype::U1 => "u1",
            Dtype::U2 => "u2",
            Dtype::U4 => "u4",
            Dtype::U8 => "u8",
            Dtype::I2 => "i2",
            Dtype::F4 => "f4",
        }
    }
}

/// A field of a layout.
pub struct Field {
    pub name: &'static str,
    pub offset: usize,
    pub dtype: Dtype,
    pub count: usize,
}

impl Field {
    /// Where the field ends.
    pub open spec fn end(self) -> int {
        match self.dtype {
            Dtype::U1 => self.offset + self.count,
            Dtype::U2 | Dtype::I2 => self.offset + 2 * self.count,
            Dtype::U4 | Dtype::F4 => self.offset + 4 * self.count,
            Dtype::U8 => self.offset + 8 * self.count,
        }
    }
}

/// Whether a field is as described.
pub open spec fn is_field(f: Field, name: Seq<char>, offset: int, dtype: Dtype, count: int) -> bool {
    f.name@ == name && f.offset == offset && f.dtype == dtype && f.count == count
}

/// The fields of a position.
pub open spec fn is_state_layout(v: Seq<Field>) -> bool {
    &&& v.len() == 23
    &&& is_field(v[0], "players"@, 0, Dtype::U1, 76)
    &&& is_field(v[1], "workers"@, AT_WORKERS as int, Dtype::U1, 48)
    &&& is_field(v[2], "gears"@, AT_GEARS as int, Dtype::U1, 55)
    &&& is_field(v[3], "temples"@, AT_TEMPLES as int, Dtype::U1, 12)
    &&& is_field(v[4], "research"@, AT_RESEARCH as int, Dtype::U1, 16)
    &&& is_field(v[5], "palenque"@, AT_PALENQUE as int, Dtype::U1, 16)
    &&& is_field(v[6], "chichen_filled"@, AT_CHICHEN as int, Dtype::U2, 1)
    &&& is_field(v[7], "age1_ids"@, AT_AGE1 as int, Dtype::U1, 14)
    &&& is_field(v[8], "age1_next"@, AT_AGE1 + 14, Dtype::U1, 1)
    &&& is_field(v[9], "age2_ids"@, AT_AGE2 as int, Dtype::U1, 18)
    &&& is_field(v[10], "age2_next"@, AT_AGE2 + 18, Dtype::U1, 1)
    &&& is_field(v[11], "monument_ids"@, AT_MONUMENTS as int, Dtype::U1, 13)
    &&& is_field(v[12], "monument_next"@, AT_MONUMENTS + 13, Dtype::U1, 1)
    &&& is_field(v[13], "buildings_up"@, AT_BUILDINGS_UP as int, Dtype::U1, 6)
    &&& is_field(v[14], "monuments_up"@, AT_MONUMENTS_UP as int, Dtype::U1, 6)
    &&& is_field(v[15], "first_player_space"@, AT_REST as int, Dtype::U1, 1)
    &&& is_field(v[16], "accumulated_corn"@, AT_REST + 1, Dtype::U1, 1)
    &&& is_field(v[17], "skulls_remaining"@, AT_REST + 2, Dtype::U1, 1)
    &&& is_field(v[18], "current"@, AT_REST + 3, Dtype::U1, 1)
    &&& is_field(v[19], "first_player"@, AT_REST + 4, Dtype::U1, 1)
    &&& is_field(v[20], "age"@, AT_REST + 5, Dtype::U1, 1)
    &&& is_field(v[21], "day"@, AT_REST + 6, Dtype::U1, 1)
    &&& is_field(v[22], "over"@, AT_REST + 7, Dtype::U1, 1)
}

/// The fields of a record.
pub open spec fn is_record_layout(v: Seq<Field>) -> bool {
    &&& v.len() == 21
    &&& is_field(v[0], "state"@, 0, Dtype::U1, STATE_SLOT as int)
    &&& is_field(v[1], "game_id"@, 320, Dtype::U8, 1)
    &&& is_field(v[2], "node"@, 328, Dtype::U2, 1)
    &&& is_field(v[3], "turn"@, 330, Dtype::U1, 1)
    &&& is_field(v[4], "mover"@, 331, Dtype::U1, 1)
    &&& is_field(v[5], "phase_tag"@, 332, Dtype::U1, 1)
    &&& is_field(v[6], "phase_args"@, 333, Dtype::U1, 5)
    &&& is_field(v[7], "policy_kind"@, 338, Dtype::U1, 1)
    &&& is_field(v[8], "flags"@, 339, Dtype::U1, 1)
    &&& is_field(v[9], "n_edges"@, 340, Dtype::U2, 1)
    &&& is_field(v[10], "n_visit_pairs"@, 342, Dtype::U2, 1)
    &&& is_field(v[11], "total_visits"@, 344, Dtype::U4, 1)
    &&& is_field(v[12], "visits"@, 348, Dtype::U2, 48)
    &&& is_field(v[13], "policy_weight"@, 444, Dtype::F4, 1)
    &&& is_field(v[14], "day"@, 448, Dtype::U2, 1)
    &&& is_field(v[15], "temperature_x100"@, 450, Dtype::U1, 1)
    &&& is_field(v[16], "final_scores"@, 452, Dtype::I2, 4)
    &&& is_field(v[17], "z_rel"@, 460, Dtype::F4, 4)
    &&& is_field(v[18], "win_share"@, 476, Dtype::F4, 4)
    &&& is_field(v[19], "root_value"@, 492, Dtype::F4, 4)
    &&& is_field(v[20], "rules_version"@, 508, Dtype::U4, 1)
}

/// A position's fields follow one another without gaps and fill its bytes.
pub proof fn state_layout_is_tight(v: Seq<Field>)
    requires
        is_state_layout(v),
    ensures
        v[0].offset == 0,
        forall|i: int| 0 <= i < 22 ==> (#[trigger] v[i]).end() == v[i + 1].offset,
        v[22].end() == STATE_BYTES,
{
    assert(v[0].end() == v[1].offset);
    assert(v[1].end() == v[2].offset);
    assert(v[2].end() == v[3].offset);
    assert(v[3].end() == v[4].offset);
    assert(v[4].end() == v[5].offset);
    assert(v[5].end() == v[6].offset);
    assert(v[6].end() == v[7].offset);
    assert(v[7].end() == v[8].offset);
    assert(v[8].end() == v[9].offset);
    assert(v[9].end() == v[10].offset);
    assert(v[10].end() == v[11].offset);
    assert(v[11].end() == v[12].offset);
    assert(v[12].end() == v[13].offset);
    assert(v[13].end() == v[14].offset);
    assert(v[14].end() == v[15].offset);
    assert(v[15].end() == v[16].offset);
    assert(v[16].end() == v[17].offset);
    assert(v[17].end() == v[18].offset);
    assert(v[18].end() == v[19].offset);
    assert(v[19].end() == v[20].offset);
    assert(v[20].end() == v[21].offset);
    assert(v[21].end() == v[22].offset);
}

/// A record's fields follow one another, with one byte left free, and fill it.
pub proof fn record_layout_is_tight(v: Seq<Field>)
    requires
        is_record_layout(v),
    ensures
        v[0].offset == 0,
        forall|i: int| 0 <= i < 20 && i != 15 ==> (#[trigger] v[i]).end() == v[i + 1].offset,
        v[15].end() + 1 == v[16].offset,
        v[20].end() == RECORD_BYTES,
{
    assert(v[0].end() == v[1].offset);
    assert(v[1].end() == v[2].offset);
    assert(v[2].end() == v[3].offset);
    assert(v[3].end() == v[4].offset);
    assert(v[4].end() == v[5].offset);
    assert(v[5].end() == v[6].offset);
    assert(v[6].end() == v[7].offset);
    assert(v[7].end() == v[8].offset);
    assert(v[8].end() == v[9].offset);
    assert(v[9].end() == v[10].offset);
    assert(v[10].end() == v[11].offset);
    assert(v[11].end() == v[12].offset);
    assert(v[12].end() == v[13].offset);
    assert(v[13].end() == v[14].offset);
    assert(v[14].end() == v[15].offset);
    assert(v[16].end() == v[17].offset);
    assert(v[17].end() == v[18].offset);
    assert(v[18].end() == v[19].offset);
    assert(v[19].end() == v[20].offset);
}

fn field(name: &'static str, offset: usize, dtype: Dtype, count: usize) -> (f: Field)
    ensures
        is_field(f, name@, offset as int, dtype, count as int),
{
    Field { name, offset, dtype, count }
}

/// The fields of a position, in order.
pub fn state_fields() -> (v: Vec<Field>)
    ensures
        is_state_layout(v@),
{
    let mut v: Vec<Field> = Vec::new();
    v.push(field("players", 0, Dtype::U1, 76));
    v.push(field("workers", AT_WORKERS, Dtype::U1, 48));
    v.push(field("gears", AT_GEARS, Dtype::U1, 55));
    v.push(field("temples", AT_TEMPLES, Dtype::U1, 12));
    v.push(field("research", AT_RESEARCH, Dtype::U1, 16));
    v.push(field("palenque", AT_PALENQUE, Dtype::U1, 16));
    v.push(field("chichen_filled", AT_CHICHEN, Dtype::U2, 1));
    v.push(field("age1_ids", AT_AGE1, Dtype::U1, 14));
    v.push(field("age1_next", AT_AGE1 + 14, Dtype::U1, 1));
    v.push(field("age2_ids", AT_AGE2, Dtype::U1, 18));
    v.push(field("age2_next", AT_AGE2 + 18, Dtype::U1, 1));
    v.push(field("monument_ids", AT_MONUMENTS, Dtype::U1, 13));
    v.push(field("monument_next", AT_MONUMENTS + 13, Dtype::U1, 1));
    v.push(field("buildings_up", AT_BUILDINGS_UP, Dtype::U1, 6));
    v.push(field("monuments_up", AT_MONUMENTS_UP, Dtype::U1, 6));
    v.push(field("first_player_space", AT_REST, Dtype::U1, 1));
    v.push(field("accumulated_corn", AT_REST + 1, Dtype::U1, 1));
    v.push(field("skulls_remaining", AT_REST + 2, Dtype::U1, 1));
    v.push(field("current", AT_REST + 3, Dtype::U1, 1));
    v.push(field("first_player", AT_REST + 4, Dtype::U1, 1));
    v.push(field("age", AT_REST + 5, Dtype::U1, 1));
    v.push(field("day", AT_REST + 6, Dtype::U1, 1));
    v.push(field("over", AT_REST + 7, Dtype::U1, 1));
    v
}

/// The fields of a record, in order.
pub fn record_fields() -> (v: Vec<Field>)
    ensures
        is_record_layout(v@),
{
    let mut v: Vec<Field> = Vec::new();
    v.push(field("state", 0, Dtype::U1, STATE_SLOT));
    v.push(field("game_id", 320, Dtype::U8, 1));
    v.push(field("node", 328, Dtype::U2, 1));
    v.push(field("turn", 330, Dtype::U1, 1));
    v.push(field("mover", 331, Dtype::U1, 1));
    v.push(field("phase_tag", 332, Dtype::U1, 1));
    v.push(field("phase_args", 333, Dtype::U1, 5));
    v.push(field("policy_kind", 338, Dtype::U1, 1));
    v.push(field("flags", 339, Dtype::U1, 1));
    v.push(field("n_edges", 340, Dtype::U2, 1));
    v.push(field("n_visit_pairs", 342, Dtype::U2, 1));
    v.push(field("total_visits", 344, Dtype::U4, 1));
    v.push(field("visits", 348, Dtype::U2, 48));
    v.push(field("policy_weight", 444, Dtype::F4, 1));
    v.push(field("day", 448, Dtype::U2, 1));
    v.push(field("temperature_x100", 450, Dtype::U1, 1));
    v.push(field("final_scores", 452, Dtype::I2, 4));
    v.push(field("z_rel", 460, Dtype::F4, 4));
    v.push(field("win_share", 476, Dtype::F4, 4));
    v.push(field("root_value", 492, Dtype::F4, 4));
    v.push(field("rules_version", 508, Dtype::U4, 1));
    v
}

// ---- as JSON -------------------------------------------------------------

/// A field as a JSON object.
pub open spec fn field_text(f: Field) -> Seq<char> {
    "    {\"name\": \""@ + f.name@ + "\", \"offset\": "@ + digits(f.offset as nat)
        + ", \"dtype\": \""@ + f.dtype.text() + "\", \"count\": "@ + digits(f.count as nat) + "}"@
}

/// Fields as JSON objects with commas between them.
pub open spec fn fields_text(v: Seq<Field>) -> Seq<char>
    decreases v.len(),
{
    if v.len() == 0 {
        Seq::empty()
    } else if v.len() == 1 {
        field_text(v[0])
    } else {
        fields_text(v.drop_last()) + ",\n"@ + field_text(v.last())
    }
}

/// A numeric entry of a JSON object.
pub open spec fn entry_text(name: Seq<char>, n: nat) -> Seq<char> {
    "  \""@ + name + "\": "@ + digits(n) + ",\n"@
}

/// What the payload bytes of each phase mean.
pub open spec fn phases_text() -> Seq<char> {
    "  \"phase_args\": {\n"@ + "    \"0\": {\"name\": \"Beg\", \"args\": []},\n"@
        + "    \"1\": {\"name\": \"Mode\", \"args\": []},\n"@
        + "    \"2\": {\"name\": \"Placing\", \"args\": [{\"byte\": 0, \"name\": \"n_placed\"}]},\n"@
        + "    \"3\": {\"name\": \"PickWorker\", \"args\": [{\"byte\": 0, \"name\": \"retrieved_so_far\"}]},\n"@
        + "    \"4\": {\"name\": \"Take\", \"args\": [{\"byte\": 0, \"name\": \"worker_id\"}]},\n"@
        + "    \"5\": {\"name\": \"ExtraDay\", \"args\": [{\"byte\": 0, \"name\": \"claimer\"}]},\n"@
        + "    \"6\": {\"name\": \"PityPlace\", \"args\": []},\n"@
        + "    \"7\": {\"name\": \"DraftTile\", \"args\": [{\"byte\": 0, \"name\": \"dealt\", \"count\": 4},\n"@
        + "                                        {\"byte\": 4, \"name\": \"kept\"}]}\n"@
        + "  },\n"@
}

/// The numbers at the head of the schema.
pub open spec fn sizes_text(rules_version: u32) -> Seq<char> {
    entry_text("header_bytes"@, HEADER_BYTES as nat) + entry_text(
        "record_bytes"@,
        RECORD_BYTES as nat,
    ) + entry_text("state_slot"@, STATE_SLOT as nat) + entry_text("state_bytes"@, STATE_BYTES as nat)
        + entry_text("n_players"@, 4) + entry_text("max_visits"@, MAX_VISITS as nat) + entry_text(
        "rules_version"@,
        rules_version as nat,
    ) + entry_text("player_bytes"@, PLAYER_BYTES as nat) + entry_text(
        "max_gear_spaces"@,
        MAX_GEAR_SPACES as nat,
    )
}

/// The layout as JSON, given the fields of a record and of a position.
pub open spec fn schema_text(
    rules_version: u32,
    record: Seq<Field>,
    state: Seq<Field>,
) -> Seq<char> {
    "{\n"@ + entry_text("format_version"@, FORMAT_VERSION as nat)
        + "  \"magic\": \"TZZR\",\n  \"endian\": \"little\",\n"@ + sizes_text(rules_version)
        + phases_text() + "  \"record_fields\": [\n"@ + fields_text(record)
        + "\n  ],\n  \"state_fields\": [\n"@ + fields_text(state) + "\n  ]\n}\n"@
}

fn push_field(s: &mut String, f: &Field)
    ensures
        final(s)@ == old(s)@ + field_text(*f),
{
    s.append("    {\"name\": \"");
    s.append(f.name);
    s.append("\", \"offset\": ");
    push_number(s, f.offset as u64);
    s.append(", \"dtype\": \"");
    s.append(f.dtype.name());
    s.append("\", \"count\": ");
    push_number(s, f.count as u64);
    s.append("}");
    assert(s@ =~= old(s)@ + field_text(*f));
}

fn push_fields(s: &mut String, v: &Vec<Field>)
    ensures
        final(s)@ == old(s)@ + fields_text(v@),
{
    let mut i: usize = 0;
    assert(s@ =~= old(s)@ + fields_text(v@.take(0)));
    while i < v.len()
        invariant
            i <= v@.len(),
            s@ == old(s)@ + fields_text(v@.take(i as int)),
        decreases v@.len() - i,
    {
        let ghost t = v@.take(i + 1);
        assert(t.drop_last() =~= v@.take(i as int));
        let ghost s1 = s@;
        if i > 0 {
            s.append(",\n");
        }
        push_field(s, &v[i]);
        assert(s@ =~= old(s)@ + fields_text(t));
        i += 1;
    }
    assert(v@.take(v@.len() as int) =~= v@);
}

fn push_entry(s: &mut String, name: &str, n: u64)
    ensures
        final(s)@ == old(s)@ + entry_text(name@, n as nat),
{
    s.append("  \"");
    s.append(name);
    s.append("\": ");
    push_number(s, n);
    s.append(",\n");
    assert(s@ =~= old(s)@ + entry_text(name@, n as nat));
}

fn push_sizes(s: &mut String, rules_version: u32)
    ensures
        final(s)@ == old(s)@ + sizes_text(rules_version),
{
    push_entry(s, "header_bytes", HEADER_BYTES as u64);
    push_entry(s, "record_bytes", RECORD_BYTES as u64);
    push_entry(s, "state_slot", STATE_SLOT as u64);
    push_entry(s, "state_bytes", STATE_BYTES as u64);
    push_entry(s, "n_players", 4);
    push_entry(s, "max_visits", MAX_VISITS as u64);
    push_entry(s, "rules_version", rules_version as u64);
    push_entry(s, "player_bytes", PLAYER_BYTES as u64);
    push_entry(s, "max_gear_spaces", MAX_GEAR_SPACES as u64);
    assert(s@ =~= old(s)@ + sizes_text(rules_version));
}

fn push_phases(s: &mut String)
    ensures
        final(s)@ == old(s)@ + phases_text(),
{
    s.append("  \"phase_args\": {\n");
    s.append("    \"0\": {\"name\": \"Beg\", \"args\": []},\n");
    s.append("    \"1\": {\"name\": \"Mode\", \"args\": []},\n");
    s.append("    \"2\": {\"name\": \"Placing\", \"args\": [{\"byte\": 0, \"name\": \"n_placed\"}]},\n");
    s.append("    \"3\": {\"name\": \"PickWorker\", \"args\": [{\"byte\": 0, \"name\": \"retrieved_so_far\"}]},\n");
    s.append("    \"4\": {\"name\": \"Take\", \"args\": [{\"byte\": 0, \"name\": \"worker_id\"}]},\n");
    s.append("    \"5\": {\"name\": \"ExtraDay\", \"args\": [{\"byte\": 0, \"name\": \"claimer\"}]},\n");
    s.append("    \"6\": {\"name\": \"PityPlace\", \"args\": []},\n");
    s.append("    \"7\": {\"name\": \"DraftTile\", \"args\": [{\"byte\": 0, \"name\": \"dealt\", \"count\": 4},\n");
    s.append("                                        {\"byte\": 4, \"name\": \"kept\"}]}\n");
    s.append("  },\n");
    assert(s@ =~= old(s)@ + phases_text());
}

/// The on-disk layout as JSON, so that a loader never types the table again.
pub fn schema_json(rules_version: u32) -> (s: String)
    ensures
        exists|record: Seq<Field>, state: Seq<Field>|
            is_record_layout(record) && is_state_layout(state) && s@ == #[trigger] schema_text(
                rules_version,
                record,
                state,
            ),
{
    let record = record_fields();
    let state = state_fields();
    let mut s = String::new();
    s.append("{\n");
    push_entry(&mut s, "format_version", FORMAT_VERSION as u64);
    s.append("  \"magic\": \"TZZR\",\n  \"endian\": \"little\",\n");
    push_sizes(&mut s, rules_version);
    push_phases(&mut s);
    s.append("  \"record_fields\": [\n");
    push_fields(&mut s, &record);
    s.append("\n  ],\n  \"state_fields\": [\n");
    push_fields(&mut s, &state);
    s.append("\n  ]\n}\n");
    assert(s@ =~= schema_text(rules_version, record@, state@));
    s
}

} // verus!
