//! Recognising the parameter types of observer and rewriter methods by
//! their token text.
use vstd::prelude::*;
use crate::text::text_eq;

verus! {

/// Whether `v` is the text of a reference to the parser context.
pub open spec fn context_type_text(v: Seq<char>) -> bool {
    v == "& :: source2_demo :: Context"@
        || v == "& source2_demo :: Context"@
        || v == "& Context"@
}

/// Whether `value` is the token text of a reference to the parser context.
pub fn is_context_type(value: &str) -> (r: bool)
    ensures
        r == context_type_text(value@),
{
    text_eq(value, "& :: source2_demo :: Context")
        || text_eq(value, "& source2_demo :: Context")
        || text_eq(value, "& Context")
}

/// Whether `v` is the text of a reference to an entity.
pub open spec fn entity_type_text(v: Seq<char>) -> bool {
    v == "& :: source2_demo :: Entity"@
        || v == "& source2_demo :: Entity"@
        || v == "& Entity"@
}

/// Whether `value` is the token text of a reference to an entity.
pub fn is_entity_type(value: &str) -> (r: bool)
    ensures
        r == entity_type_text(value@),
{
    text_eq(value, "& :: source2_demo :: Entity")
        || text_eq(value, "& source2_demo :: Entity")
        || text_eq(value, "& Entity")
}

/// Whether `v` is the text of an entity event kind.
pub open spec fn entity_events_type_text(v: Seq<char>) -> bool {
    v == ":: source2_demo :: EntityEvents"@
        || v == "source2_demo :: EntityEvents"@
        || v == "EntityEvents"@
}

/// Whether `value` is the token text of an entity event kind.
pub fn is_entity_events_type(value: &str) -> (r: bool)
    ensures
        r == entity_events_type_text(value@),
{
    text_eq(value, ":: source2_demo :: EntityEvents")
        || text_eq(value, "source2_demo :: EntityEvents")
        || text_eq(value, "EntityEvents")
}

/// Whether `v` is the text of a reference to an entity event kind.
pub open spec fn entity_events_ref_type_text(v: Seq<char>) -> bool {
    v == "& :: source2_demo :: EntityEvents"@
        || v == "& source2_demo :: EntityEvents"@
        || v == "& EntityEvents"@
}

/// Whether `value` is the token text of a reference to an entity event kind.
pub fn is_entity_events_ref_type(value: &str) -> (r: bool)
    ensures
        r == entity_events_ref_type_text(value@),
{
    text_eq(value, "& :: source2_demo :: EntityEvents")
        || text_eq(value, "& source2_demo :: EntityEvents")
        || text_eq(value, "& EntityEvents")
}

/// Whether `v` is the text of a reference to a game event.
pub open spec fn game_event_type_text(v: Seq<char>) -> bool {
    v == "& :: source2_demo :: GameEvent"@
        || v == "& source2_demo :: GameEvent"@
        || v == "& GameEvent"@
}

/// Whether `value` is the token text of a reference to a game event.
pub fn is_game_event_type(value: &str) -> (r: bool)
    ensures
        r == game_event_type_text(value@),
{
    text_eq(value, "& :: source2_demo :: GameEvent")
        || text_eq(value, "& source2_demo :: GameEvent")
        || text_eq(value, "& GameEvent")
}

/// Whether `v` is the text of a reference to a string table.
pub open spec fn string_table_type_text(v: Seq<char>) -> bool {
    v == "& :: source2_demo :: StringTable"@
        || v == "& source2_demo :: StringTable"@
        || v == "& StringTable"@
}

/// Whether `value` is the token text of a reference to a string table.
pub fn is_string_table_type(value: &str) -> (r: bool)
    ensures
        r == string_table_type_text(value@),
{
    text_eq(value, "& :: source2_demo :: StringTable")
        || text_eq(value, "& source2_demo :: StringTable")
        || text_eq(value, "& StringTable")
}

/// Whether `v` is the text of a slice of modified string table indices.
pub open spec fn modified_indices_type_text(v: Seq<char>) -> bool {
    v == "& [i32]"@
}

/// Whether `value` is the token text of a slice of modified string table indices.
pub fn is_modified_indices_type(value: &str) -> (r: bool)
    ensures
        r == modified_indices_type_text(value@),
{
    text_eq(value, "& [i32]")
}

/// Whether `v` is the text of a slice of field paths.
pub open spec fn field_paths_type_text(v: Seq<char>) -> bool {
    v == "& [:: source2_demo :: FieldPath]"@
        || v == "& [source2_demo :: FieldPath]"@
        || v == "& [FieldPath]"@
        || v == "& [:: source2_demo :: entity :: field :: FieldPath]"@
        || v == "& [source2_demo :: entity :: field :: FieldPath]"@
}

/// Whether `value` is the token text of a slice of field paths.
pub fn is_field_paths_type(value: &str) -> (r: bool)
    ensures
        r == field_paths_type_text(value@),
{
    text_eq(value, "& [:: source2_demo :: FieldPath]")
        || text_eq(value, "& [source2_demo :: FieldPath]")
        || text_eq(value, "& [FieldPath]")
        || text_eq(value, "& [:: source2_demo :: entity :: field :: FieldPath]")
        || text_eq(value, "& [source2_demo :: entity :: field :: FieldPath]")
}

/// Whether `v` is the text of a reference to a combat log entry.
pub open spec fn combat_log_type_text(v: Seq<char>) -> bool {
    v == "& :: source2_demo :: CombatLogEntry"@
        || v == "& source2_demo :: CombatLogEntry"@
        || v == "& CombatLogEntry"@
}

/// Whether `value` is the token text of a reference to a combat log entry.
pub fn is_combat_log_type(value: &str) -> (r: bool)
    ensures
        r == combat_log_type_text(value@),
{
    text_eq(value, "& :: source2_demo :: CombatLogEntry")
        || text_eq(value, "& source2_demo :: CombatLogEntry")
        || text_eq(value, "& CombatLogEntry")
}

/// Whether `v` is the text of a reference to a field value.
pub open spec fn field_value_ref_type_text(v: Seq<char>) -> bool {
    v == "& :: source2_demo :: FieldValue"@
        || v == "& source2_demo :: FieldValue"@
        || v == "& FieldValue"@
}

/// Whether `value` is the token text of a reference to a field value.
pub fn is_field_value_ref_type(value: &str) -> (r: bool)
    ensures
        r == field_value_ref_type_text(value@),
{
    text_eq(value, "& :: source2_demo :: FieldValue")
        || text_eq(value, "& source2_demo :: FieldValue")
        || text_eq(value, "& FieldValue")
}

/// Whether `v` is the text of a field value.
pub open spec fn field_value_type_text(v: Seq<char>) -> bool {
    v == ":: source2_demo :: FieldValue"@
        || v == "source2_demo :: FieldValue"@
        || v == "FieldValue"@
}

/// Whether `value` is the token text of a field value.
pub fn is_field_value_type(value: &str) -> (r: bool)
    ensures
        r == field_value_type_text(value@),
{
    text_eq(value, ":: source2_demo :: FieldValue")
        || text_eq(value, "source2_demo :: FieldValue")
        || text_eq(value, "FieldValue")
}

/// Whether `v` is the text of a field value or a reference to one.
pub open spec fn raw_field_value_type_text(v: Seq<char>) -> bool {
    field_value_ref_type_text(v)
        || field_value_type_text(v)
}

/// Whether `value` is the token text of a field value or a reference to one.
pub fn is_raw_field_value_type(value: &str) -> (r: bool)
    ensures
        r == raw_field_value_type_text(value@),
{
    is_field_value_ref_type(value)
        || is_field_value_type(value)
}

/// Whether `v` is the text of the demo command enum.
pub open spec fn demo_command_type_text(v: Seq<char>) -> bool {
    v == ":: source2_demo :: proto :: EDemoCommands"@
        || v == "source2_demo :: proto :: EDemoCommands"@
        || v == "EDemoCommands"@
}

/// Whether `value` is the token text of the demo command enum.
pub fn is_demo_command_type(value: &str) -> (r: bool)
    ensures
        r == demo_command_type_text(value@),
{
    text_eq(value, ":: source2_demo :: proto :: EDemoCommands")
        || text_eq(value, "source2_demo :: proto :: EDemoCommands")
        || text_eq(value, "EDemoCommands")
}

/// Whether `v` is the text of one of the message enums.
pub open spec fn message_type_text(v: Seq<char>) -> bool {
    v == ":: source2_demo :: proto :: EDemoCommands"@
        || v == "source2_demo :: proto :: EDemoCommands"@
        || v == "EDemoCommands"@
        || v == ":: source2_demo :: proto :: EBaseUserMessages"@
        || v == "source2_demo :: proto :: EBaseUserMessages"@
        || v == "EBaseUserMessages"@
        || v == ":: source2_demo :: proto :: EBaseGameEvents"@
        || v == "source2_demo :: proto :: EBaseGameEvents"@
        || v == "EBaseGameEvents"@
        || v == ":: source2_demo :: proto :: SvcMessages"@
        || v == "source2_demo :: proto :: SvcMessages"@
        || v == "SvcMessages"@
        || v == ":: source2_demo :: proto :: NetMessages"@
        || v == "source2_demo :: proto :: NetMessages"@
        || v == "NetMessages"@
        || v == ":: source2_demo :: proto :: EDotaUserMessages"@
        || v == "source2_demo :: proto :: EDotaUserMessages"@
        || v == "EDotaUserMessages"@
        || v == ":: source2_demo :: proto :: CitadelUserMessageIds"@
        || v == "source2_demo :: proto :: CitadelUserMessageIds"@
        || v == "CitadelUserMessageIds"@
        || v == ":: source2_demo :: proto :: ECitadelGameEvents"@
        || v == "source2_demo :: proto :: ECitadelGameEvents"@
        || v == "ECitadelGameEvents"@
        || v == ":: source2_demo :: proto :: ECstrike15UserMessages"@
        || v == "source2_demo :: proto :: ECstrike15UserMessages"@
        || v == "ECstrike15UserMessages"@
        || v == ":: source2_demo :: proto :: ECsgoGameEvents"@
        || v == "source2_demo :: proto :: ECsgoGameEvents"@
        || v == "ECsgoGameEvents"@
}

/// Whether `value` is the token text of one of the message enums.
pub fn is_message_type(value: &str) -> (r: bool)
    ensures
        r == message_type_text(value@),
{
    text_eq(value, ":: source2_demo :: proto :: EDemoCommands")
        || text_eq(value, "source2_demo :: proto :: EDemoCommands")
        || text_eq(value, "EDemoCommands")
        || text_eq(value, ":: source2_demo :: proto :: EBaseUserMessages")
        || text_eq(value, "source2_demo :: proto :: EBaseUserMessages")
        || text_eq(value, "EBaseUserMessages")
        || text_eq(value, ":: source2_demo :: proto :: EBaseGameEvents")
        || text_eq(value, "source2_demo :: proto :: EBaseGameEvents")
        || text_eq(value, "EBaseGameEvents")
        || text_eq(value, ":: source2_demo :: proto :: SvcMessages")
        || text_eq(value, "source2_demo :: proto :: SvcMessages")
        || text_eq(value, "SvcMessages")
        || text_eq(value, ":: source2_demo :: proto :: NetMessages")
        || text_eq(value, "source2_demo :: proto :: NetMessages")
        || text_eq(value, "NetMessages")
        || text_eq(value, ":: source2_demo :: proto :: EDotaUserMessages")
        || text_eq(value, "source2_demo :: proto :: EDotaUserMessages")
        || text_eq(value, "EDotaUserMessages")
        || text_eq(value, ":: source2_demo :: proto :: CitadelUserMessageIds")
        || text_eq(value, "source2_demo :: proto :: CitadelUserMessageIds")
        || text_eq(value, "CitadelUserMessageIds")
        || text_eq(value, ":: source2_demo :: proto :: ECitadelGameEvents")
        || text_eq(value, "source2_demo :: proto :: ECitadelGameEvents")
        || text_eq(value, "ECitadelGameEvents")
        || text_eq(value, ":: source2_demo :: proto :: ECstrike15UserMessages")
        || text_eq(value, "source2_demo :: proto :: ECstrike15UserMessages")
        || text_eq(value, "ECstrike15UserMessages")
        || text_eq(value, ":: source2_demo :: proto :: ECsgoGameEvents")
        || text_eq(value, "source2_demo :: proto :: ECsgoGameEvents")
        || text_eq(value, "ECsgoGameEvents")
}

/// Whether `v` is the text of a reference to one of the message enums.
pub open spec fn message_type_ref_text(v: Seq<char>) -> bool {
    v == "& :: source2_demo :: proto :: EDemoCommands"@
        || v == "& source2_demo :: proto :: EDemoCommands"@
        || v == "& EDemoCommands"@
        || v == "& :: source2_demo :: proto :: EBaseUserMessages"@
        || v == "& source2_demo :: proto :: EBaseUserMessages"@
        || v == "& EBaseUserMessages"@
        || v == "& :: source2_demo :: proto :: EBaseGameEvents"@
        || v == "& source2_demo :: proto :: EBaseGameEvents"@
        || v == "& EBaseGameEvents"@
        || v == "& :: source2_demo :: proto :: SvcMessages"@
        || v == "& source2_demo :: proto :: SvcMessages"@
        || v == "& SvcMessages"@
        || v == "& :: source2_demo :: proto :: NetMessages"@
        || v == "& source2_demo :: proto :: NetMessages"@
        || v == "& NetMessages"@
        || v == "& :: source2_demo :: proto :: EDotaUserMessages"@
        || v == "& source2_demo :: proto :: EDotaUserMessages"@
        || v == "& EDotaUserMessages"@
        || v == "& :: source2_demo :: proto :: CitadelUserMessageIds"@
        || v == "& source2_demo :: proto :: CitadelUserMessageIds"@
        || v == "& CitadelUserMessageIds"@
        || v == "& :: source2_demo :: proto :: ECitadelGameEvents"@
        || v == "& source2_demo :: proto :: ECitadelGameEvents"@
        || v == "& ECitadelGameEvents"@
        || v == "& :: source2_demo :: proto :: ECstrike15UserMessages"@
        || v == "& source2_demo :: proto :: ECstrike15UserMessages"@
        || v == "& ECstrike15UserMessages"@
        || v == "& :: source2_demo :: proto :: ECsgoGameEvents"@
        || v == "& source2_demo :: proto :: ECsgoGameEvents"@
        || v == "& ECsgoGameEvents"@
}

/// Whether `value` is the token text of a reference to one of the message enums.
pub fn is_message_type_ref(value: &str) -> (r: bool)
    ensures
        r == message_type_ref_text(value@),
{
    text_eq(value, "& :: source2_demo :: proto :: EDemoCommands")
        || text_eq(value, "& source2_demo :: proto :: EDemoCommands")
        || text_eq(value, "& EDemoCommands")
        || text_eq(value, "& :: source2_demo :: proto :: EBaseUserMessages")
        || text_eq(value, "& source2_demo :: proto :: EBaseUserMessages")
        || text_eq(value, "& EBaseUserMessages")
        || text_eq(value, "& :: source2_demo :: proto :: EBaseGameEvents")
        || text_eq(value, "& source2_demo :: proto :: EBaseGameEvents")
        || text_eq(value, "& EBaseGameEvents")
        || text_eq(value, "& :: source2_demo :: proto :: SvcMessages")
        || text_eq(value, "& source2_demo :: proto :: SvcMessages")
        || text_eq(value, "& SvcMessages")
        || text_eq(value, "& :: source2_demo :: proto :: NetMessages")
        || text_eq(value, "& source2_demo :: proto :: NetMessages")
        || text_eq(value, "& NetMessages")
        || text_eq(value, "& :: source2_demo :: proto :: EDotaUserMessages")
        || text_eq(value, "& source2_demo :: proto :: EDotaUserMessages")
        || text_eq(value, "& EDotaUserMessages")
        || text_eq(value, "& :: source2_demo :: proto :: CitadelUserMessageIds")
        || text_eq(value, "& source2_demo :: proto :: CitadelUserMessageIds")
        || text_eq(value, "& CitadelUserMessageIds")
        || text_eq(value, "& :: source2_demo :: proto :: ECitadelGameEvents")
        || text_eq(value, "& source2_demo :: proto :: ECitadelGameEvents")
        || text_eq(value, "& ECitadelGameEvents")
        || text_eq(value, "& :: source2_demo :: proto :: ECstrike15UserMessages")
        || text_eq(value, "& source2_demo :: proto :: ECstrike15UserMessages")
        || text_eq(value, "& ECstrike15UserMessages")
        || text_eq(value, "& :: source2_demo :: proto :: ECsgoGameEvents")
        || text_eq(value, "& source2_demo :: proto :: ECsgoGameEvents")
        || text_eq(value, "& ECsgoGameEvents")
}

/// Whether `v` is the text of a byte slice payload.
pub open spec fn payload_type_text(v: Seq<char>) -> bool {
    v == "& [u8]"@
}

/// Whether `value` is the token text of a byte slice payload.
pub fn is_payload_type(value: &str) -> (r: bool)
    ensures
        r == payload_type_text(value@),
{
    text_eq(value, "& [u8]")
}

/// Whether `v` is the text of a mutable list of packet messages.
pub open spec fn packet_messages_type_text(v: Seq<char>) -> bool {
    v == "& mut Vec < :: source2_demo :: writer :: PacketMessage >"@
        || v == "& mut Vec < source2_demo :: writer :: PacketMessage >"@
        || v == "& mut Vec < PacketMessage >"@
}

/// Whether `value` is the token text of a mutable list of packet messages.
pub fn is_packet_messages_type(value: &str) -> (r: bool)
    ensures
        r == packet_messages_type_text(value@),
{
    text_eq(value, "& mut Vec < :: source2_demo :: writer :: PacketMessage >")
        || text_eq(value, "& mut Vec < source2_demo :: writer :: PacketMessage >")
        || text_eq(value, "& mut Vec < PacketMessage >")
}

/// Whether `v` is the text of a mutable string table entry update.
pub open spec fn string_table_entry_type_text(v: Seq<char>) -> bool {
    v == "& mut :: source2_demo :: writer :: StringTableEntryUpdate"@
        || v == "& mut source2_demo :: writer :: StringTableEntryUpdate"@
        || v == "& mut StringTableEntryUpdate"@
}

/// Whether `value` is the token text of a mutable string table entry update.
pub fn is_string_table_entry_type(value: &str) -> (r: bool)
    ensures
        r == string_table_entry_type_text(value@),
{
    text_eq(value, "& mut :: source2_demo :: writer :: StringTableEntryUpdate")
        || text_eq(value, "& mut source2_demo :: writer :: StringTableEntryUpdate")
        || text_eq(value, "& mut StringTableEntryUpdate")
}

/// Whether `v` is the text of a value type that a field rewrite may return.
pub open spec fn rewrite_field_value_type_text(v: Seq<char>) -> bool {
    v == "& str"@
        || v == "String"@
        || v == "& String"@
        || v == "bool"@
        || v == "f32"@
        || v == "i8"@
        || v == "i16"@
        || v == "i32"@
        || v == "i64"@
        || v == "u8"@
        || v == "u16"@
        || v == "u32"@
        || v == "u64"@
        || v == "[f32 ; 2]"@
        || v == "[f32 ; 3]"@
        || v == "[f32 ; 4]"@
        || raw_field_value_type_text(v)
}

/// Whether `value` is the token text of a value type that a field rewrite may return.
pub fn is_rewrite_field_value_type(value: &str) -> (r: bool)
    ensures
        r == rewrite_field_value_type_text(value@),
{
    text_eq(value, "& str")
        || text_eq(value, "String")
        || text_eq(value, "& String")
        || text_eq(value, "bool")
        || text_eq(value, "f32")
        || text_eq(value, "i8")
        || text_eq(value, "i16")
        || text_eq(value, "i32")
        || text_eq(value, "i64")
        || text_eq(value, "u8")
        || text_eq(value, "u16")
        || text_eq(value, "u32")
        || text_eq(value, "u64")
        || text_eq(value, "[f32 ; 2]")
        || text_eq(value, "[f32 ; 3]")
        || text_eq(value, "[f32 ; 4]")
        || is_raw_field_value_type(value)
}

/// The bare name of the message enum that `v` names, in any of its three
/// spellings.
pub open spec fn canonical_message_name(v: Seq<char>) -> Option<Seq<char>> {
    if v == ":: source2_demo :: proto :: EDemoCommands"@ || v == "source2_demo :: proto :: EDemoCommands"@ || v == "EDemoCommands"@ {
        Some("EDemoCommands"@)
    } else if v == ":: source2_demo :: proto :: EBaseUserMessages"@ || v == "source2_demo :: proto :: EBaseUserMessages"@ || v == "EBaseUserMessages"@ {
        Some("EBaseUserMessages"@)
    } else if v == ":: source2_demo :: proto :: EBaseGameEvents"@ || v == "source2_demo :: proto :: EBaseGameEvents"@ || v == "EBaseGameEvents"@ {
        Some("EBaseGameEvents"@)
    } else if v == ":: source2_demo :: proto :: SvcMessages"@ || v == "source2_demo :: proto :: SvcMessages"@ || v == "SvcMessages"@ {
        Some("SvcMessages"@)
    } else if v == ":: source2_demo :: proto :: NetMessages"@ || v == "source2_demo :: proto :: NetMessages"@ || v == "NetMessages"@ {
        Some("NetMessages"@)
    } else if v == ":: source2_demo :: proto :: EDotaUserMessages"@ || v == "source2_demo :: proto :: EDotaUserMessages"@ || v == "EDotaUserMessages"@ {
        Some("EDotaUserMessages"@)
    } else if v == ":: source2_demo :: proto :: CitadelUserMessageIds"@ || v == "source2_demo :: proto :: CitadelUserMessageIds"@ || v == "CitadelUserMessageIds"@ {
        Some("CitadelUserMessageIds"@)
    } else if v == ":: source2_demo :: proto :: ECitadelGameEvents"@ || v == "source2_demo :: proto :: ECitadelGameEvents"@ || v == "ECitadelGameEvents"@ {
        Some("ECitadelGameEvents"@)
    } else if v == ":: source2_demo :: proto :: ECstrike15UserMessages"@ || v == "source2_demo :: proto :: ECstrike15UserMessages"@ || v == "ECstrike15UserMessages"@ {
        Some("ECstrike15UserMessages"@)
    } else if v == ":: source2_demo :: proto :: ECsgoGameEvents"@ || v == "source2_demo :: proto :: ECsgoGameEvents"@ || v == "ECsgoGameEvents"@ {
        Some("ECsgoGameEvents"@)
    } else {
        None
    }
}

/// The bare name of the message enum that `value` names.
pub fn canonical_message_type(value: &str) -> (r: Option<String>)
    ensures
        match canonical_message_name(value@) {
            Some(n) => r matches Some(s) && s@ == n,
            None => r is None,
        },
{
    if text_eq(value, ":: source2_demo :: proto :: EDemoCommands") || text_eq(value, "source2_demo :: proto :: EDemoCommands") || text_eq(value, "EDemoCommands") {
        Some("EDemoCommands".to_owned())
    } else if text_eq(value, ":: source2_demo :: proto :: EBaseUserMessages") || text_eq(value, "source2_demo :: proto :: EBaseUserMessages") || text_eq(value, "EBaseUserMessages") {
        Some("EBaseUserMessages".to_owned())
    } else if text_eq(value, ":: source2_demo :: proto :: EBaseGameEvents") || text_eq(value, "source2_demo :: proto :: EBaseGameEvents") || text_eq(value, "EBaseGameEvents") {
        Some("EBaseGameEvents".to_owned())
    } else if text_eq(value, ":: source2_demo :: proto :: SvcMessages") || text_eq(value, "source2_demo :: proto :: SvcMessages") || text_eq(value, "SvcMessages") {
        Some("SvcMessages".to_owned())
    } else if text_eq(value, ":: source2_demo :: proto :: NetMessages") || text_eq(value, "source2_demo :: proto :: NetMessages") || text_eq(value, "NetMessages") {
        Some("NetMessages".to_owned())
    } else if text_eq(value, ":: source2_demo :: proto :: EDotaUserMessages") || text_eq(value, "source2_demo :: proto :: EDotaUserMessages") || text_eq(value, "EDotaUserMessages") {
        Some("EDotaUserMessages".to_owned())
    } else if text_eq(value, ":: source2_demo :: proto :: CitadelUserMessageIds") || text_eq(value, "source2_demo :: proto :: CitadelUserMessageIds") || text_eq(value, "CitadelUserMessageIds") {
        Some("CitadelUserMessageIds".to_owned())
    } else if text_eq(value, ":: source2_demo :: proto :: ECitadelGameEvents") || text_eq(value, "source2_demo :: proto :: ECitadelGameEvents") || text_eq(value, "ECitadelGameEvents") {
        Some("ECitadelGameEvents".to_owned())
    } else if text_eq(value, ":: source2_demo :: proto :: ECstrike15UserMessages") || text_eq(value, "source2_demo :: proto :: ECstrike15UserMessages") || text_eq(value, "ECstrike15UserMessages") {
        Some("ECstrike15UserMessages".to_owned())
    } else if text_eq(value, ":: source2_demo :: proto :: ECsgoGameEvents") || text_eq(value, "source2_demo :: proto :: ECsgoGameEvents") || text_eq(value, "ECsgoGameEvents") {
        Some("ECsgoGameEvents".to_owned())
    } else {
        None
    }
}


/// The bare name of a message enum is given exactly for the texts that
/// name one, is itself such a text and its own bare name, and ends the
/// text it was found in, after the enums' module path.
pub proof fn canonical_message_name_agrees(v: Seq<char>)
    ensures
        canonical_message_name(v) is Some <==> message_type_text(v),
        canonical_message_name(v) matches Some(c) ==> message_type_text(c) && canonical_message_name(c) == Some(c),
        canonical_message_name(v) matches Some(c) ==> (v == c || v == "source2_demo :: proto :: "@ + c || v
            == ":: source2_demo :: proto :: "@ + c),
{
    reveal_strlit("source2_demo :: proto :: ");
    reveal_strlit(":: source2_demo :: proto :: ");
    reveal_strlit(":: source2_demo :: proto :: EDemoCommands");
    reveal_strlit("source2_demo :: proto :: EDemoCommands");
    reveal_strlit("EDemoCommands");
    reveal_strlit(":: source2_demo :: proto :: EBaseUserMessages");
    reveal_strlit("source2_demo :: proto :: EBaseUserMessages");
    reveal_strlit("EBaseUserMessages");
    reveal_strlit(":: source2_demo :: proto :: EBaseGameEvents");
    reveal_strlit("source2_demo :: proto :: EBaseGameEvents");
    reveal_strlit("EBaseGameEvents");
    reveal_strlit(":: source2_demo :: proto :: SvcMessages");
    reveal_strlit("source2_demo :: proto :: SvcMessages");
    reveal_strlit("SvcMessages");
    reveal_strlit(":: source2_demo :: proto :: NetMessages");
    reveal_strlit("source2_demo :: proto :: NetMessages");
    reveal_strlit("NetMessages");
    reveal_strlit(":: source2_demo :: proto :: EDotaUserMessages");
    reveal_strlit("source2_demo :: proto :: EDotaUserMessages");
    reveal_strlit("EDotaUserMessages");
    reveal_strlit(":: source2_demo :: proto :: CitadelUserMessageIds");
    reveal_strlit("source2_demo :: proto :: CitadelUserMessageIds");
    reveal_strlit("CitadelUserMessageIds");
    reveal_strlit(":: source2_demo :: proto :: ECitadelGameEvents");
    reveal_strlit("source2_demo :: proto :: ECitadelGameEvents");
    reveal_strlit("ECitadelGameEvents");
    reveal_strlit(":: source2_demo :: proto :: ECstrike15UserMessages");
    reveal_strlit("source2_demo :: proto :: ECstrike15UserMessages");
    reveal_strlit("ECstrike15UserMessages");
    reveal_strlit(":: source2_demo :: proto :: ECsgoGameEvents");
    reveal_strlit("source2_demo :: proto :: ECsgoGameEvents");
    reveal_strlit("ECsgoGameEvents");
}

} // verus!
